use ink_core::is_self_naming;

#[test]
fn self_naming_is_id_only() {
    assert!(is_self_naming("id"));
    assert!(!is_self_naming("time"));
    assert!(!is_self_naming("location"));
    assert!(!is_self_naming("characters"));
    // case-sensitive: keys are stored verbatim, folding happens at lookup.
    assert!(!is_self_naming("ID"));
}
