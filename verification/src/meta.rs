//! Reserved metadata keys: the keys that carry defined meaning in this
//! library, as opposed to the author's free-form vocabulary.

use vstd::prelude::*;

verus! {

/// The rename-proof section handle. Names its own `%` codex entity so a
/// `[[link]]` or metadata reference survives a title rename.
pub const ID: &'static str = "id";

/// The model of the one self-naming key, `id`.
pub open spec fn id_key() -> Seq<char> {
    seq!['i', 'd']
}

/// Does this metadata key *name its own section* rather than reference another
/// entity? Such keys are excluded from backlinks and rendered as plain text.
/// Today the only one is `id` (case-sensitive).
pub fn is_self_naming(key: &str) -> (r: bool)
    ensures
        r == (key@ == id_key()),
{
    let k = crate::text::str_chars(key);
    let r = k.len() == 2 && k[0] == 'i' && k[1] == 'd';
    proof {
        if r {
            assert(key@ =~= id_key());
        }
    }
    r
}

/// `is_self_naming` over a key held as characters.
pub fn is_self_naming_chars(key: &[char]) -> (r: bool)
    ensures
        r == (key@ == id_key()),
{
    let r = key.len() == 2 && key[0] == 'i' && key[1] == 'd';
    proof {
        if r {
            assert(key@ =~= id_key());
        }
    }
    r
}

} // verus!
