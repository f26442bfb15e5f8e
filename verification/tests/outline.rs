use ink_core::outline::{active_index, outline, parse_bundle, to_outline, OutlineNode, ProjectFile};
use ink_core::{parse, resolve_titles};

fn preorder(o: &OutlineNode, out: &mut Vec<usize>) {
    out.push(o.id);
    for c in &o.children {
        preorder(c, out);
    }
}

#[test]
fn outline_numbers_nodes_in_preorder() {
    let src = "# One\n\n## A\n\n## B\n\n# Two\n\n~~ C\n";
    let o = outline(src);
    let mut ids = Vec::new();
    preorder(&o, &mut ids);
    assert_eq!(ids, vec![0, 1, 2, 3, 4, 5]);
    assert_eq!(o.level, 0);
    assert_eq!(o.children[1].id, 4);
    assert_eq!(o.children[1].children[0].visibility, "scene");
    assert_eq!(o.children[0].visibility, "visible");
}

#[test]
fn outline_carries_resolved_titles_keys_words_and_spans() {
    let src = "# Chapter {{number}}\ntime: dawn\npov: Alice\n\nOne two three.\n\n% Notes\n\nsecret words here\n";
    let o = outline(src);
    let ch = &o.children[0];
    assert_eq!(ch.title, "Chapter 1");
    assert_eq!(ch.meta_keys, vec!["time".to_string(), "pov".to_string()]);
    assert_eq!(ch.words, 3);
    assert_eq!(o.words, 3);
    assert_eq!(o.children[1].visibility, "excluded");
    assert_eq!(o.children[1].words, 0);
    assert_eq!(ch.heading_span.start, 0);
    assert_eq!(ch.node_span.end, o.children[1].node_span.start);
    assert_eq!(o.node_span.end, src.chars().count());
}

#[test]
fn to_outline_continues_numbering_from_next_id() {
    let root = parse("# A\n\n# B\n");
    let titles = resolve_titles(&root);
    let mut next = 10;
    let o = to_outline(&root, &titles, &mut next);
    assert_eq!(o.id, 10);
    assert_eq!(o.children[0].id, 11);
    assert_eq!(o.children[1].id, 12);
    assert_eq!(next, 13);
}

#[test]
fn bundle_keeps_order_and_finds_the_active_file() {
    let files = vec![
        ProjectFile { path: "a.ink".to_string(), src: "# A\n".to_string() },
        ProjectFile { path: "b.ink".to_string(), src: "# B\n".to_string() },
        ProjectFile { path: "b.ink".to_string(), src: "# B2\n".to_string() },
    ];
    let parsed = parse_bundle(files);
    assert_eq!(parsed.len(), 3);
    assert_eq!(parsed[1].0, "b.ink");
    assert_eq!(parsed[1].1.children[0].title, "B");
    assert_eq!(active_index(&parsed, "b.ink"), 1);
    assert_eq!(active_index(&parsed, "a.ink"), 0);
    assert_eq!(active_index(&parsed, "missing.ink"), 0);
}
