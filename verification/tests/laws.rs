use ink_core::{parse, render, render_codex_html, render_html, try_parse, word_count, Block, Inline, View};

fn char_offset(src: &str, needle: &str) -> usize {
    src[..src.find(needle).unwrap()].chars().count()
}

#[test]
fn child_levels_step_by_one_below_a_heading() {
    let root = parse("#### Deep\n\n######## Deeper\n\n# Top\n\n~~~ Scene\n");
    assert_eq!(root.children.len(), 2);
    assert_eq!(root.children[0].level, 4);
    assert_eq!(root.children[0].children[0].level, 5);
    assert_eq!(root.children[1].level, 1);
    assert_eq!(root.children[1].children[0].level, 2);
}

#[test]
fn node_spans_tile_the_source() {
    let src = "intro\n\n# A\n\n## A1\n\ntext\n\n## A2\n\n# B\n\nend\n";
    let root = parse(src);
    let n = src.chars().count();
    assert_eq!((root.node_span.start, root.node_span.end), (0, n));
    let a = &root.children[0];
    let b = &root.children[1];
    assert_eq!(a.node_span.end, b.node_span.start);
    assert_eq!(b.node_span.end, n);
    assert_eq!(a.children[0].node_span.end, a.children[1].node_span.start);
    assert_eq!(a.children[1].node_span.end, a.node_span.end);
    assert_eq!(a.node_span.start, char_offset(src, "# A"));
}

#[test]
fn excluded_child_changes_neither_manuscript_nor_word_count() {
    let with = parse("# Part {{number}} of {{total}}\n\nOne two.\n\n% Cut\n\nthree four five\n\n# Part {{number}} of {{total}}\n\nSix.\n");
    let without = parse("# Part {{number}} of {{total}}\n\nOne two.\n\n# Part {{number}} of {{total}}\n\nSix.\n");
    assert_eq!(render(&with, View::Manuscript), render(&without, View::Manuscript));
    assert_eq!(render_html(&with), render_html(&without));
    assert_eq!(word_count(&with), 3);
    assert_eq!(word_count(&with), word_count(&without));
}

#[test]
fn numbering_skips_excluded_siblings() {
    let m = render(&parse("# {{number}}/{{total}}\n\n% x\n\n# {{number}}/{{total}}\n\n# {{number}}/{{total}}\n"), View::Manuscript);
    assert_eq!(m, "# 1/3\n\n# 2/3\n\n# 3/3\n");
}

#[test]
fn unresolved_interpolation_stays_verbatim() {
    let m = render(&parse("# H\n\nSee {{nope}} and {{1 +}} here.\n"), View::Manuscript);
    assert!(m.contains("See {{nope}} and {{1 +}} here."), "{m}");
}

#[test]
fn html_views_escape_source_text() {
    let html = render_html(&parse("# <script>\n\nA <b> & c.\n"));
    assert!(!html.contains("<script>"), "{html}");
    assert!(!html.contains("<b>"), "{html}");
    assert!(html.contains("&lt;script&gt;") && html.contains("&amp;"), "{html}");
    let cx = render_codex_html(&parse("% <C>\n\n%% <i>x</i>\nk: <v>\n"));
    assert!(!cx.contains("<i>") && !cx.contains("<v>"), "{cx}");
}

#[test]
fn id_resolves_before_any_title_and_first_declaration_wins() {
    let src = "% C\n\n%% Alice\nid: ally\n\n%% Ally\n\n%% Bob\nid: ally\n\n% T\n\n%% Scene\nwho: ally\n";
    let html = render_codex_html(&parse(src));
    let alice = char_offset(src, "%% Alice");
    assert!(html.contains(&format!("<dt>who</dt><dd><a class=\"ref\" data-jump=\"{alice}\">ally</a></dd>")), "{html}");
    // The id key itself is never rendered as a link.
    assert!(html.contains("<dt>id</dt><dd>ally</dd>"), "{html}");
}

#[test]
fn title_resolves_to_the_nearest_enclosing_scope() {
    let src = "# Ch1\n\n%% Syn\n\nA.\n\n# Ch2\n\nSee [[Syn]].\n\n%% Syn\n\nB.\n";
    let html = render_codex_html(&parse(src));
    let first = html.find("<h2>Syn</h2>").unwrap();
    let second = html.rfind("<h2>Syn</h2>").unwrap();
    let backlink = html.find("Referenced by").unwrap();
    assert!(first < second && backlink > second, "{html}");
    assert_eq!(html.matches("Referenced by").count(), 1);
}

#[test]
fn try_parse_refuses_exactly_what_parse_cannot_take() {
    let long_run = format!("{} Too deep\n", "#".repeat(256));
    assert!(try_parse(&long_run).is_none());
    let at_255 = format!("{} Deepest\n\n# Next\n", "#".repeat(255));
    assert!(try_parse(&at_255).is_none());
    let accented = "# H\n\nA {é} brace, {ü+x}.\n";
    assert_eq!(try_parse(accented), Some(parse(accented)));
    let fine = "# H\n\nA {+b} é.\n";
    assert_eq!(try_parse(fine), Some(parse(fine)));
    let ok_255 = format!("{} Deepest\n", "#".repeat(255));
    assert_eq!(try_parse(&ok_255).unwrap().children[0].level, 255);
}

#[test]
fn a_brace_before_a_non_ascii_char_is_plain_text() {
    let root = parse("# H\n\nA {é} brace.\n");
    assert_eq!(
        root.children[0].body,
        vec![Block::Para(vec![Inline::Text("A {é} brace.".to_string())])]
    );
    assert!(render(&root, View::Edit).contains("A {é} brace."));
}

#[test]
fn a_cloned_tree_equals_its_source() {
    let root = parse("front: matter\n\n# A\nk: v\n\nText {+ins} [[L]].\n\n/ note\n\n## B\n\n% C\n");
    let copy = root.clone();
    assert_eq!(copy, root);
    assert_eq!(render(&copy, View::Edit), render(&root, View::Edit));
}

#[test]
fn heading_spans_are_their_heading_lines() {
    let src = "front: x\n\n#### Deep\n\n######## Deeper\nk: v\n\nbody\n\n~~ Side\n";
    let root = parse(src);
    let chars: Vec<char> = src.chars().collect();
    let line = |s: ink_core::Span| chars[s.start..s.end].iter().collect::<String>();
    let deep = &root.children[0];
    let deeper = &deep.children[0];
    assert_eq!(line(deep.heading_span), "#### Deep");
    assert_eq!(line(deeper.heading_span), "######## Deeper");
    assert_eq!(deeper.level, 5);
    assert_eq!(line(root.children[1].heading_span), "~~ Side");
    assert_eq!(root.heading_span, ink_core::Span { start: 0, end: 0 });
    for n in [deep, deeper, &root.children[1]] {
        let s = n.heading_span;
        assert!(s.start == 0 || chars[s.start - 1] == '\n');
        assert!(s.end == chars.len() || chars[s.end] == '\n');
        assert!(!chars[s.start..s.end].contains(&'\n'));
    }
}

#[test]
fn root_children_keep_their_marker_counts() {
    let root = parse("### Three

###### Six

## Two

##### Five

# One
");
    let levels: Vec<u8> = root.children.iter().map(|c| c.level).collect();
    assert_eq!(levels, vec![3, 2, 1]);
    assert_eq!(root.children[0].children[0].level, 4);
    assert_eq!(root.children[1].children[0].level, 3);
}

#[test]
fn resolved_titles_cover_headings_with_crlf_endings() {
    let root = parse("# A {{number}}\r\n\r\n## Plain\r\n\r\n# B\r\n");
    let titles = ink_core::resolve_titles(&root);
    let mut keys: Vec<usize> = titles.keys().copied().collect();
    keys.sort();
    let mut expected = vec![
        root.children[0].heading_span.start,
        root.children[0].children[0].heading_span.start,
        root.children[1].heading_span.start,
    ];
    expected.sort();
    assert_eq!(keys, expected);
    assert_eq!(titles[&root.children[0].heading_span.start], "A 1");
    assert_eq!(titles[&root.children[0].children[0].heading_span.start], "Plain");
    assert_eq!(titles[&root.children[1].heading_span.start], "B");
}

#[test]
fn names_resolve_case_insensitively() {
    let src = "% C\n\n%% Alice\n\n% T\n\n%% Scene\nwho: ALICE, bob\n";
    let html = render_codex_html(&parse(src));
    let alice = char_offset(src, "%% Alice");
    assert!(html.contains(&format!("<dd><a class=\"ref\" data-jump=\"{alice}\">ALICE</a>, bob</dd>")), "{html}");
    assert!(html.contains("Referenced by"), "{html}");
}

#[test]
fn backlinks_list_each_referrer_once_and_never_the_entity_itself() {
    let src = "~ S\nwho: Alice, alice\n\nSee [[Alice]].\n\n% C\n\n%% Alice\nfriend: Alice\n";
    let html = render_codex_html(&parse(src));
    let s = char_offset(src, "~ S");
    let expected = format!("<div class=\"backlinks\">Referenced by <a class=\"ref\" data-jump=\"{s}\">S</a></div>");
    assert!(html.contains(&expected), "{html}");
    assert_eq!(html.matches("data-jump=\"0\">S</a>").count(), 1, "{html}");
}

#[test]
fn nearest_metadata_wins_and_builtins_win_over_metadata() {
    let m = render(&parse("place: Front\n\n# H\nplace: Near\n\nIn {{place}}.\n\n# G\n\nIn {{place}}.\n"), View::Manuscript);
    assert!(m.contains("In Near.") && m.contains("In Front."), "{m}");
    let b = render(&parse("# {{number}} {{total}}\nnumber: 40\ntotal: 50\n"), View::Manuscript);
    assert_eq!(b, "# 1 1\n");
}

#[test]
fn multiline_metadata_joins_and_round_trips_through_edit() {
    let root = parse("# H\ncontact:\n  1 Road\n  Town\nnext: x\n\nBody.\n");
    let h = &root.children[0];
    assert_eq!(h.meta[0], ("contact".to_string(), "1 Road\nTown".to_string()));
    assert_eq!(h.meta[1], ("next".to_string(), "x".to_string()));
    let edit = render(&root, View::Edit);
    assert!(edit.contains("contact:\n  1 Road\n  Town\nnext: x\n"), "{edit}");
    assert_eq!(parse(&edit).children[0].meta, h.meta);
}

fn preorder_nodes<'a>(n: &'a ink_core::Node, out: &mut Vec<&'a ink_core::Node>) {
    for c in &n.children {
        out.push(c);
        preorder_nodes(c, out);
    }
}

#[test]
fn subtree_spans_run_to_the_next_heading_at_their_level_or_above() {
    let src = "# A\n\n## B\n\n### C\n\ntext\n\n## D\n\n# E\n\nend\n";
    let root = parse(src);
    let mut nodes = Vec::new();
    preorder_nodes(&root, &mut nodes);
    let n = src.chars().count();
    for (j, x) in nodes.iter().enumerate() {
        assert_eq!(x.node_span.start, x.heading_span.start);
        let next = nodes[j + 1..].iter().find(|y| y.level <= x.level).map(|y| y.heading_span.start).unwrap_or(n);
        assert_eq!(x.node_span.end, next, "{}", x.title);
    }
}

#[test]
fn every_heading_line_becomes_one_node_in_order() {
    let src = "front: m\n\n## A\n\n# B\n\n#### C\n\nnot # a heading\n\n%%no space\n\n~~~ D\n";
    let root = parse(src);
    let mut nodes = Vec::new();
    preorder_nodes(&root, &mut nodes);
    let mut starts = Vec::new();
    let mut off = 0;
    for line in src.split('\n') {
        let t = line.trim_start_matches(|c| c == '#' || c == '~' || c == '%');
        if t.len() < line.len() && t.starts_with(' ') {
            starts.push(off);
        }
        off += line.chars().count() + 1;
    }
    let got: Vec<usize> = nodes.iter().map(|x| x.heading_span.start).collect();
    assert_eq!(got, starts);
    assert_eq!(root.children.iter().map(|c| c.level).collect::<Vec<_>>(), vec![2, 1]);
}

#[test]
fn resolved_titles_are_keyed_by_every_heading_and_nothing_else() {
    let src = "# Chapter {{number}}\n\n## Plain\n\n% Note\n";
    let root = parse(src);
    let titles = ink_core::resolve_titles(&root);
    let mut nodes = Vec::new();
    preorder_nodes(&root, &mut nodes);
    let mut keys: Vec<usize> = titles.keys().copied().collect();
    keys.sort();
    let mut starts: Vec<usize> = nodes.iter().map(|x| x.heading_span.start).collect();
    starts.sort();
    assert_eq!(keys, starts);
    assert_eq!(titles[&nodes[0].heading_span.start], "Chapter 1");
    assert_eq!(titles[&nodes[1].heading_span.start], "Plain");
    let outline = render(&root, View::Outline);
    assert!(outline.contains("# Chapter 1\n") && outline.contains("## Plain\n"), "{outline}");
}

#[test]
fn removing_a_nested_excluded_section_keeps_every_view() {
    let src = "# A {{number}}\n\nOne.\n\n## B\n\nTwo three.\n\n%%% Cut\n\ngone words\n\n## C {{number}}/{{total}}\n\nFour.\n";
    let root = parse(src);
    let mut cut = root.clone();
    cut.children[0].children[0].children.remove(0);
    assert_eq!(render(&cut, View::Manuscript), render(&root, View::Manuscript));
    assert_eq!(render_html(&cut), render_html(&root));
    assert_eq!(word_count(&cut), word_count(&root));
    assert_eq!(word_count(&root), 4);
}

#[test]
fn word_count_is_the_manuscripts_whitespace_word_count() {
    let root = parse("~ S\n\nOne two\nthree.\n\n~~ T\n\nfour {+five} {-gone} {~old~six}.\n\n% X\n\nnot counted\n");
    let m = render(&root, View::Manuscript);
    assert_eq!(word_count(&root), m.split_whitespace().count());
    assert_eq!(word_count(&root), 6);
}

#[test]
fn edit_writes_paragraph_markup_back_as_written() {
    let para = "She {+said **hi**} to [[Alice]], {~old~new} {/note} and *x* {-cut}.\n5 * 3 {oops";
    let root = parse(&format!("# H\n\n{para}\n"));
    let edit = render(&root, View::Edit);
    assert!(edit.contains(&format!("\n{para}\n\n")), "{edit}");
    // A backslash escape is where the text is not written back as it was.
    let esc = render(&parse("# H\n\na \\*b\\*\n"), View::Edit);
    assert!(esc.contains("a *b*"), "{esc}");
}
