//! The outline tree handed to an editor front end, and the project bundle
//! (path + source per file) that cross-file commands take.
//!
//! The outline mirrors a [`Node`] minus its prose: each node carries a stable
//! preorder `id`, its resolved title, its metadata keys and the manuscript
//! word count of its subtree.

use vstd::prelude::*;
use vstd::view::View as _;
use crate::{Node, NodeModel, Span, Visibility, meta_model};
use crate::parse::parse_model;
use crate::render::{base_ctx, link_index, meta_keys, meta_keys_exec, words};
use crate::text::{chars_to_string, str_chars};
use crate::interp::eq_chars;

verus! {

/// The name a front end shows for a visibility.
pub open spec fn visibility_name(v: Visibility) -> Seq<char> {
    match v {
        Visibility::Visible => "visible"@,
        Visibility::Scene => "scene"@,
        Visibility::Excluded => "excluded"@,
    }
}

/// The number of nodes in a subtree, itself included.
pub open spec fn node_count(n: NodeModel) -> nat
    decreases n, 1nat, 0int,
{
    1 + kids_count(n, n.children.len() as int)
}

/// The number of nodes under the first `i` children.
pub open spec fn kids_count(n: NodeModel, i: int) -> nat
    decreases n, 0nat, i,
{
    if i <= 0 || i > n.children.len() {
        0
    } else {
        kids_count(n, i - 1) + node_count(n.children[i - 1])
    }
}

/// Every subtree's manuscript word count (over its own context) fits a `usize`.
pub open spec fn counts_fit(n: NodeModel) -> bool
    decreases n, 1nat, 0int,
{
    words(n, base_ctx(n), link_index(n)) <= usize::MAX && kids_fit(n, n.children.len() as int)
}

pub open spec fn kids_fit(n: NodeModel, i: int) -> bool
    decreases n, 0nat, i,
{
    if i <= 0 || i > n.children.len() {
        true
    } else {
        kids_fit(n, i - 1) && counts_fit(n.children[i - 1])
    }
}

/// One outline entry, as the model of [`OutlineNode`].
pub struct OutlineModel {
    pub id: int,
    pub level: u8,
    pub visibility: Seq<char>,
    pub title: Seq<char>,
    pub meta_keys: Seq<Seq<char>>,
    pub words: nat,
    pub heading_span: Span,
    pub node_span: Span,
    pub children: Seq<OutlineModel>,
}

/// The title an outline entry shows: the root's own (empty) title, else the
/// resolved title recorded for its heading offset, else its raw title.
pub open spec fn outline_title(n: NodeModel, titles: Map<usize, Seq<char>>) -> Seq<char> {
    if n.level == 0 {
        n.title
    } else if titles.contains_key(n.heading_span.start) {
        titles[n.heading_span.start]
    } else {
        n.title
    }
}

/// The outline of a subtree whose root takes id `next`; ids run in preorder.
pub open spec fn outline_of(n: NodeModel, titles: Map<usize, Seq<char>>, next: int) -> OutlineModel
    decreases n, 1nat, 0int,
{
    OutlineModel {
        id: next,
        level: n.level,
        visibility: visibility_name(n.visibility),
        title: outline_title(n, titles),
        meta_keys: meta_keys(n.meta),
        words: words(n, base_ctx(n), link_index(n)),
        heading_span: n.heading_span,
        node_span: n.node_span,
        children: outline_kids(n, titles, next + 1, n.children.len() as int),
    }
}

/// The outlines of the first `i` children, numbered on from `next`.
pub open spec fn outline_kids(n: NodeModel, titles: Map<usize, Seq<char>>, next: int, i: int) -> Seq<OutlineModel>
    decreases n, 0nat, i,
{
    if i <= 0 || i > n.children.len() {
        seq![]
    } else {
        outline_kids(n, titles, next, i - 1).push(
            outline_of(n.children[i - 1], titles, next + kids_count(n, i - 1)),
        )
    }
}

/// The outline of a document: its root (level 0) with ids from 0.
pub open spec fn outline_model(root: NodeModel, titles: Map<usize, Seq<char>>) -> OutlineModel {
    outline_of(root, titles, 0)
}

/// A title map held as `String`s, by its chars.
pub open spec fn title_map(m: Map<usize, String>) -> Map<usize, Seq<char>> {
    m.map_values(|s: String| s@)
}

/// An outline entry: a node minus its prose, with a preorder id.
pub struct OutlineNode {
    pub id: usize,
    pub level: u8,
    /// `"visible"`, `"scene"` or `"excluded"`.
    pub visibility: String,
    pub title: String,
    pub meta_keys: Vec<String>,
    /// Manuscript word count of this subtree (the root carries the total).
    pub words: usize,
    pub heading_span: Span,
    pub node_span: Span,
    pub children: Vec<OutlineNode>,
}

pub open spec fn outline_node_model(o: &OutlineNode) -> OutlineModel
    decreases o, 1nat,
{
    OutlineModel {
        id: o.id as int,
        level: o.level,
        visibility: o.visibility@,
        title: o.title@,
        meta_keys: o.meta_keys@.map_values(|k: String| k@),
        words: o.words as nat,
        heading_span: o.heading_span,
        node_span: o.node_span,
        children: outline_nodes_model(o.children@),
    }
}

pub open spec fn outline_nodes_model(s: Seq<OutlineNode>) -> Seq<OutlineModel>
    decreases s, 0nat,
{
    Seq::new(
        s.len(),
        |i: int|
            if 0 <= i < s.len() {
                outline_node_model(&s[i])
            } else {
                arbitrary()
            },
    )
}

impl OutlineNode {
    pub open spec fn view(&self) -> OutlineModel {
        outline_node_model(self)
    }
}

proof fn lemma_kids_count_mono(n: NodeModel, i: int, j: int)
    requires
        0 <= i <= j <= n.children.len(),
    ensures
        kids_count(n, i) <= kids_count(n, j),
    decreases j - i,
{
    if i < j {
        lemma_kids_count_mono(n, i, j - 1);
    }
}

proof fn lemma_kids_fit(n: NodeModel, i: int, j: int)
    requires
        0 <= i < j <= n.children.len(),
        kids_fit(n, j),
    ensures
        counts_fit(n.children[i]),
    decreases j - i,
{
    if i < j - 1 {
        lemma_kids_fit(n, i, j - 1);
    }
}

/// The ids of an outline in preorder: a node, then each child's subtree.
pub open spec fn preorder_ids(o: OutlineModel) -> Seq<int>
    decreases o, 1nat, 0int,
{
    seq![o.id] + kids_ids(o, o.children.len() as int)
}

pub open spec fn kids_ids(o: OutlineModel, i: int) -> Seq<int>
    decreases o, 0nat, i,
{
    if i <= 0 || i > o.children.len() {
        seq![]
    } else {
        kids_ids(o, i - 1) + preorder_ids(o.children[i - 1])
    }
}

proof fn lemma_outline_kids(n: NodeModel, titles: Map<usize, Seq<char>>, next: int, i: int)
    requires
        0 <= i <= n.children.len(),
    ensures
        outline_kids(n, titles, next, i).len() == i,
        forall|j: int|
            0 <= j < i ==> #[trigger] outline_kids(n, titles, next, i)[j] == outline_of(
                n.children[j],
                titles,
                next + kids_count(n, j),
            ),
    decreases i,
{
    if i > 0 {
        lemma_outline_kids(n, titles, next, i - 1);
    }
}

proof fn lemma_kids_ids(n: NodeModel, titles: Map<usize, Seq<char>>, next: int, i: int)
    requires
        0 <= i <= n.children.len(),
    ensures
        kids_ids(outline_of(n, titles, next), i) == Seq::new(kids_count(n, i), |j: int| next + 1 + j),
    decreases n, 0nat, i,
{
    let o = outline_of(n, titles, next);
    lemma_outline_kids(n, titles, next + 1, n.children.len() as int);
    if i > 0 {
        lemma_kids_ids(n, titles, next, i - 1);
        let c = n.children[i - 1];
        let cn = next + 1 + kids_count(n, i - 1);
        assert(o.children[i - 1] == outline_of(c, titles, cn));
        outline_ids_preorder(c, titles, cn);
        assert(kids_ids(o, i) =~= Seq::new(kids_count(n, i), |j: int| next + 1 + j));
    } else {
        assert(kids_ids(o, i) =~= Seq::new(kids_count(n, i), |j: int| next + 1 + j));
    }
}

/// Outline ids are a preorder numbering: listed in preorder, the ids of the
/// outline of a subtree whose root takes `next` are `next`, `next + 1`, … one
/// per node, so every node of one parse has its own id.
pub proof fn outline_ids_preorder(n: NodeModel, titles: Map<usize, Seq<char>>, next: int)
    ensures
        preorder_ids(outline_of(n, titles, next)) == Seq::new(node_count(n), |j: int| next + j),
    decreases n, 1nat, 0int,
{
    lemma_outline_kids(n, titles, next + 1, n.children.len() as int);
    lemma_kids_ids(n, titles, next, n.children.len() as int);
    assert(preorder_ids(outline_of(n, titles, next)) =~= Seq::new(node_count(n), |j: int| next + j));
}

fn visibility_string(v: Visibility) -> (r: String)
    ensures
        r@ == visibility_name(v),
{
    match v {
        Visibility::Visible => "visible".to_owned(),
        Visibility::Scene => "scene".to_owned(),
        Visibility::Excluded => "excluded".to_owned(),
    }
}

proof fn lemma_kids_fit_intro(n: NodeModel, j: int)
    requires
        0 <= j <= n.children.len(),
        forall|k: int| 0 <= k < j ==> counts_fit(#[trigger] n.children[k]),
    ensures
        kids_fit(n, j),
    decreases j,
{
    if j > 0 {
        lemma_kids_fit_intro(n, j - 1);
    }
}

/// The outline of `node`, ids assigned in preorder from `*next_id` (which ends
/// one past the last id used); titles are looked up by heading offset.
pub fn to_outline(node: &Node, titles: &std::collections::HashMap<usize, String>, next_id: &mut usize) -> (r: OutlineNode)
    requires
        counts_fit(node@),
        *old(next_id) + node_count(node@) <= usize::MAX,
    ensures
        r@ == outline_of(node@, title_map(titles@), *old(next_id) as int),
        *final(next_id) == *old(next_id) + node_count(node@),
{
    try_to_outline(node, titles, next_id).unwrap()
}

/// [`to_outline`] on any tree: `None` where a word count or an id would not
/// fit a `usize`.
pub fn try_to_outline(node: &Node, titles: &std::collections::HashMap<usize, String>, next_id: &mut usize) -> (r: Option<OutlineNode>)
    ensures
        r is Some == (counts_fit(node@) && *old(next_id) + node_count(node@) <= usize::MAX),
        r matches Some(o) ==> o@ == outline_of(node@, title_map(titles@), *old(next_id) as int)
            && *final(next_id) == *old(next_id) + node_count(node@),
    decreases node,
{
    let ghost tm = title_map(titles@);
    proof {
        lemma_kids_count_mono(node@, 0, node@.children.len() as int);
    }
    let id = *next_id;
    if id == usize::MAX {
        return None;
    }
    *next_id = id + 1;
    let title = if node.level == 0 {
        node.title.clone()
    } else {
        match titles.get(&node.heading_span.start) {
            Some(t) => t.clone(),
            None => node.title.clone(),
        }
    };
    let keys = meta_keys_exec(&node.meta);
    let mut keys_out: Vec<String> = Vec::new();
    let mut k: usize = 0;
    while k < keys.len()
        invariant
            k <= keys@.len(),
            keys_out@.len() == k,
            forall|j: int| 0 <= j < k ==> (#[trigger] keys_out@[j])@ == keys@[j]@,
        decreases keys@.len() - k,
    {
        keys_out.push(chars_to_string(keys[k].as_slice()));
        k += 1;
    }
    assert(keys_out@.map_values(|s: String| s@) =~= keys@.map_values(|l: Vec<char>| l@));
    let word_total = match crate::render::try_word_count(node) {
        Some(w) => w,
        None => {
            return None;
        },
    };
    let mut children: Vec<OutlineNode> = Vec::new();
    let mut i: usize = 0;
    while i < node.children.len()
        invariant
            i <= node.children@.len(),
            tm == title_map(titles@),
            id == *old(next_id),
            id < usize::MAX,
            words(node@, base_ctx(node@), link_index(node@)) <= usize::MAX,
            *next_id == id + 1 + kids_count(node@, i as int),
            forall|j: int| 0 <= j < i ==> counts_fit(#[trigger] node@.children[j]),
            outline_nodes_model(children@) == outline_kids(node@, tm, id + 1, i as int),
        decreases node.children@.len() - i,
    {
        assert(decreases_to!(node => node.children));
        assert(decreases_to!(node.children => node.children@));
        assert(decreases_to!(node.children@ => node.children@[i as int]));
        assert(node@.children[i as int] == node.children@[i as int]@);
        proof {
            lemma_kids_count_mono(node@, i + 1, node@.children.len() as int);
            if counts_fit(node@) {
                lemma_kids_fit(node@, i as int, node@.children.len() as int);
            }
        }
        let ghost c0 = children@;
        let ghost before = *next_id;
        match try_to_outline(&node.children[i], titles, next_id) {
            Some(c) => {
                children.push(c);
                assert(outline_nodes_model(children@) =~= outline_nodes_model(c0).push(c@));
            },
            None => {
                proof {
                    let ch = node@.children[i as int];
                    assert(kids_count(node@, i + 1) == kids_count(node@, i as int) + node_count(ch));
                    assert(node_count(node@) == 1 + kids_count(node@, node@.children.len() as int));
                    assert(!counts_fit(ch) || before + node_count(ch) > usize::MAX);
                }
                return None;
            },
        }
        i += 1;
    }
    proof {
        lemma_kids_fit_intro(node@, node@.children.len() as int);
    }
    let r = OutlineNode {
        id,
        level: node.level,
        visibility: visibility_string(node.visibility),
        title,
        meta_keys: keys_out,
        words: word_total,
        heading_span: node.heading_span,
        node_span: node.node_span,
        children,
    };
    assert(r@.meta_keys =~= meta_keys(node@.meta));
    Some(r)
}

/// Parse `src` and return its outline tree (root included, level 0), titles
/// resolved as the rendered views show them.
pub fn outline(src: &str) -> (r: OutlineNode)
    requires
        parse_model(src@).1,
        src@.len() < usize::MAX,
        counts_fit(parse_model(src@).0),
        node_count(parse_model(src@).0) <= usize::MAX,
    ensures
        r@ == outline_model(
            parse_model(src@).0,
            crate::render::to_map(crate::render::titles_list(parse_model(src@).0)),
        ),
{
    try_outline(src).unwrap()
}

/// [`outline`] on any source: `None` where the parser refuses it or a count
/// would not fit a `usize`.
pub fn try_outline(src: &str) -> (r: Option<OutlineNode>)
    requires
        src@.len() < usize::MAX,
    ensures
        r is Some == (parse_model(src@).1 && counts_fit(parse_model(src@).0) && node_count(
            parse_model(src@).0,
        ) <= usize::MAX),
        r matches Some(o) ==> o@ == outline_model(
            parse_model(src@).0,
            crate::render::to_map(crate::render::titles_list(parse_model(src@).0)),
        ),
{
    let root = match crate::parse::try_parse(src) {
        Some(n) => n,
        None => {
            return None;
        },
    };
    let titles = crate::render::resolve_titles(&root);
    let mut next_id: usize = 0;
    let r = try_to_outline(&root, &titles, &mut next_id);
    assert(title_map(titles@) =~= crate::render::to_map(crate::render::titles_list(root@)));
    r
}

/// One file of a project bundle: its path (the jump target for cross-file
/// references) and its current source.
pub struct ProjectFile {
    pub path: String,
    pub src: String,
}

/// Parse each file of a bundle, keeping its path and the bundle's order.
pub fn parse_bundle(files: Vec<ProjectFile>) -> (r: Vec<(String, Node)>)
    requires
        forall|i: int|
            0 <= i < files@.len() ==> parse_model((#[trigger] files@[i]).src@).1 && files@[i].src@.len()
                < usize::MAX,
    ensures
        r@.len() == files@.len(),
        forall|i: int|
            0 <= i < r@.len() ==> (#[trigger] r@[i]).0@ == files@[i].path@ && r@[i].1@ == parse_model(
                files@[i].src@,
            ).0,
{
    let mut out: Vec<(String, Node)> = Vec::new();
    let mut i: usize = 0;
    while i < files.len()
        invariant
            i <= files@.len(),
            out@.len() == i,
            forall|j: int|
                0 <= j < files@.len() ==> parse_model((#[trigger] files@[j]).src@).1 && files@[j].src@.len()
                    < usize::MAX,
            forall|j: int|
                0 <= j < i ==> (#[trigger] out@[j]).0@ == files@[j].path@ && out@[j].1@ == parse_model(
                    files@[j].src@,
                ).0,
        decreases files@.len() - i,
    {
        let f = &files[i];
        let node = crate::parse::parse(f.src.as_str());
        out.push((f.path.clone(), node));
        i += 1;
    }
    out
}

/// The first index whose path is `active`, if any.
pub open spec fn first_path(paths: Seq<Seq<char>>, active: Seq<char>, i: int) -> Option<int>
    decreases paths.len() - i,
{
    if i < 0 || i >= paths.len() {
        None
    } else if paths[i] == active {
        Some(i)
    } else {
        first_path(paths, active, i + 1)
    }
}

pub open spec fn bundle_paths(parsed: Seq<(String, Node)>) -> Seq<Seq<char>> {
    parsed.map_values(|p: (String, Node)| p.0@)
}

/// The index of the active file in a parsed bundle (matched by path), or 0.
pub fn active_index(parsed: &[(String, Node)], active: &str) -> (r: usize)
    ensures
        r == match first_path(bundle_paths(parsed@), active@, 0) {
            Some(i) => i,
            None => 0,
        },
{
    let a = str_chars(active);
    let ghost ps = bundle_paths(parsed@);
    let mut i: usize = 0;
    while i < parsed.len()
        invariant
            i <= parsed@.len(),
            ps == bundle_paths(parsed@),
            a@ == active@,
            first_path(ps, active@, 0) == first_path(ps, active@, i as int),
        decreases parsed@.len() - i,
    {
        let p = str_chars(parsed[i].0.as_str());
        if eq_chars(p.as_slice(), a.as_slice()) {
            return i;
        }
        i += 1;
    }
    0
}

} // verus!
