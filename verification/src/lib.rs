//! inkpot core: parse the `.ink` prose format into a tree and render views.
//!
//! Text is canonical. A document parses into a [`Node`] tree (rooted at an
//! implicit level-0 node). Views are read-only walks of that tree. Every
//! executable type here has a mathematical model (`*Model`) over `Seq<char>`,
//! and the contracts of the parser and renderers are stated over those models.

use vstd::prelude::*;
use vstd::view::View as _;

pub mod text;
pub mod meta;
pub mod inline;
pub mod parse;
pub mod interp;
pub mod render;
pub mod shunn;
pub mod codex;
pub mod outline;
pub mod shape;
pub mod omission;
pub mod references;
pub mod counting;
pub mod order;
pub mod roundtrip;
pub mod paragraphs;
pub mod views;

pub use codex::render_codex_html;
pub use meta::is_self_naming;
pub use parse::{parse, try_parse};
pub use render::{render, render_html, resolve_titles, word_count, View};
pub use shunn::{header_keyword, round_wordcount, surname, ShunnBlock, ShunnManuscript};

verus! {

/// A half-open range of **char** (Unicode scalar) offsets into the source.
#[derive(Debug, Clone, Copy, PartialEq, Eq, Structural)]
pub struct Span {
    pub start: usize,
    pub end: usize,
}

/// How a heading and its subtree reach the manuscript. The marker char sets it.
#[derive(Debug, Clone, Copy, PartialEq, Eq, Structural)]
pub enum Visibility {
    /// `#`: heading and body print.
    Visible,
    /// `~`: heading hidden, body still prints (a scene).
    Scene,
    /// `%`: heading, body, and all descendants excluded from the manuscript.
    Excluded,
}

/// An inline span within a paragraph. Markup operands are themselves inline
/// sequences, so markup nests.
#[derive(Debug, PartialEq)]
pub enum Inline {
    Text(String),
    /// `**bold**`: visible markup, prints.
    Bold(Vec<Inline>),
    /// `*italic*`: visible markup, prints.
    Italic(Vec<Inline>),
    /// `{+insertion}`: CriticMarkup, accepted into print.
    Insert(Vec<Inline>),
    /// `{-deletion}`: CriticMarkup, dropped from print.
    Delete(Vec<Inline>),
    /// `{~old~new}`: CriticMarkup substitution; `new` prints.
    Sub { old: Vec<Inline>, new: Vec<Inline> },
    /// `{/comment}`: inline comment, never prints. Kept raw.
    Comment(String),
    /// `[[Target]]`: a wikilink to a codex entity, kept as its raw target.
    Link(String),
}

/// A block of content inside a node's body.
#[derive(Debug, PartialEq)]
pub enum Block {
    /// A paragraph: consecutive non-blank lines, scanned into inlines.
    Para(Vec<Inline>),
    /// A `/`-prefixed line comment. Never printed.
    LineComment(String),
}

/// A structural unit: heading + metadata + body prose + nested children.
///
/// The root node has `level == 0`, `Visibility::Visible`, empty `title`, and
/// holds any preamble text (before the first heading) plus the top-level headings.
#[derive(Debug, PartialEq)]
pub struct Node {
    /// Depth in the shared hierarchy. Marker *count* in the source.
    pub level: u8,
    /// Whether the heading/subtree prints, per its marker (`#`/`~`/`%`).
    pub visibility: Visibility,
    pub title: String,
    /// `key: value` lines directly under the heading. Never printed.
    pub meta: Vec<(String, String)>,
    pub body: Vec<Block>,
    pub children: Vec<Node>,
    /// The heading line itself. Empty `0..0` for the root.
    pub heading_span: Span,
    /// The whole subtree: heading through the end of its last descendant.
    pub node_span: Span,
}

/// The model of an [`Inline`]: the same shape over `Seq<char>`.
pub enum InlineModel {
    Text(Seq<char>),
    Bold(Seq<InlineModel>),
    Italic(Seq<InlineModel>),
    Insert(Seq<InlineModel>),
    Delete(Seq<InlineModel>),
    Sub { old: Seq<InlineModel>, new: Seq<InlineModel> },
    Comment(Seq<char>),
    Link(Seq<char>),
}

/// The model of a [`Block`].
pub enum BlockModel {
    Para(Seq<InlineModel>),
    LineComment(Seq<char>),
}

/// The model of a [`Node`].
pub struct NodeModel {
    pub level: u8,
    pub visibility: Visibility,
    pub title: Seq<char>,
    pub meta: Seq<(Seq<char>, Seq<char>)>,
    pub body: Seq<BlockModel>,
    pub children: Seq<NodeModel>,
    pub heading_span: Span,
    pub node_span: Span,
}

pub open spec fn inline_model(x: &Inline) -> InlineModel
    decreases x, 1nat,
{
    match x {
        Inline::Text(s) => InlineModel::Text(s@),
        Inline::Bold(cs) => InlineModel::Bold(inlines_model(cs@)),
        Inline::Italic(cs) => InlineModel::Italic(inlines_model(cs@)),
        Inline::Insert(cs) => InlineModel::Insert(inlines_model(cs@)),
        Inline::Delete(cs) => InlineModel::Delete(inlines_model(cs@)),
        Inline::Sub { old, new } => InlineModel::Sub {
            old: inlines_model(old@),
            new: inlines_model(new@),
        },
        Inline::Comment(s) => InlineModel::Comment(s@),
        Inline::Link(s) => InlineModel::Link(s@),
    }
}

pub open spec fn inlines_model(s: Seq<Inline>) -> Seq<InlineModel>
    decreases s, 0nat,
{
    Seq::new(
        s.len(),
        |i: int|
            if 0 <= i < s.len() {
                inline_model(&s[i])
            } else {
                InlineModel::Text(Seq::empty())
            },
    )
}

pub open spec fn block_model(b: &Block) -> BlockModel {
    match b {
        Block::Para(spans) => BlockModel::Para(inlines_model(spans@)),
        Block::LineComment(c) => BlockModel::LineComment(c@),
    }
}

pub open spec fn blocks_model(s: Seq<Block>) -> Seq<BlockModel> {
    s.map_values(|b: Block| block_model(&b))
}

pub open spec fn meta_model(s: Seq<(String, String)>) -> Seq<(Seq<char>, Seq<char>)> {
    s.map_values(|p: (String, String)| (p.0@, p.1@))
}

pub open spec fn node_model(n: &Node) -> NodeModel
    decreases n, 1nat,
{
    NodeModel {
        level: n.level,
        visibility: n.visibility,
        title: n.title@,
        meta: meta_model(n.meta@),
        body: blocks_model(n.body@),
        children: nodes_model(n.children@),
        heading_span: n.heading_span,
        node_span: n.node_span,
    }
}

pub open spec fn nodes_model(s: Seq<Node>) -> Seq<NodeModel>
    decreases s, 0nat,
{
    Seq::new(
        s.len(),
        |i: int|
            if 0 <= i < s.len() {
                node_model(&s[i])
            } else {
                arbitrary()
            },
    )
}

impl Inline {
    pub open spec fn view(&self) -> InlineModel {
        inline_model(self)
    }
}

impl Block {
    pub open spec fn view(&self) -> BlockModel {
        block_model(self)
    }
}

impl Node {
    pub open spec fn view(&self) -> NodeModel {
        node_model(self)
    }
}


pub proof fn lemma_nodes_model_push(s: Seq<Node>, x: Node)
    ensures
        nodes_model(s.push(x)) == nodes_model(s).push(node_model(&x)),
{
    assert(nodes_model(s.push(x)) =~= nodes_model(s).push(node_model(&x)));
}

pub proof fn lemma_nodes_model_drop_last(s: Seq<Node>)
    requires
        s.len() > 0,
    ensures
        nodes_model(s.drop_last()) == nodes_model(s).drop_last(),
        nodes_model(s).last() == node_model(&s.last()),
{
    assert(nodes_model(s.drop_last()) =~= nodes_model(s).drop_last());
}

pub proof fn lemma_blocks_model_push(s: Seq<Block>, x: Block)
    ensures
        blocks_model(s.push(x)) == blocks_model(s).push(block_model(&x)),
{
    assert(blocks_model(s.push(x)) =~= blocks_model(s).push(block_model(&x)));
}

pub proof fn lemma_meta_model_push(s: Seq<(String, String)>, x: (String, String))
    ensures
        meta_model(s.push(x)) == meta_model(s).push((x.0@, x.1@)),
{
    assert(meta_model(s.push(x)) =~= meta_model(s).push((x.0@, x.1@)));
}

impl Clone for Inline {
    fn clone(&self) -> (r: Self)
        ensures
            r@ == self@,
        decreases self,
    {
        match self {
            Inline::Text(s) => Inline::Text(s.clone()),
            Inline::Bold(cs) => Inline::Bold(clone_inlines(cs)),
            Inline::Italic(cs) => Inline::Italic(clone_inlines(cs)),
            Inline::Insert(cs) => Inline::Insert(clone_inlines(cs)),
            Inline::Delete(cs) => Inline::Delete(clone_inlines(cs)),
            Inline::Sub { old, new } => Inline::Sub {
                old: clone_inlines(old),
                new: clone_inlines(new),
            },
            Inline::Comment(s) => Inline::Comment(s.clone()),
            Inline::Link(s) => Inline::Link(s.clone()),
        }
    }
}

/// A copy of an inline sequence.
pub fn clone_inlines(v: &Vec<Inline>) -> (r: Vec<Inline>)
    ensures
        inlines_model(r@) == inlines_model(v@),
    decreases v,
{
    let mut r: Vec<Inline> = Vec::new();
    let mut i: usize = 0;
    while i < v.len()
        invariant
            i <= v@.len(),
            r@.len() == i,
            forall|j: int| 0 <= j < i ==> inline_model(&r@[j]) == inline_model(&v@[j]),
        decreases v@.len() - i,
    {
        assert(decreases_to!(v => v@));
        assert(decreases_to!(v@ => v@[i as int]));
        r.push(v[i].clone());
        i += 1;
    }
    assert(inlines_model(r@) =~= inlines_model(v@));
    r
}

impl Clone for Block {
    fn clone(&self) -> (r: Self)
        ensures
            r@ == self@,
    {
        match self {
            Block::Para(spans) => Block::Para(clone_inlines(spans)),
            Block::LineComment(c) => Block::LineComment(c.clone()),
        }
    }
}

impl Clone for Node {
    fn clone(&self) -> (r: Self)
        ensures
            r@ == self@,
        decreases self,
    {
        let mut meta: Vec<(String, String)> = Vec::new();
        let mut k: usize = 0;
        while k < self.meta.len()
            invariant
                k <= self.meta@.len(),
                meta_model(meta@) == meta_model(self.meta@).take(k as int),
            decreases self.meta@.len() - k,
        {
            let ghost m0 = meta@;
            let p = (self.meta[k].0.clone(), self.meta[k].1.clone());
            proof {
                lemma_meta_model_push(m0, p);
            }
            meta.push(p);
            assert(meta_model(self.meta@).take(k + 1) =~= meta_model(self.meta@).take(k as int).push(
                (self.meta@[k as int].0@, self.meta@[k as int].1@),
            ));
            k += 1;
        }
        assert(meta_model(self.meta@).take(self.meta@.len() as int) =~= meta_model(self.meta@));
        let mut body: Vec<Block> = Vec::new();
        let mut b: usize = 0;
        while b < self.body.len()
            invariant
                b <= self.body@.len(),
                blocks_model(body@) == blocks_model(self.body@).take(b as int),
            decreases self.body@.len() - b,
        {
            let ghost b0 = body@;
            let x = self.body[b].clone();
            proof {
                lemma_blocks_model_push(b0, x);
            }
            body.push(x);
            assert(blocks_model(self.body@).take(b + 1) =~= blocks_model(self.body@).take(b as int).push(
                block_model(&self.body@[b as int]),
            ));
            b += 1;
        }
        assert(blocks_model(self.body@).take(self.body@.len() as int) =~= blocks_model(self.body@));
        let children = clone_nodes(&self.children);
        Node {
            level: self.level,
            visibility: self.visibility,
            title: self.title.clone(),
            meta,
            body,
            children,
            heading_span: self.heading_span,
            node_span: self.node_span,
        }
    }
}

/// A copy of a list of nodes.
pub fn clone_nodes(v: &Vec<Node>) -> (r: Vec<Node>)
    ensures
        nodes_model(r@) == nodes_model(v@),
    decreases v,
{
    let mut r: Vec<Node> = Vec::new();
    let mut i: usize = 0;
    while i < v.len()
        invariant
            i <= v@.len(),
            r@.len() == i,
            forall|j: int| 0 <= j < i ==> node_model(&r@[j]) == node_model(&v@[j]),
        decreases v@.len() - i,
    {
        assert(decreases_to!(v => v@));
        assert(decreases_to!(v@ => v@[i as int]));
        r.push(v[i].clone());
        i += 1;
    }
    assert(nodes_model(r@) =~= nodes_model(v@));
    r
}

/// The model of a list of lines held as char vectors.
pub open spec fn lines_model(v: Seq<Vec<char>>) -> Seq<Seq<char>> {
    v.map_values(|l: Vec<char>| l@)
}

} // verus!
