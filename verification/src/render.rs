//! Read-only views over the [`Node`] tree: manuscript (Markdown), outline,
//! edit (re-serialized source), codex index, and the manuscript in HTML.
//!
//! Each view is stated as a spec function over [`NodeModel`]; the executable
//! renderers append exactly that text to their output.

use vstd::prelude::*;
use vstd::view::View as _;
use crate::{
    Block, BlockModel, Inline, InlineModel, Node, NodeModel, Visibility, block_model, blocks_model,
    inline_model, inlines_model, meta_model, node_model, nodes_model,
};
use crate::interp::{Ctx, CtxModel, lookup, pairs_model, substitute, substitute_exec};
use crate::text::{
    breaks, chars_to_string, count_words, escape, is_ws, join_with, lowercase, push_all,
    push_escaped, push_joined, push_repeat, push_str, repeat, spec_to_lowercase, split_char,
    split_on, str_chars, trim, trim_newlines_end, trimmed,
};

verus! {

/// Which projection of the document to render.
#[derive(Debug, Clone, Copy, PartialEq, Eq, Structural)]
pub enum View {
    /// Print view: visible headings + resolved criticmarkup, no scenes/meta/comments.
    Manuscript,
    /// Every heading (visible + invisible), indented, with metadata keys.
    Outline,
    /// Everything, re-serialized: sigils, meta, raw markup, comments.
    Edit,
    /// The excluded (`%`) subtrees as a grouped entity index.
    Codex,
}

/// The view a name selects: `manuscript`, `outline`, `edit` or `codex`.
pub open spec fn view_named_model(name: Seq<char>) -> Option<View> {
    if name == "manuscript"@ {
        Some(View::Manuscript)
    } else if name == "outline"@ {
        Some(View::Outline)
    } else if name == "edit"@ {
        Some(View::Edit)
    } else if name == "codex"@ {
        Some(View::Codex)
    } else {
        None
    }
}

impl View {
    /// The view a name selects (`manuscript`, `outline`, `edit`, `codex`), if any.
    pub fn named(name: &str) -> (r: Option<View>)
        ensures
            r == view_named_model(name@),
    {
        let n = str_chars(name);
        let m = str_chars("manuscript");
        let o = str_chars("outline");
        let e = str_chars("edit");
        let c = str_chars("codex");
        if crate::interp::eq_chars(n.as_slice(), m.as_slice()) {
            Some(View::Manuscript)
        } else if crate::interp::eq_chars(n.as_slice(), o.as_slice()) {
            Some(View::Outline)
        } else if crate::interp::eq_chars(n.as_slice(), e.as_slice()) {
            Some(View::Edit)
        } else if crate::interp::eq_chars(n.as_slice(), c.as_slice()) {
            Some(View::Codex)
        } else {
            None
        }
    }
}

// ---- contexts ---------------------------------------------------------------

/// How many of `cs[0..i]` are not excluded.
pub open spec fn count_visible(cs: Seq<NodeModel>, i: int) -> int
    decreases i,
{
    if i <= 0 {
        0
    } else {
        count_visible(cs, i - 1) + if cs[i - 1].visibility != Visibility::Excluded {
            1int
        } else {
            0int
        }
    }
}

/// The context of child `i` of `n`: numbering over the non-excluded siblings
/// (an excluded child gets 0), and the parent cascade extended with the
/// child's own metadata.
pub open spec fn child_ctx(n: NodeModel, ctx: CtxModel, i: int) -> CtxModel {
    let cs = n.children;
    CtxModel {
        number: if cs[i].visibility != Visibility::Excluded {
            count_visible(cs, i + 1) as i64
        } else {
            0
        },
        total: count_visible(cs, cs.len() as int) as i64,
        vars: ctx.vars + cs[i].meta,
    }
}

/// The root's context: front matter as variables, no position.
pub open spec fn base_ctx(root: NodeModel) -> CtxModel {
    CtxModel { number: 0, total: 0, vars: root.meta }
}

// ---- resolved titles ----------------------------------------------------------

/// Every heading below `n` (and `n` itself), in document order, with its title
/// resolved in its context.
pub open spec fn titles_of(n: NodeModel, ctx: CtxModel) -> Seq<(usize, Seq<char>)>
    decreases n, 1nat, 0int,
{
    seq![(n.heading_span.start, substitute(n.title, ctx))] + titles_kids(n, ctx, n.children.len() as int)
}

pub open spec fn titles_kids(n: NodeModel, ctx: CtxModel, i: int) -> Seq<(usize, Seq<char>)>
    decreases n, 0nat, i,
{
    if i <= 0 || i > n.children.len() {
        seq![]
    } else {
        titles_kids(n, ctx, i - 1) + titles_of(n.children[i - 1], child_ctx(n, ctx, i - 1))
    }
}

/// Resolved titles of every heading of the document, in document order.
pub open spec fn titles_list(root: NodeModel) -> Seq<(usize, Seq<char>)> {
    titles_kids(root, base_ctx(root), root.children.len() as int)
}

/// A map built by inserting the pairs in order (a later key wins).
pub open spec fn to_map(l: Seq<(usize, Seq<char>)>) -> Map<usize, Seq<char>>
    decreases l.len(),
{
    if l.len() == 0 {
        Map::empty()
    } else {
        to_map(l.drop_last()).insert(l.last().0, l.last().1)
    }
}

// ---- the link index -----------------------------------------------------------

/// `fold_name`: trimmed, lowercased.
pub open spec fn fold(s: Seq<char>) -> Seq<char> {
    spec_to_lowercase(trim(s))
}

/// Every excluded (`%`) heading with a title below `n`, in document order.
pub open spec fn entities_of(n: NodeModel) -> Seq<NodeModel>
    decreases n, 1nat, 0int,
{
    entities_kids(n, n.children.len() as int)
}

pub open spec fn entities_kids(n: NodeModel, i: int) -> Seq<NodeModel>
    decreases n, 0nat, i,
{
    if i <= 0 || i > n.children.len() {
        seq![]
    } else {
        let c = n.children[i - 1];
        entities_kids(n, i - 1) + if c.visibility == Visibility::Excluded && c.title.len() > 0 {
            seq![c]
        } else {
            seq![]
        } + entities_of(c)
    }
}

/// The value of a node's first `id:` pair, if any.
pub open spec fn id_from(meta: Seq<(Seq<char>, Seq<char>)>, i: int) -> Option<Seq<char>>
    decreases meta.len() - i,
{
    if i < 0 || i >= meta.len() {
        None
    } else if meta[i].0 == crate::meta::id_key() {
        Some(meta[i].1)
    } else {
        id_from(meta, i + 1)
    }
}

pub open spec fn id_of(n: NodeModel) -> Option<Seq<char>> {
    id_from(n.meta, 0)
}

/// One entity in the link index: its folded id (if any), its folded title,
/// and its resolved title.
pub struct LinkEntryModel {
    pub id: Option<Seq<char>>,
    pub key: Seq<char>,
    pub title: Seq<char>,
}

/// An entity's resolved title (falling back to its raw title).
pub open spec fn title_in(titles: Seq<(usize, Seq<char>)>, e: NodeModel) -> Seq<char> {
    match lookup_title(titles, e.heading_span.start) {
        Some(t) => t,
        None => e.title,
    }
}

/// The title of the last pair with key `k`.
pub open spec fn lookup_title(l: Seq<(usize, Seq<char>)>, k: usize) -> Option<Seq<char>>
    decreases l.len(),
{
    if l.len() == 0 {
        None
    } else if l.last().0 == k {
        Some(l.last().1)
    } else {
        lookup_title(l.drop_last(), k)
    }
}

pub open spec fn link_entry(titles: Seq<(usize, Seq<char>)>, e: NodeModel) -> LinkEntryModel {
    LinkEntryModel {
        id: match id_of(e) {
            Some(v) => Some(fold(v)),
            None => None,
        },
        key: fold(e.title),
        title: title_in(titles, e),
    }
}

/// The `[[link]]` resolution index of a document: one entry per entity.
pub open spec fn link_index(root: NodeModel) -> Seq<LinkEntryModel> {
    entities_of(root).map_values(|e: NodeModel| link_entry(titles_list(root), e))
}

/// The first entry at or after `i` whose id is `key`.
pub open spec fn first_id(l: Seq<LinkEntryModel>, key: Seq<char>, i: int) -> Option<int>
    decreases l.len() - i,
{
    if i < 0 || i >= l.len() {
        None
    } else if l[i].id == Some(key) {
        Some(i)
    } else {
        first_id(l, key, i + 1)
    }
}

/// The first entry at or after `i` whose folded title is `key`.
pub open spec fn first_key(l: Seq<LinkEntryModel>, key: Seq<char>, i: int) -> Option<int>
    decreases l.len() - i,
{
    if i < 0 || i >= l.len() {
        None
    } else if l[i].key == key {
        Some(i)
    } else {
        first_key(l, key, i + 1)
    }
}

/// The resolved title a folded name links to: an `id:` wins over a title, and
/// the first declaration wins among equals.
pub open spec fn link_lookup(l: Seq<LinkEntryModel>, key: Seq<char>) -> Option<Seq<char>> {
    match first_id(l, key, 0) {
        Some(i) => Some(l[i].title),
        None => match first_key(l, key, 0) {
            Some(i) => Some(l[i].title),
            None => None,
        },
    }
}

/// The display text for a `[[target]]`: the resolved title of whatever it
/// resolves to, or the target verbatim if nothing matches.
pub open spec fn link_text(target: Seq<char>, l: Seq<LinkEntryModel>) -> Seq<char> {
    match link_lookup(l, fold(target)) {
        Some(t) => t,
        None => target,
    }
}

// ---- inline printing ---------------------------------------------------------

/// Inline sequence -> print output: visible markup kept, criticmarkup resolved.
pub open spec fn print_inlines(spans: Seq<InlineModel>, ctx: CtxModel, l: Seq<LinkEntryModel>) -> Seq<char>
    decreases spans,
{
    if spans.len() == 0 {
        seq![]
    } else {
        print_inlines(spans.drop_last(), ctx, l) + inline_print(spans.last(), ctx, l)
    }
}

pub open spec fn inline_print(x: InlineModel, ctx: CtxModel, l: Seq<LinkEntryModel>) -> Seq<char>
    decreases x,
{
    match x {
        InlineModel::Text(s) => substitute(s, ctx),
        InlineModel::Bold(cs) => seq!['*', '*'] + print_inlines(cs, ctx, l) + seq!['*', '*'],
        InlineModel::Italic(cs) => seq!['*'] + print_inlines(cs, ctx, l) + seq!['*'],
        InlineModel::Insert(cs) => print_inlines(cs, ctx, l),
        InlineModel::Sub { old, new } => print_inlines(new, ctx, l),
        InlineModel::Link(s) => link_text(s, l),
        InlineModel::Delete(_) => seq![],
        InlineModel::Comment(_) => seq![],
    }
}

/// Inline sequence -> source form (round-trip within a paragraph).
pub open spec fn source_inlines(spans: Seq<InlineModel>) -> Seq<char>
    decreases spans,
{
    if spans.len() == 0 {
        seq![]
    } else {
        source_inlines(spans.drop_last()) + inline_source(spans.last())
    }
}

pub open spec fn inline_source(x: InlineModel) -> Seq<char>
    decreases x,
{
    match x {
        InlineModel::Text(s) => s,
        InlineModel::Bold(cs) => seq!['*', '*'] + source_inlines(cs) + seq!['*', '*'],
        InlineModel::Italic(cs) => seq!['*'] + source_inlines(cs) + seq!['*'],
        InlineModel::Insert(cs) => seq!['{', '+'] + source_inlines(cs) + seq!['}'],
        InlineModel::Delete(cs) => seq!['{', '-'] + source_inlines(cs) + seq!['}'],
        InlineModel::Sub { old, new } => seq!['{', '~'] + source_inlines(old) + seq!['~']
            + source_inlines(new) + seq!['}'],
        InlineModel::Comment(s) => seq!['{', '/'] + s + seq!['}'],
        InlineModel::Link(s) => seq!['[', '['] + s + seq![']', ']'],
    }
}

/// Inline sequence -> HTML: `<strong>`/`<em>`, text escaped with `<br>` for
/// newlines, criticmarkup resolved, links as their resolved title.
pub open spec fn html_inlines(spans: Seq<InlineModel>, ctx: CtxModel, l: Seq<LinkEntryModel>) -> Seq<char>
    decreases spans,
{
    if spans.len() == 0 {
        seq![]
    } else {
        html_inlines(spans.drop_last(), ctx, l) + inline_html(spans.last(), ctx, l)
    }
}

pub open spec fn wikilink_open() -> Seq<char> {
    seq!['<', 'a', ' ', 'c', 'l', 'a', 's', 's', '=', '"', 'w', 'i', 'k', 'i', 'l', 'i', 'n', 'k', '"', '>']
}

pub open spec fn inline_html(x: InlineModel, ctx: CtxModel, l: Seq<LinkEntryModel>) -> Seq<char>
    decreases x,
{
    match x {
        InlineModel::Text(s) => breaks(escape(substitute(s, ctx))),
        InlineModel::Bold(cs) => seq!['<', 's', 't', 'r', 'o', 'n', 'g', '>'] + html_inlines(cs, ctx, l)
            + seq!['<', '/', 's', 't', 'r', 'o', 'n', 'g', '>'],
        InlineModel::Italic(cs) => seq!['<', 'e', 'm', '>'] + html_inlines(cs, ctx, l) + seq![
            '<',
            '/',
            'e',
            'm',
            '>',
        ],
        InlineModel::Insert(cs) => html_inlines(cs, ctx, l),
        InlineModel::Sub { old, new } => html_inlines(new, ctx, l),
        InlineModel::Link(s) => wikilink_open() + escape(link_text(s, l)) + seq![
            '<',
            '/',
            'a',
            '>',
        ],
        InlineModel::Delete(_) => seq![],
        InlineModel::Comment(_) => seq![],
    }
}


// ---- the manuscript --------------------------------------------------------------

/// The source heading char for a visibility.
pub open spec fn sigil(v: Visibility) -> char {
    match v {
        Visibility::Visible => '#',
        Visibility::Scene => '~',
        Visibility::Excluded => '%',
    }
}

pub open spec fn min6(level: u8) -> nat {
    if level > 6 {
        6
    } else {
        level as nat
    }
}

/// A printed paragraph: its print text, trimmed, and a blank line; nothing if
/// it prints blank.
pub open spec fn manuscript_blocks(body: Seq<BlockModel>, ctx: CtxModel, l: Seq<LinkEntryModel>) -> Seq<char>
    decreases body.len(),
{
    if body.len() == 0 {
        seq![]
    } else {
        manuscript_blocks(body.drop_last(), ctx, l) + match body.last() {
            BlockModel::Para(spans) => {
                let line = trim(print_inlines(spans, ctx, l));
                if line.len() > 0 {
                    line + seq!['\n', '\n']
                } else {
                    seq![]
                }
            },
            BlockModel::LineComment(_) => seq![],
        }
    }
}

/// Print view of a subtree: visible headings as Markdown ATX headings (depth =
/// marker count, capped at 6), prose paragraphs; excluded subtrees, scene
/// headings, metadata and comments never print.
pub open spec fn manuscript(n: NodeModel, ctx: CtxModel, l: Seq<LinkEntryModel>) -> Seq<char>
    decreases n, 1nat, 0int,
{
    if n.visibility == Visibility::Excluded {
        seq![]
    } else {
        (if n.level > 0 && n.visibility == Visibility::Visible && n.title.len() > 0 {
            repeat(seq!['#'], min6(n.level)) + seq![' '] + substitute(n.title, ctx) + seq![
                '\n',
                '\n',
            ]
        } else {
            seq![]
        }) + manuscript_blocks(n.body, ctx, l) + manuscript_kids(n, ctx, l, n.children.len() as int)
    }
}

pub open spec fn manuscript_kids(n: NodeModel, ctx: CtxModel, l: Seq<LinkEntryModel>, i: int) -> Seq<char>
    decreases n, 0nat, i,
{
    if i <= 0 || i > n.children.len() {
        seq![]
    } else {
        manuscript_kids(n, ctx, l, i - 1) + manuscript(n.children[i - 1], child_ctx(n, ctx, i - 1), l)
    }
}

// ---- word count -------------------------------------------------------------------

pub open spec fn words_blocks(body: Seq<BlockModel>, ctx: CtxModel, l: Seq<LinkEntryModel>) -> nat
    decreases body.len(),
{
    if body.len() == 0 {
        0
    } else {
        words_blocks(body.drop_last(), ctx, l) + match body.last() {
            BlockModel::Para(spans) => count_words(print_inlines(spans, ctx, l)),
            BlockModel::LineComment(_) => 0nat,
        }
    }
}

/// Manuscript word count of a subtree: prose words that would print.
pub open spec fn words(n: NodeModel, ctx: CtxModel, l: Seq<LinkEntryModel>) -> nat
    decreases n, 1nat, 0int,
{
    if n.visibility == Visibility::Excluded {
        0
    } else {
        words_blocks(n.body, ctx, l) + words_kids(n, ctx, l, n.children.len() as int)
    }
}

pub open spec fn words_kids(n: NodeModel, ctx: CtxModel, l: Seq<LinkEntryModel>, i: int) -> nat
    decreases n, 0nat, i,
{
    if i <= 0 || i > n.children.len() {
        0
    } else {
        words_kids(n, ctx, l, i - 1) + words(n.children[i - 1], child_ctx(n, ctx, i - 1), l)
    }
}

// ---- the HTML manuscript ----------------------------------------------------------

pub open spec fn html_blocks(body: Seq<BlockModel>, ctx: CtxModel, l: Seq<LinkEntryModel>) -> Seq<char>
    decreases body.len(),
{
    if body.len() == 0 {
        seq![]
    } else {
        html_blocks(body.drop_last(), ctx, l) + match body.last() {
            BlockModel::Para(spans) => {
                let h = html_inlines(spans, ctx, l);
                if trim(h).len() > 0 {
                    seq!['<', 'p', '>'] + h + seq!['<', '/', 'p', '>', '\n']
                } else {
                    seq![]
                }
            },
            BlockModel::LineComment(_) => seq![],
        }
    }
}

/// `<hN>` for a heading level (a digit).
pub open spec fn h_open(lvl: nat) -> Seq<char> {
    seq!['<', 'h', crate::interp::digit_char(lvl as int), '>']
}

pub open spec fn h_close(lvl: nat) -> Seq<char> {
    seq!['<', '/', 'h', crate::interp::digit_char(lvl as int), '>']
}

/// HTML manuscript of a subtree: visible headings as `<h1>`-`<h6>`, paragraphs
/// as `<p>`, text escaped.
pub open spec fn manuscript_html(n: NodeModel, ctx: CtxModel, l: Seq<LinkEntryModel>) -> Seq<char>
    decreases n, 1nat, 0int,
{
    if n.visibility == Visibility::Excluded {
        seq![]
    } else {
        (if n.level > 0 && n.visibility == Visibility::Visible && n.title.len() > 0 {
            h_open(min6(n.level)) + escape(substitute(n.title, ctx)) + h_close(min6(n.level))
                + seq!['\n']
        } else {
            seq![]
        }) + html_blocks(n.body, ctx, l) + manuscript_html_kids(n, ctx, l, n.children.len() as int)
    }
}

pub open spec fn manuscript_html_kids(n: NodeModel, ctx: CtxModel, l: Seq<LinkEntryModel>, i: int) -> Seq<char>
    decreases n, 0nat, i,
{
    if i <= 0 || i > n.children.len() {
        seq![]
    } else {
        manuscript_html_kids(n, ctx, l, i - 1) + manuscript_html(
            n.children[i - 1],
            child_ctx(n, ctx, i - 1),
            l,
        )
    }
}

// ---- outline --------------------------------------------------------------------

pub open spec fn untitled() -> Seq<char> {
    seq!['(', 'u', 'n', 't', 'i', 't', 'l', 'e', 'd', ')']
}

/// A heading's display title: resolved, or `(untitled)`.
pub open spec fn display_title(title: Seq<char>, ctx: CtxModel) -> Seq<char> {
    if title.len() == 0 {
        untitled()
    } else {
        substitute(title, ctx)
    }
}

pub open spec fn meta_keys(meta: Seq<(Seq<char>, Seq<char>)>) -> Seq<Seq<char>> {
    meta.map_values(|p: (Seq<char>, Seq<char>)| p.0)
}

/// Outline of a subtree: every heading, indented two spaces per level below
/// the first, with its marker, title and metadata keys.
pub open spec fn outline(n: NodeModel, ctx: CtxModel) -> Seq<char>
    decreases n, 1nat, 0int,
{
    outline_head(n, ctx) + outline_kids(n, ctx, n.children.len() as int)
}

/// A heading's outline line: indent, marker, title, `[keys]`.
pub open spec fn outline_head(n: NodeModel, ctx: CtxModel) -> Seq<char> {
    if n.level > 0 {
        repeat(seq![' ', ' '], (n.level - 1) as nat) + repeat(seq![sigil(n.visibility)], n.level as nat)
            + seq![' '] + display_title(n.title, ctx) + (if n.meta.len() > 0 {
            seq![' ', ' ', '['] + join_with(meta_keys(n.meta), seq![',', ' ']) + seq![']']
        } else {
            seq![]
        }) + seq!['\n']
    } else {
        seq![]
    }
}

pub open spec fn outline_kids(n: NodeModel, ctx: CtxModel, i: int) -> Seq<char>
    decreases n, 0nat, i,
{
    if i <= 0 || i > n.children.len() {
        seq![]
    } else {
        outline_kids(n, ctx, i - 1) + outline(n.children[i - 1], child_ctx(n, ctx, i - 1))
    }
}

// ---- edit -------------------------------------------------------------------------

/// `  part\n` for each part.
pub open spec fn indented_parts(parts: Seq<Seq<char>>) -> Seq<char>
    decreases parts.len(),
{
    if parts.len() == 0 {
        seq![]
    } else {
        indented_parts(parts.drop_last()) + seq![' ', ' '] + parts.last() + seq!['\n']
    }
}

/// One metadata pair re-serialized: `key: value`, or for a multiline value
/// `key:` and its lines indented.
pub open spec fn edit_pair(k: Seq<char>, v: Seq<char>) -> Seq<char> {
    if v.contains('\n') {
        k + seq![':', '\n'] + indented_parts(split_char(v, '\n'))
    } else {
        k + seq![':', ' '] + v + seq!['\n']
    }
}

pub open spec fn edit_meta(meta: Seq<(Seq<char>, Seq<char>)>) -> Seq<char>
    decreases meta.len(),
{
    if meta.len() == 0 {
        seq![]
    } else {
        edit_meta(meta.drop_last()) + edit_pair(meta.last().0, meta.last().1)
    }
}

pub open spec fn edit_blocks(body: Seq<BlockModel>) -> Seq<char>
    decreases body.len(),
{
    if body.len() == 0 {
        seq![]
    } else {
        edit_blocks(body.drop_last()) + match body.last() {
            BlockModel::Para(spans) => source_inlines(spans) + seq!['\n', '\n'],
            BlockModel::LineComment(c) => seq!['/', ' '] + c + seq!['\n'],
        }
    }
}

/// Edit view of a subtree: the heading with its marker, metadata (front
/// matter too), raw markup and comments, re-serialized.
pub open spec fn edit(n: NodeModel) -> Seq<char>
    decreases n, 1nat, 0int,
{
    (if n.level > 0 {
        repeat(seq![sigil(n.visibility)], n.level as nat) + seq![' '] + n.title + seq!['\n']
    } else {
        seq![]
    }) + edit_meta(n.meta) + (if n.meta.len() > 0 {
        seq!['\n']
    } else {
        seq![]
    }) + edit_blocks(n.body) + edit_kids(n, n.children.len() as int)
}

pub open spec fn edit_kids(n: NodeModel, i: int) -> Seq<char>
    decreases n, 0nat, i,
{
    if i <= 0 || i > n.children.len() {
        seq![]
    } else {
        edit_kids(n, i - 1) + edit(n.children[i - 1])
    }
}

// ---- codex (plain text) -----------------------------------------------------------

/// Extend a scope with a visible ancestor's resolved title, dropping empties.
pub open spec fn pushed_scope(scope: Seq<Seq<char>>, title: Seq<char>, ctx: CtxModel) -> Seq<Seq<char>> {
    let t = substitute(title, ctx);
    if t.len() > 0 {
        scope.push(t)
    } else {
        scope
    }
}

/// One codex entry: its title, its metadata, then its children one level in.
pub open spec fn codex_entry(n: NodeModel, depth: nat, ctx: CtxModel) -> Seq<char>
    decreases n, 1nat, 0int,
{
    repeat(seq![' ', ' '], depth) + display_title(n.title, ctx) + seq!['\n'] + codex_entry_meta(
        n.meta,
        depth,
    ) + codex_entry_kids(n, depth, ctx, n.children.len() as int)
}

pub open spec fn codex_entry_meta(meta: Seq<(Seq<char>, Seq<char>)>, depth: nat) -> Seq<char>
    decreases meta.len(),
{
    if meta.len() == 0 {
        seq![]
    } else {
        codex_entry_meta(meta.drop_last(), depth) + repeat(seq![' ', ' '], depth) + seq![' ', ' ']
            + meta.last().0 + seq![':', ' '] + meta.last().1 + seq!['\n']
    }
}

pub open spec fn codex_entry_kids(n: NodeModel, depth: nat, ctx: CtxModel, i: int) -> Seq<char>
    decreases n, 0nat, i,
{
    if i <= 0 || i > n.children.len() {
        seq![]
    } else {
        codex_entry_kids(n, depth, ctx, i - 1) + codex_entry(
            n.children[i - 1],
            depth + 1,
            child_ctx(n, ctx, i - 1),
        )
    }
}

pub open spec fn scope_sep() -> Seq<char> {
    seq![' ', '/', ' ']
}

/// Codex view: each excluded subtree as an entity index entry, under the
/// resolved titles of its visible ancestors (`[A / B]`) when it has any.
pub open spec fn codex(n: NodeModel, ctx: CtxModel, scope: Seq<Seq<char>>) -> Seq<char>
    decreases n, 1nat, 0int,
{
    codex_kids(n, ctx, scope, n.children.len() as int)
}

pub open spec fn codex_kids(n: NodeModel, ctx: CtxModel, scope: Seq<Seq<char>>, i: int) -> Seq<char>
    decreases n, 0nat, i,
{
    if i <= 0 || i > n.children.len() {
        seq![]
    } else {
        let c = n.children[i - 1];
        let cctx = child_ctx(n, ctx, i - 1);
        codex_kids(n, ctx, scope, i - 1) + if c.visibility == Visibility::Excluded {
            (if scope.len() > 0 {
                seq!['['] + join_with(scope, scope_sep()) + seq![']', '\n']
            } else {
                seq![]
            }) + codex_entry(c, 0, cctx) + seq!['\n']
        } else {
            codex(c, cctx, pushed_scope(scope, c.title, cctx))
        }
    }
}


// ---- executable contexts -----------------------------------------------------------

/// Appends a node's metadata pairs, as characters, to a cascade.
pub(crate) fn extend_vars(vars: &mut Vec<(Vec<char>, Vec<char>)>, meta: &Vec<(String, String)>)
    ensures
        pairs_model(final(vars)@) == pairs_model(old(vars)@) + meta_model(meta@),
{
    let mut i: usize = 0;
    while i < meta.len()
        invariant
            i <= meta@.len(),
            pairs_model(vars@) == pairs_model(old(vars)@) + meta_model(meta@).take(i as int),
        decreases meta@.len() - i,
    {
        let k = str_chars(meta[i].0.as_str());
        let v = str_chars(meta[i].1.as_str());
        let ghost v0 = vars@;
        vars.push((k, v));
        assert(pairs_model(vars@) =~= pairs_model(v0).push((k@, v@)));
        assert(meta_model(meta@).take(i + 1) =~= meta_model(meta@).take(i as int).push(
            (meta@[i as int].0@, meta@[i as int].1@),
        ));
        i += 1;
    }
    assert(meta_model(meta@).take(meta@.len() as int) =~= meta_model(meta@));
}

pub(crate) fn clone_vars(vars: &Vec<(Vec<char>, Vec<char>)>) -> (r: Vec<(Vec<char>, Vec<char>)>)
    ensures
        pairs_model(r@) == pairs_model(vars@),
{
    let mut r: Vec<(Vec<char>, Vec<char>)> = Vec::new();
    let mut i: usize = 0;
    while i < vars.len()
        invariant
            i <= vars@.len(),
            pairs_model(r@) == pairs_model(vars@).take(i as int),
        decreases vars@.len() - i,
    {
        let ghost r0 = r@;
        let k = crate::text::slice_range(vars[i].0.as_slice(), 0, vars[i].0.len());
        let v = crate::text::slice_range(vars[i].1.as_slice(), 0, vars[i].1.len());
        assert(k@ =~= vars@[i as int].0@);
        assert(v@ =~= vars@[i as int].1@);
        r.push((k, v));
        assert(pairs_model(r@) =~= pairs_model(r0).push((k@, v@)));
        assert(pairs_model(vars@).take(i + 1) =~= pairs_model(vars@).take(i as int).push(
            pairs_model(vars@)[i as int],
        ));
        assert(pairs_model(r@) =~= pairs_model(vars@).take(i + 1));
        i += 1;
    }
    assert(pairs_model(vars@).take(vars@.len() as int) =~= pairs_model(vars@));
    r
}

/// The root's context: front matter as variables, no position.
pub fn base_ctx_exec(root: &Node) -> (c: Ctx)
    ensures
        c@ == base_ctx(root@),
{
    let mut vars: Vec<(Vec<char>, Vec<char>)> = Vec::new();
    extend_vars(&mut vars, &root.meta);
    assert(pairs_model(vars@) =~= meta_model(root.meta@));
    Ctx { number: 0, total: 0, vars }
}

/// One `Ctx` per child of `node`, in order.
pub fn child_ctxs(node: &Node, ctx: &Ctx) -> (r: Vec<Ctx>)
    ensures
        r@.len() == node.children@.len(),
        forall|i: int| 0 <= i < r@.len() ==> (#[trigger] r@[i])@ == child_ctx(node@, ctx@, i),
{
    let ghost cs = nodes_model(node.children@);
    assert(node@.children == cs);
    let n = node.children.len();
    let mut total: usize = 0;
    let mut i: usize = 0;
    while i < n
        invariant
            n == node.children@.len(),
            i <= n,
            cs == nodes_model(node.children@),
            total as int == count_visible(cs, i as int),
            total <= i,
        decreases n - i,
    {
        if node.children[i].visibility != Visibility::Excluded {
            total += 1;
        }
        i += 1;
    }
    let mut out: Vec<Ctx> = Vec::new();
    let mut number: usize = 0;
    let mut j: usize = 0;
    while j < n
        invariant
            n == node.children@.len(),
            j <= n,
            cs == nodes_model(node.children@),
            node@.children == cs,
            total as int == count_visible(cs, n as int),
            number as int == count_visible(cs, j as int),
            number <= j,
            out@.len() == j,
            forall|k: int| 0 <= k < j ==> (#[trigger] out@[k])@ == child_ctx(node@, ctx@, k),
        decreases n - j,
    {
        let child = &node.children[j];
        let num: i64 = if child.visibility != Visibility::Excluded {
            number += 1;
            number as i64
        } else {
            0
        };
        let mut vars = clone_vars(&ctx.vars);
        extend_vars(&mut vars, &child.meta);
        let c = Ctx { number: num, total: total as i64, vars };
        assert(c@ == child_ctx(node@, ctx@, j as int));
        out.push(c);
        j += 1;
    }
    out
}

// ---- executable link index ------------------------------------------------------------

/// `fold_name`: trimmed, lowercased.
pub fn fold_name(s: &[char]) -> (r: Vec<char>)
    ensures
        r@ == fold(s@),
{
    let t = trimmed(s);
    lowercase(t.as_slice())
}

/// One entity in the link index.
pub struct LinkEntry {
    pub id: Option<Vec<char>>,
    pub key: Vec<char>,
    pub title: Vec<char>,
}

impl LinkEntry {
    pub open spec fn view(&self) -> LinkEntryModel {
        LinkEntryModel {
            id: match self.id {
                Some(v) => Some(v@),
                None => None,
            },
            key: self.key@,
            title: self.title@,
        }
    }
}

pub open spec fn entries_model(v: Seq<LinkEntry>) -> Seq<LinkEntryModel> {
    v.map_values(|e: LinkEntry| e@)
}

pub(crate) fn lookup_title_exec(l: &Vec<(usize, Vec<char>)>, k: usize) -> (r: Option<Vec<char>>)
    ensures
        match lookup_title(titles_model(l@), k) {
            None => r is None,
            Some(t) => r matches Some(x) && x@ == t,
        },
{
    let mut i = l.len();
    assert(titles_model(l@).take(i as int) =~= titles_model(l@));
    while i > 0
        invariant
            i <= l@.len(),
            lookup_title(titles_model(l@), k) == lookup_title(titles_model(l@).take(i as int), k),
        decreases i,
    {
        assert(titles_model(l@).take(i as int).drop_last() =~= titles_model(l@).take(i - 1));
        if l[i - 1].0 == k {
            let t = crate::text::slice_range(l[i - 1].1.as_slice(), 0, l[i - 1].1.len());
            assert(t@ =~= l@[i - 1].1@);
            return Some(t);
        }
        i -= 1;
    }
    None
}

/// The value of a node's first `id:` pair, if any.
pub(crate) fn id_of_exec(node: &Node) -> (r: Option<Vec<char>>)
    ensures
        match id_of(node@) {
            None => r is None,
            Some(v) => r matches Some(x) && x@ == v,
        },
{
    let mut i: usize = 0;
    while i < node.meta.len()
        invariant
            i <= node.meta@.len(),
            id_of(node@) == id_from(meta_model(node.meta@), i as int),
        decreases node.meta@.len() - i,
    {
        if crate::meta::is_self_naming(node.meta[i].0.as_str()) {
            return Some(str_chars(node.meta[i].1.as_str()));
        }
        i += 1;
    }
    None
}

pub(crate) fn link_entry_exec(node: &Node, titles: &Vec<(usize, Vec<char>)>) -> (r: LinkEntry)
    ensures
        r@ == link_entry(titles_model(titles@), node@),
{
    let id = match id_of_exec(node) {
        Some(v) => Some(fold_name(v.as_slice())),
        None => None,
    };
    let t = str_chars(node.title.as_str());
    let key = fold_name(t.as_slice());
    let title = match lookup_title_exec(titles, node.heading_span.start) {
        Some(x) => x,
        None => t,
    };
    LinkEntry { id, key, title }
}

/// Appends the link entries of every entity below `node`, in document order.
pub(crate) fn collect_links_walk(node: &Node, titles: &Vec<(usize, Vec<char>)>, out: &mut Vec<LinkEntry>)
    ensures
        entries_model(final(out)@) == entries_model(old(out)@) + entities_of(node@).map_values(
            |e: NodeModel| link_entry(titles_model(titles@), e),
        ),
    decreases node,
{
    let mut i: usize = 0;
    while i < node.children.len()
        invariant
            i <= node.children@.len(),
            entries_model(out@) == entries_model(old(out)@) + entities_kids(node@, i as int).map_values(
                |e: NodeModel| link_entry(titles_model(titles@), e),
            ),
        decreases node.children@.len() - i,
    {
        let child = &node.children[i];
        assert(node@.children[i as int] == child@);
        let ghost o0 = out@;
        if child.visibility == Visibility::Excluded && !child.title.as_str().is_empty() {
            let e = link_entry_exec(child, titles);
            out.push(e);
        }
        let ghost o1 = out@;
        assert(decreases_to!(node => node.children));
        assert(decreases_to!(node.children => node.children@));
        assert(decreases_to!(node.children@ => node.children@[i as int]));
        collect_links_walk(child, titles, out);
        proof {
            let f = |e: NodeModel| link_entry(titles_model(titles@), e);
            let a = entities_kids(node@, i as int);
            let c = child@;
            let b = if c.visibility == Visibility::Excluded && c.title.len() > 0 {
                seq![c]
            } else {
                seq![]
            };
            let cc = entities_of(c);
            assert(entities_kids(node@, i + 1) == a + b + cc);
            assert((a + b + cc).map_values(f) =~= a.map_values(f) + b.map_values(f) + cc.map_values(f));
            assert(entries_model(o1) =~= entries_model(o0) + b.map_values(f));
        }
        assert(entries_model(out@) =~= entries_model(old(out)@) + entities_kids(node@, i + 1).map_values(
            |e: NodeModel| link_entry(titles_model(titles@), e),
        ));
        i += 1;
    }
}

/// Build the `[[link]]` resolution index of a document.
pub fn link_titles(root: &Node) -> (r: Vec<LinkEntry>)
    ensures
        entries_model(r@) == link_index(root@),
{
    let mut titles: Vec<(usize, Vec<char>)> = Vec::new();
    let ctx = base_ctx_exec(root);
    resolve_titles_kids(root, &ctx, &mut titles);
    assert(titles_model(titles@) =~= titles_list(root@));
    let mut out: Vec<LinkEntry> = Vec::new();
    collect_links_walk(root, &titles, &mut out);
    assert(entries_model(out@) =~= link_index(root@));
    out
}

/// The display text for a `[[target]]`.
pub fn link_text_exec(target: &[char], l: &Vec<LinkEntry>) -> (r: Vec<char>)
    ensures
        r@ == link_text(target@, entries_model(l@)),
{
    let key = fold_name(target);
    let ghost lm = entries_model(l@);
    let mut i: usize = 0;
    while i < l.len()
        invariant
            i <= l@.len(),
            lm == entries_model(l@),
            key@ == fold(target@),
            first_id(lm, key@, 0) == first_id(lm, key@, i as int),
        decreases l@.len() - i,
    {
        match &l[i].id {
            Some(v) => {
                if crate::interp::eq_chars(v.as_slice(), key.as_slice()) {
                    let t = crate::text::slice_range(l[i].title.as_slice(), 0, l[i].title.len());
                    assert(t@ =~= lm[i as int].title);
                    assert(lm[i as int] == l@[i as int]@);
                    assert(lm[i as int].id == Some(key@));
                    assert(first_id(lm, key@, i as int) == Some(i as int));
                    return t;
                }
            },
            None => {},
        }
        i += 1;
    }
    let mut j: usize = 0;
    while j < l.len()
        invariant
            j <= l@.len(),
            lm == entries_model(l@),
            key@ == fold(target@),
            first_id(lm, key@, 0) is None,
            first_key(lm, key@, 0) == first_key(lm, key@, j as int),
        decreases l@.len() - j,
    {
        if crate::interp::eq_chars(l[j].key.as_slice(), key.as_slice()) {
            let t = crate::text::slice_range(l[j].title.as_slice(), 0, l[j].title.len());
            assert(t@ =~= lm[j as int].title);
            assert(lm[j as int] == l@[j as int]@);
            assert(lm[j as int].key == key@);
            assert(first_key(lm, key@, j as int) == Some(j as int));
            return t;
        }
        j += 1;
    }
    let t = crate::text::slice_range(target, 0, target.len());
    assert(t@ =~= target@);
    t
}

// ---- executable resolved titles ------------------------------------------------------

pub open spec fn titles_model(v: Seq<(usize, Vec<char>)>) -> Seq<(usize, Seq<char>)> {
    v.map_values(|p: (usize, Vec<char>)| (p.0, p.1@))
}

pub(crate) fn resolve_titles_walk(node: &Node, ctx: &Ctx, out: &mut Vec<(usize, Vec<char>)>)
    ensures
        titles_model(final(out)@) == titles_model(old(out)@) + titles_of(node@, ctx@),
    decreases node,
{
    let t = str_chars(node.title.as_str());
    let st = substitute_exec(t.as_slice(), ctx);
    let ghost o0 = out@;
    out.push((node.heading_span.start, st));
    assert(titles_model(out@) =~= titles_model(o0) + seq![(node@.heading_span.start, substitute(node@.title, ctx@))]);
    resolve_titles_kids(node, ctx, out);
    assert(titles_model(out@) =~= titles_model(old(out)@) + titles_of(node@, ctx@));
}

pub(crate) fn resolve_titles_kids(node: &Node, ctx: &Ctx, out: &mut Vec<(usize, Vec<char>)>)
    ensures
        titles_model(final(out)@) == titles_model(old(out)@) + titles_kids(node@, ctx@, node.children@.len() as int),
    decreases node, 0nat,
{
    let ctxs = child_ctxs(node, ctx);
    let mut i: usize = 0;
    while i < node.children.len()
        invariant
            i <= node.children@.len(),
            ctxs@.len() == node.children@.len(),
            forall|k: int| 0 <= k < ctxs@.len() ==> (#[trigger] ctxs@[k])@ == child_ctx(node@, ctx@, k),
            titles_model(out@) == titles_model(old(out)@) + titles_kids(node@, ctx@, i as int),
        decreases node.children@.len() - i,
    {
        let ghost o0 = out@;
        assert(decreases_to!(node => node.children));
        assert(decreases_to!(node.children => node.children@));
        assert(decreases_to!(node.children@ => node.children@[i as int]));
        resolve_titles_walk(&node.children[i], &ctxs[i], out);
        assert(node@.children[i as int] == node.children@[i as int]@);
        assert(titles_model(out@) =~= titles_model(old(out)@) + titles_kids(node@, ctx@, i + 1));
        i += 1;
    }
}


// ---- executable inline renderers ---------------------------------------------------------

pub(crate) fn push_lit(out: &mut Vec<char>, lit: &str)
    ensures
        final(out)@ == old(out)@ + lit@,
{
    push_str(out, lit);
}

pub(crate) fn print_inline_exec(x: &Inline, ctx: &Ctx, l: &Vec<LinkEntry>, out: &mut Vec<char>)
    ensures
        final(out)@ == old(out)@ + inline_print(x@, ctx@, entries_model(l@)),
    decreases x,
{
    match x {
        Inline::Text(s) => {
            let t = str_chars(s.as_str());
            let r = substitute_exec(t.as_slice(), ctx);
            push_all(out, r.as_slice());
        },
        Inline::Bold(cs) => {
            out.push('*');
            out.push('*');
            print_inlines_exec(cs, ctx, l, out);
            out.push('*');
            out.push('*');
            assert(out@ =~= old(out)@ + inline_print(x@, ctx@, entries_model(l@)));
        },
        Inline::Italic(cs) => {
            out.push('*');
            print_inlines_exec(cs, ctx, l, out);
            out.push('*');
            assert(out@ =~= old(out)@ + inline_print(x@, ctx@, entries_model(l@)));
        },
        Inline::Insert(cs) => {
            print_inlines_exec(cs, ctx, l, out);
        },
        Inline::Sub { old: _, new } => {
            print_inlines_exec(new, ctx, l, out);
        },
        Inline::Link(s) => {
            let t = str_chars(s.as_str());
            let r = link_text_exec(t.as_slice(), l);
            push_all(out, r.as_slice());
        },
        Inline::Delete(_) => {
            assert(out@ =~= old(out)@ + inline_print(x@, ctx@, entries_model(l@)));
        },
        Inline::Comment(_) => {
            assert(out@ =~= old(out)@ + inline_print(x@, ctx@, entries_model(l@)));
        },
    }
}

/// Inline sequence -> print output: visible markup kept, criticmarkup resolved.
pub(crate) fn print_inlines_exec(spans: &Vec<Inline>, ctx: &Ctx, l: &Vec<LinkEntry>, out: &mut Vec<char>)
    ensures
        final(out)@ == old(out)@ + print_inlines(inlines_model(spans@), ctx@, entries_model(l@)),
    decreases spans,
{
    let ghost m = inlines_model(spans@);
    let mut i: usize = 0;
    while i < spans.len()
        invariant
            i <= spans@.len(),
            m == inlines_model(spans@),
            out@ == old(out)@ + print_inlines(m.take(i as int), ctx@, entries_model(l@)),
        decreases spans@.len() - i,
    {
        assert(decreases_to!(spans => spans@));
        assert(decreases_to!(spans@ => spans@[i as int]));
        print_inline_exec(&spans[i], ctx, l, out);
        assert(m.take(i + 1).drop_last() =~= m.take(i as int));
        assert(m.take(i + 1).last() == spans@[i as int]@);
        assert(out@ =~= old(out)@ + print_inlines(m.take(i + 1), ctx@, entries_model(l@)));
        i += 1;
    }
    assert(m.take(spans@.len() as int) =~= m);
}

pub(crate) fn source_inline_exec(x: &Inline, out: &mut Vec<char>)
    ensures
        final(out)@ == old(out)@ + inline_source(x@),
    decreases x,
{
    match x {
        Inline::Text(s) => {
            push_str(out, s.as_str());
        },
        Inline::Bold(cs) => {
            push_lit(out, "**");
            source_inlines_exec(cs, out);
            push_lit(out, "**");
            proof { reveal_strlit("**"); }
            assert(out@ =~= old(out)@ + inline_source(x@));
        },
        Inline::Italic(cs) => {
            out.push('*');
            source_inlines_exec(cs, out);
            out.push('*');
            assert(out@ =~= old(out)@ + inline_source(x@));
        },
        Inline::Insert(cs) => {
            out.push('{');
            out.push('+');
            source_inlines_exec(cs, out);
            out.push('}');
            assert(out@ =~= old(out)@ + inline_source(x@));
        },
        Inline::Delete(cs) => {
            out.push('{');
            out.push('-');
            source_inlines_exec(cs, out);
            out.push('}');
            assert(out@ =~= old(out)@ + inline_source(x@));
        },
        Inline::Sub { old: o, new } => {
            out.push('{');
            out.push('~');
            source_inlines_exec(o, out);
            out.push('~');
            source_inlines_exec(new, out);
            out.push('}');
            assert(out@ =~= old(out)@ + inline_source(x@));
        },
        Inline::Comment(s) => {
            out.push('{');
            out.push('/');
            push_str(out, s.as_str());
            out.push('}');
            assert(out@ =~= old(out)@ + inline_source(x@));
        },
        Inline::Link(s) => {
            out.push('[');
            out.push('[');
            push_str(out, s.as_str());
            out.push(']');
            out.push(']');
            assert(out@ =~= old(out)@ + inline_source(x@));
        },
    }
}

/// Inline sequence -> source form (round-trip within a paragraph).
pub(crate) fn source_inlines_exec(spans: &Vec<Inline>, out: &mut Vec<char>)
    ensures
        final(out)@ == old(out)@ + source_inlines(inlines_model(spans@)),
    decreases spans,
{
    let ghost m = inlines_model(spans@);
    let mut i: usize = 0;
    while i < spans.len()
        invariant
            i <= spans@.len(),
            m == inlines_model(spans@),
            out@ == old(out)@ + source_inlines(m.take(i as int)),
        decreases spans@.len() - i,
    {
        assert(decreases_to!(spans => spans@));
        assert(decreases_to!(spans@ => spans@[i as int]));
        source_inline_exec(&spans[i], out);
        assert(m.take(i + 1).drop_last() =~= m.take(i as int));
        assert(m.take(i + 1).last() == spans@[i as int]@);
        assert(out@ =~= old(out)@ + source_inlines(m.take(i + 1)));
        i += 1;
    }
    assert(m.take(spans@.len() as int) =~= m);
}

pub(crate) fn html_inline_exec(x: &Inline, ctx: &Ctx, l: &Vec<LinkEntry>, out: &mut Vec<char>)
    ensures
        final(out)@ == old(out)@ + inline_html(x@, ctx@, entries_model(l@)),
    decreases x,
{
    match x {
        Inline::Text(s) => {
            let t = str_chars(s.as_str());
            let r = substitute_exec(t.as_slice(), ctx);
            let mut e: Vec<char> = Vec::new();
            push_escaped(&mut e, r.as_slice());
            assert(e@ =~= escape(r@));
            let b = crate::text::with_breaks(e.as_slice());
            push_all(out, b.as_slice());
        },
        Inline::Bold(cs) => {
            push_lit(out, "<strong>");
            html_inlines_exec(cs, ctx, l, out);
            push_lit(out, "</strong>");
            proof {
                reveal_strlit("<strong>");
                reveal_strlit("</strong>");
            }
            assert(out@ =~= old(out)@ + inline_html(x@, ctx@, entries_model(l@)));
        },
        Inline::Italic(cs) => {
            push_lit(out, "<em>");
            html_inlines_exec(cs, ctx, l, out);
            push_lit(out, "</em>");
            proof {
                reveal_strlit("<em>");
                reveal_strlit("</em>");
            }
            assert(out@ =~= old(out)@ + inline_html(x@, ctx@, entries_model(l@)));
        },
        Inline::Insert(cs) => {
            html_inlines_exec(cs, ctx, l, out);
        },
        Inline::Sub { old: _, new } => {
            html_inlines_exec(new, ctx, l, out);
        },
        Inline::Link(s) => {
            let t = str_chars(s.as_str());
            let r = link_text_exec(t.as_slice(), l);
            push_lit(out, "<a class=\"wikilink\">");
            push_escaped(out, r.as_slice());
            push_lit(out, "</a>");
            proof {
                reveal_strlit("<a class=\"wikilink\">");
                reveal_strlit("</a>");
            }
            assert(out@ =~= old(out)@ + inline_html(x@, ctx@, entries_model(l@)));
        },
        Inline::Delete(_) => {
            assert(out@ =~= old(out)@ + inline_html(x@, ctx@, entries_model(l@)));
        },
        Inline::Comment(_) => {
            assert(out@ =~= old(out)@ + inline_html(x@, ctx@, entries_model(l@)));
        },
    }
}

/// Inline sequence -> HTML.
pub(crate) fn html_inlines_exec(spans: &Vec<Inline>, ctx: &Ctx, l: &Vec<LinkEntry>, out: &mut Vec<char>)
    ensures
        final(out)@ == old(out)@ + html_inlines(inlines_model(spans@), ctx@, entries_model(l@)),
    decreases spans,
{
    let ghost m = inlines_model(spans@);
    let mut i: usize = 0;
    while i < spans.len()
        invariant
            i <= spans@.len(),
            m == inlines_model(spans@),
            out@ == old(out)@ + html_inlines(m.take(i as int), ctx@, entries_model(l@)),
        decreases spans@.len() - i,
    {
        assert(decreases_to!(spans => spans@));
        assert(decreases_to!(spans@ => spans@[i as int]));
        html_inline_exec(&spans[i], ctx, l, out);
        assert(m.take(i + 1).drop_last() =~= m.take(i as int));
        assert(m.take(i + 1).last() == spans@[i as int]@);
        assert(out@ =~= old(out)@ + html_inlines(m.take(i + 1), ctx@, entries_model(l@)));
        i += 1;
    }
    assert(m.take(spans@.len() as int) =~= m);
}


// ---- executable views -----------------------------------------------------------------

pub(crate) fn min6_exec(level: u8) -> (r: usize)
    ensures
        r as nat == min6(level),
{
    if level > 6 {
        6
    } else {
        level as usize
    }
}

pub(crate) fn manuscript_blocks_exec(body: &Vec<Block>, ctx: &Ctx, l: &Vec<LinkEntry>, out: &mut Vec<char>)
    ensures
        final(out)@ == old(out)@ + manuscript_blocks(blocks_model(body@), ctx@, entries_model(l@)),
{
    let ghost m = blocks_model(body@);
    let mut i: usize = 0;
    while i < body.len()
        invariant
            i <= body@.len(),
            m == blocks_model(body@),
            out@ == old(out)@ + manuscript_blocks(m.take(i as int), ctx@, entries_model(l@)),
        decreases body@.len() - i,
    {
        assert(m.take(i + 1).drop_last() =~= m.take(i as int));
        assert(m.take(i + 1).last() == block_model(&body@[i as int]));
        match &body[i] {
            Block::Para(spans) => {
                let mut line: Vec<char> = Vec::new();
                print_inlines_exec(spans, ctx, l, &mut line);
                assert(line@ =~= print_inlines(inlines_model(spans@), ctx@, entries_model(l@)));
                let t = trimmed(line.as_slice());
                if t.len() > 0 {
                    push_all(out, t.as_slice());
                    out.push('\n');
                    out.push('\n');
                }
            },
            Block::LineComment(_) => {},
        }
        assert(out@ =~= old(out)@ + manuscript_blocks(m.take(i + 1), ctx@, entries_model(l@)));
        i += 1;
    }
    assert(m.take(body@.len() as int) =~= m);
}

/// Print view of a subtree (before the final newline trim of [`render`]).
pub(crate) fn manuscript_exec(node: &Node, ctx: &Ctx, l: &Vec<LinkEntry>, out: &mut Vec<char>)
    ensures
        final(out)@ == old(out)@ + manuscript(node@, ctx@, entries_model(l@)),
    decreases node,
{
    if node.visibility == Visibility::Excluded {
        assert(out@ =~= old(out)@ + manuscript(node@, ctx@, entries_model(l@)));
        return ;
    }
    if node.level > 0 && node.visibility == Visibility::Visible && !node.title.as_str().is_empty() {
        let hash = vec!['#'];
        assert(hash@ =~= seq!['#']);
        push_repeat(out, hash.as_slice(), min6_exec(node.level));
        out.push(' ');
        let t = str_chars(node.title.as_str());
        let r = substitute_exec(t.as_slice(), ctx);
        push_all(out, r.as_slice());
        out.push('\n');
        out.push('\n');
    }
    let ghost o1 = out@;
    manuscript_blocks_exec(&node.body, ctx, l, out);
    let ghost o2 = out@;
    let ctxs = child_ctxs(node, ctx);
    let mut i: usize = 0;
    while i < node.children.len()
        invariant
            i <= node.children@.len(),
            ctxs@.len() == node.children@.len(),
            forall|k: int| 0 <= k < ctxs@.len() ==> (#[trigger] ctxs@[k])@ == child_ctx(node@, ctx@, k),
            out@ == o2 + manuscript_kids(node@, ctx@, entries_model(l@), i as int),
        decreases node.children@.len() - i,
    {
        assert(decreases_to!(node => node.children));
        assert(decreases_to!(node.children => node.children@));
        assert(decreases_to!(node.children@ => node.children@[i as int]));
        manuscript_exec(&node.children[i], &ctxs[i], l, out);
        assert(node@.children[i as int] == node.children@[i as int]@);
        assert(out@ =~= o2 + manuscript_kids(node@, ctx@, entries_model(l@), i + 1));
        i += 1;
    }
    assert(out@ =~= old(out)@ + manuscript(node@, ctx@, entries_model(l@)));
}

pub(crate) fn html_blocks_exec(body: &Vec<Block>, ctx: &Ctx, l: &Vec<LinkEntry>, out: &mut Vec<char>)
    ensures
        final(out)@ == old(out)@ + html_blocks(blocks_model(body@), ctx@, entries_model(l@)),
{
    let ghost m = blocks_model(body@);
    let mut i: usize = 0;
    while i < body.len()
        invariant
            i <= body@.len(),
            m == blocks_model(body@),
            out@ == old(out)@ + html_blocks(m.take(i as int), ctx@, entries_model(l@)),
        decreases body@.len() - i,
    {
        assert(m.take(i + 1).drop_last() =~= m.take(i as int));
        assert(m.take(i + 1).last() == block_model(&body@[i as int]));
        match &body[i] {
            Block::Para(spans) => {
                let mut h: Vec<char> = Vec::new();
                html_inlines_exec(spans, ctx, l, &mut h);
                assert(h@ =~= html_inlines(inlines_model(spans@), ctx@, entries_model(l@)));
                let t = trimmed(h.as_slice());
                if t.len() > 0 {
                    push_lit(out, "<p>");
                    push_all(out, h.as_slice());
                    push_lit(out, "</p>\n");
                    proof {
                        reveal_strlit("<p>");
                        reveal_strlit("</p>\n");
                    }
                }
            },
            Block::LineComment(_) => {},
        }
        assert(out@ =~= old(out)@ + html_blocks(m.take(i + 1), ctx@, entries_model(l@)));
        i += 1;
    }
    assert(m.take(body@.len() as int) =~= m);
}

pub(crate) fn push_h(out: &mut Vec<char>, close: bool, lvl: usize)
    requires
        1 <= lvl <= 6,
    ensures
        final(out)@ == old(out)@ + if close {
            h_close(lvl as nat)
        } else {
            h_open(lvl as nat)
        },
{
    out.push('<');
    if close {
        out.push('/');
    }
    out.push('h');
    let d = crate::interp::i64_to_chars(lvl as i64);
    assert(d@ =~= seq![crate::interp::digit_char(lvl as int)]);
    push_all(out, d.as_slice());
    out.push('>');
    assert(out@ =~= old(out)@ + if close {
        h_close(lvl as nat)
    } else {
        h_open(lvl as nat)
    });
}

pub(crate) fn manuscript_html_exec(node: &Node, ctx: &Ctx, l: &Vec<LinkEntry>, out: &mut Vec<char>)
    ensures
        final(out)@ == old(out)@ + manuscript_html(node@, ctx@, entries_model(l@)),
    decreases node,
{
    if node.visibility == Visibility::Excluded {
        assert(out@ =~= old(out)@ + manuscript_html(node@, ctx@, entries_model(l@)));
        return ;
    }
    if node.level > 0 && node.visibility == Visibility::Visible && !node.title.as_str().is_empty() {
        let lvl = min6_exec(node.level);
        push_h(out, false, lvl);
        let t = str_chars(node.title.as_str());
        let r = substitute_exec(t.as_slice(), ctx);
        push_escaped(out, r.as_slice());
        push_h(out, true, lvl);
        out.push('\n');
    }
    let ghost o1 = out@;
    html_blocks_exec(&node.body, ctx, l, out);
    let ghost o2 = out@;
    let ctxs = child_ctxs(node, ctx);
    let mut i: usize = 0;
    while i < node.children.len()
        invariant
            i <= node.children@.len(),
            ctxs@.len() == node.children@.len(),
            forall|k: int| 0 <= k < ctxs@.len() ==> (#[trigger] ctxs@[k])@ == child_ctx(node@, ctx@, k),
            out@ == o2 + manuscript_html_kids(node@, ctx@, entries_model(l@), i as int),
        decreases node.children@.len() - i,
    {
        assert(decreases_to!(node => node.children));
        assert(decreases_to!(node.children => node.children@));
        assert(decreases_to!(node.children@ => node.children@[i as int]));
        manuscript_html_exec(&node.children[i], &ctxs[i], l, out);
        assert(node@.children[i as int] == node.children@[i as int]@);
        assert(out@ =~= o2 + manuscript_html_kids(node@, ctx@, entries_model(l@), i + 1));
        i += 1;
    }
    assert(out@ =~= old(out)@ + manuscript_html(node@, ctx@, entries_model(l@)));
}


pub(crate) fn sigil_exec(v: Visibility) -> (c: char)
    ensures
        c == sigil(v),
{
    match v {
        Visibility::Visible => '#',
        Visibility::Scene => '~',
        Visibility::Excluded => '%',
    }
}

/// Appends a heading's display title: resolved, or `(untitled)`.
pub(crate) fn push_display_title(out: &mut Vec<char>, title: &String, ctx: &Ctx)
    ensures
        final(out)@ == old(out)@ + display_title(title@, ctx@),
{
    if title.as_str().is_empty() {
        push_lit(out, "(untitled)");
        proof {
            reveal_strlit("(untitled)");
        }
        assert(out@ =~= old(out)@ + display_title(title@, ctx@));
    } else {
        let t = str_chars(title.as_str());
        let r = substitute_exec(t.as_slice(), ctx);
        push_all(out, r.as_slice());
    }
}

pub(crate) fn meta_keys_exec(meta: &Vec<(String, String)>) -> (r: Vec<Vec<char>>)
    ensures
        r@.map_values(|l: Vec<char>| l@) == meta_keys(meta_model(meta@)),
{
    let mut r: Vec<Vec<char>> = Vec::new();
    let mut i: usize = 0;
    while i < meta.len()
        invariant
            i <= meta@.len(),
            r@.map_values(|l: Vec<char>| l@) == meta_keys(meta_model(meta@)).take(i as int),
        decreases meta@.len() - i,
    {
        let ghost r0 = r@;
        let k = str_chars(meta[i].0.as_str());
        r.push(k);
        assert(r@.map_values(|l: Vec<char>| l@) =~= r0.map_values(|l: Vec<char>| l@).push(k@));
        assert(meta_keys(meta_model(meta@))[i as int] == k@);
        assert(meta_keys(meta_model(meta@)).take(i + 1) =~= meta_keys(meta_model(meta@)).take(
            i as int,
        ).push(k@));
        assert(r@.map_values(|l: Vec<char>| l@) =~= meta_keys(meta_model(meta@)).take(i + 1));
        i += 1;
    }
    assert(meta_keys(meta_model(meta@)).take(meta@.len() as int) =~= meta_keys(meta_model(meta@)));
    r
}

pub(crate) fn outline_head_exec(node: &Node, ctx: &Ctx, out: &mut Vec<char>)
    ensures
        final(out)@ == old(out)@ + outline_head(node@, ctx@),
{
    if node.level > 0 {
        let two = vec![' ', ' '];
        assert(two@ =~= seq![' ', ' ']);
        push_repeat(out, two.as_slice(), (node.level - 1) as usize);
        let sg = vec![sigil_exec(node.visibility)];
        assert(sg@ =~= seq![sigil(node.visibility)]);
        push_repeat(out, sg.as_slice(), node.level as usize);
        out.push(' ');
        push_display_title(out, &node.title, ctx);
        if node.meta.len() > 0 {
            out.push(' ');
            out.push(' ');
            out.push('[');
            let keys = meta_keys_exec(&node.meta);
            let sep = vec![',', ' '];
            assert(sep@ =~= seq![',', ' ']);
            push_joined(out, &keys, sep.as_slice());
            out.push(']');
        }
        out.push('\n');
    }
    assert(out@ =~= old(out)@ + outline_head(node@, ctx@));
}

pub(crate) fn outline_exec(node: &Node, ctx: &Ctx, out: &mut Vec<char>)
    ensures
        final(out)@ == old(out)@ + outline(node@, ctx@),
    decreases node,
{
    outline_head_exec(node, ctx, out);
    let ghost o1 = out@;
    let ctxs = child_ctxs(node, ctx);
    let mut i: usize = 0;
    while i < node.children.len()
        invariant
            i <= node.children@.len(),
            ctxs@.len() == node.children@.len(),
            forall|k: int| 0 <= k < ctxs@.len() ==> (#[trigger] ctxs@[k])@ == child_ctx(node@, ctx@, k),
            out@ == o1 + outline_kids(node@, ctx@, i as int),
        decreases node.children@.len() - i,
    {
        assert(decreases_to!(node => node.children));
        assert(decreases_to!(node.children => node.children@));
        assert(decreases_to!(node.children@ => node.children@[i as int]));
        outline_exec(&node.children[i], &ctxs[i], out);
        assert(node@.children[i as int] == node.children@[i as int]@);
        assert(out@ =~= o1 + outline_kids(node@, ctx@, i + 1));
        i += 1;
    }
    assert(out@ =~= old(out)@ + outline(node@, ctx@));
}

pub(crate) fn edit_pair_exec(out: &mut Vec<char>, k: &String, v: &String)
    ensures
        final(out)@ == old(out)@ + edit_pair(k@, v@),
{
    let vc = str_chars(v.as_str());
    push_str(out, k.as_str());
    if crate::text::has_char(vc.as_slice(), '\n') {
        out.push(':');
        out.push('\n');
        let parts = split_on(vc.as_slice(), '\n');
        let ghost ps = parts@.map_values(|l: Vec<char>| l@);
        let ghost o1 = out@;
        let mut i: usize = 0;
        while i < parts.len()
            invariant
                i <= parts@.len(),
                ps == parts@.map_values(|l: Vec<char>| l@),
                out@ == o1 + indented_parts(ps.take(i as int)),
            decreases parts@.len() - i,
        {
            out.push(' ');
            out.push(' ');
            push_all(out, parts[i].as_slice());
            out.push('\n');
            assert(ps.take(i + 1).drop_last() =~= ps.take(i as int));
            assert(out@ =~= o1 + indented_parts(ps.take(i + 1)));
            i += 1;
        }
        assert(ps.take(parts@.len() as int) =~= ps);
        assert(out@ =~= old(out)@ + edit_pair(k@, v@));
    } else {
        out.push(':');
        out.push(' ');
        push_all(out, vc.as_slice());
        out.push('\n');
        assert(out@ =~= old(out)@ + edit_pair(k@, v@));
    }
}

pub(crate) fn edit_exec(node: &Node, out: &mut Vec<char>)
    ensures
        final(out)@ == old(out)@ + edit(node@),
    decreases node,
{
    if node.level > 0 {
        let sg = vec![sigil_exec(node.visibility)];
        assert(sg@ =~= seq![sigil(node.visibility)]);
        push_repeat(out, sg.as_slice(), node.level as usize);
        out.push(' ');
        push_str(out, node.title.as_str());
        out.push('\n');
    }
    let ghost o0 = out@;
    let ghost mm = meta_model(node.meta@);
    let mut j: usize = 0;
    while j < node.meta.len()
        invariant
            j <= node.meta@.len(),
            mm == meta_model(node.meta@),
            out@ == o0 + edit_meta(mm.take(j as int)),
        decreases node.meta@.len() - j,
    {
        edit_pair_exec(out, &node.meta[j].0, &node.meta[j].1);
        assert(mm.take(j + 1).drop_last() =~= mm.take(j as int));
        assert(out@ =~= o0 + edit_meta(mm.take(j + 1)));
        j += 1;
    }
    assert(mm.take(node.meta@.len() as int) =~= mm);
    if node.meta.len() > 0 {
        out.push('\n');
    }
    let ghost o1 = out@;
    let ghost bm = blocks_model(node.body@);
    let mut b: usize = 0;
    while b < node.body.len()
        invariant
            b <= node.body@.len(),
            bm == blocks_model(node.body@),
            out@ == o1 + edit_blocks(bm.take(b as int)),
        decreases node.body@.len() - b,
    {
        assert(bm.take(b + 1).drop_last() =~= bm.take(b as int));
        assert(bm.take(b + 1).last() == block_model(&node.body@[b as int]));
        match &node.body[b] {
            Block::Para(spans) => {
                source_inlines_exec(spans, out);
                out.push('\n');
                out.push('\n');
            },
            Block::LineComment(c) => {
                out.push('/');
                out.push(' ');
                push_str(out, c.as_str());
                out.push('\n');
            },
        }
        assert(out@ =~= o1 + edit_blocks(bm.take(b + 1)));
        b += 1;
    }
    assert(bm.take(node.body@.len() as int) =~= bm);
    let ghost o2 = out@;
    let mut i: usize = 0;
    while i < node.children.len()
        invariant
            i <= node.children@.len(),
            out@ == o2 + edit_kids(node@, i as int),
        decreases node.children@.len() - i,
    {
        assert(decreases_to!(node => node.children));
        assert(decreases_to!(node.children => node.children@));
        assert(decreases_to!(node.children@ => node.children@[i as int]));
        edit_exec(&node.children[i], out);
        assert(node@.children[i as int] == node.children@[i as int]@);
        assert(out@ =~= o2 + edit_kids(node@, i + 1));
        i += 1;
    }
    assert(out@ =~= old(out)@ + edit(node@));
}


pub open spec fn scope_model(v: Seq<Vec<char>>) -> Seq<Seq<char>> {
    v.map_values(|l: Vec<char>| l@)
}

pub(crate) fn pushed_scope_exec(scope: &Vec<Vec<char>>, title: &String, ctx: &Ctx) -> (r: Vec<Vec<char>>)
    ensures
        scope_model(r@) == pushed_scope(scope_model(scope@), title@, ctx@),
{
    let mut inner: Vec<Vec<char>> = Vec::new();
    let mut i: usize = 0;
    while i < scope.len()
        invariant
            i <= scope@.len(),
            scope_model(inner@) == scope_model(scope@).take(i as int),
        decreases scope@.len() - i,
    {
        let ghost i0 = inner@;
        let x = crate::text::slice_range(scope[i].as_slice(), 0, scope[i].len());
        assert(x@ =~= scope@[i as int]@);
        inner.push(x);
        assert(scope_model(inner@) =~= scope_model(i0).push(x@));
        assert(scope_model(scope@).take(i + 1) =~= scope_model(scope@).take(i as int).push(
            scope_model(scope@)[i as int],
        ));
        assert(scope_model(inner@) =~= scope_model(scope@).take(i + 1));
        i += 1;
    }
    assert(scope_model(scope@).take(scope@.len() as int) =~= scope_model(scope@));
    let t = str_chars(title.as_str());
    let st = substitute_exec(t.as_slice(), ctx);
    if st.len() > 0 {
        let ghost i0 = inner@;
        inner.push(st);
        assert(scope_model(inner@) =~= scope_model(i0).push(st@));
    }
    inner
}

pub(crate) fn codex_entry_exec(node: &Node, indent: &Vec<char>, Ghost(depth): Ghost<nat>, ctx: &Ctx, out: &mut Vec<char>)
    requires
        indent@ == repeat(seq![' ', ' '], depth),
    ensures
        final(out)@ == old(out)@ + codex_entry(node@, depth, ctx@),
    decreases node,
{
    push_all(out, indent.as_slice());
    push_display_title(out, &node.title, ctx);
    out.push('\n');
    let ghost o0 = out@;
    let ghost mm = meta_model(node.meta@);
    let mut j: usize = 0;
    while j < node.meta.len()
        invariant
            j <= node.meta@.len(),
            mm == meta_model(node.meta@),
            indent@ == repeat(seq![' ', ' '], depth),
            out@ == o0 + codex_entry_meta(mm.take(j as int), depth),
        decreases node.meta@.len() - j,
    {
        push_all(out, indent.as_slice());
        out.push(' ');
        out.push(' ');
        push_str(out, node.meta[j].0.as_str());
        out.push(':');
        out.push(' ');
        push_str(out, node.meta[j].1.as_str());
        out.push('\n');
        assert(mm.take(j + 1).drop_last() =~= mm.take(j as int));
        assert(out@ =~= o0 + codex_entry_meta(mm.take(j + 1), depth));
        j += 1;
    }
    assert(mm.take(node.meta@.len() as int) =~= mm);
    let ghost o1 = out@;
    let mut inner = crate::text::slice_range(indent.as_slice(), 0, indent.len());
    inner.push(' ');
    inner.push(' ');
    assert(inner@ =~= repeat(seq![' ', ' '], depth + 1));
    let ctxs = child_ctxs(node, ctx);
    let mut i: usize = 0;
    while i < node.children.len()
        invariant
            i <= node.children@.len(),
            ctxs@.len() == node.children@.len(),
            forall|k: int| 0 <= k < ctxs@.len() ==> (#[trigger] ctxs@[k])@ == child_ctx(node@, ctx@, k),
            inner@ == repeat(seq![' ', ' '], depth + 1),
            out@ == o1 + codex_entry_kids(node@, depth, ctx@, i as int),
        decreases node.children@.len() - i,
    {
        assert(decreases_to!(node => node.children));
        assert(decreases_to!(node.children => node.children@));
        assert(decreases_to!(node.children@ => node.children@[i as int]));
        codex_entry_exec(&node.children[i], &inner, Ghost(depth + 1), &ctxs[i], out);
        assert(node@.children[i as int] == node.children@[i as int]@);
        assert(out@ =~= o1 + codex_entry_kids(node@, depth, ctx@, i + 1));
        i += 1;
    }
    assert(out@ =~= old(out)@ + codex_entry(node@, depth, ctx@));
}

pub(crate) fn codex_exec(node: &Node, ctx: &Ctx, scope: &Vec<Vec<char>>, out: &mut Vec<char>)
    ensures
        final(out)@ == old(out)@ + codex(node@, ctx@, scope_model(scope@)),
    decreases node,
{
    let ctxs = child_ctxs(node, ctx);
    let mut i: usize = 0;
    while i < node.children.len()
        invariant
            i <= node.children@.len(),
            ctxs@.len() == node.children@.len(),
            forall|k: int| 0 <= k < ctxs@.len() ==> (#[trigger] ctxs@[k])@ == child_ctx(node@, ctx@, k),
            out@ == old(out)@ + codex_kids(node@, ctx@, scope_model(scope@), i as int),
        decreases node.children@.len() - i,
    {
        let child = &node.children[i];
        assert(node@.children[i as int] == child@);
        let ghost o0 = out@;
        if child.visibility == Visibility::Excluded {
            if scope.len() > 0 {
                out.push('[');
                let sep = vec![' ', '/', ' '];
                assert(sep@ =~= scope_sep());
                push_joined(out, scope, sep.as_slice());
                out.push(']');
                out.push('\n');
            }
            let empty: Vec<char> = Vec::new();
            assert(empty@ =~= repeat(seq![' ', ' '], 0));
            codex_entry_exec(child, &empty, Ghost(0), &ctxs[i], out);
            out.push('\n');
        } else {
            let inner = pushed_scope_exec(scope, &child.title, &ctxs[i]);
            assert(decreases_to!(node => node.children));
            assert(decreases_to!(node.children => node.children@));
            assert(decreases_to!(node.children@ => node.children@[i as int]));
            codex_exec(child, &ctxs[i], &inner, out);
        }
        assert(out@ =~= old(out)@ + codex_kids(node@, ctx@, scope_model(scope@), i + 1));
        i += 1;
    }
}

// ---- word count exec -------------------------------------------------------------------------

proof fn lemma_words_kids_mono(n: NodeModel, ctx: CtxModel, l: Seq<LinkEntryModel>, i: int, j: int)
    requires
        0 <= i <= j <= n.children.len(),
    ensures
        words_kids(n, ctx, l, i) <= words_kids(n, ctx, l, j),
    decreases j - i,
{
    if i < j {
        lemma_words_kids_mono(n, ctx, l, i, j - 1);
    }
}

proof fn lemma_words_blocks_mono(b: Seq<BlockModel>, ctx: CtxModel, l: Seq<LinkEntryModel>, i: int)
    requires
        0 <= i <= b.len(),
    ensures
        words_blocks(b.take(i), ctx, l) <= words_blocks(b, ctx, l),
    decreases b.len() - i,
{
    if i < b.len() {
        lemma_words_blocks_mono(b, ctx, l, i + 1);
        assert(b.take(i + 1).drop_last() =~= b.take(i));
    } else {
        assert(b.take(i) =~= b);
    }
}

/// The word count of a subtree, or `None` where it does not fit a `usize`.
pub(crate) fn words_exec(node: &Node, ctx: &Ctx, l: &Vec<LinkEntry>) -> (r: Option<usize>)
    ensures
        r is Some == (words(node@, ctx@, entries_model(l@)) <= usize::MAX),
        r matches Some(x) ==> x == words(node@, ctx@, entries_model(l@)),
    decreases node,
{
    if node.visibility == Visibility::Excluded {
        return Some(0);
    }
    let ghost lm = entries_model(l@);
    let ghost bm = blocks_model(node.body@);
    let ghost total = words(node@, ctx@, lm);
    let mut n: usize = 0;
    let mut b: usize = 0;
    while b < node.body.len()
        invariant
            b <= node.body@.len(),
            bm == blocks_model(node.body@),
            lm == entries_model(l@),
            node@.body == bm,
            total == words(node@, ctx@, lm),
            total == words_blocks(bm, ctx@, lm) + words_kids(node@, ctx@, lm, node@.children.len() as int),
            n == words_blocks(bm.take(b as int), ctx@, lm),
        decreases node.body@.len() - b,
    {
        assert(bm.take(b + 1).drop_last() =~= bm.take(b as int));
        assert(bm.take(b + 1).last() == block_model(&node.body@[b as int]));
        proof {
            lemma_words_blocks_mono(bm, ctx@, lm, b + 1);
        }
        match &node.body[b] {
            Block::Para(spans) => {
                let mut line: Vec<char> = Vec::new();
                print_inlines_exec(spans, ctx, l, &mut line);
                assert(line@ =~= print_inlines(inlines_model(spans@), ctx@, lm));
                let w = crate::text::word_count_chars(line.as_slice());
                match n.checked_add(w) {
                    Some(x) => {
                        n = x;
                    },
                    None => {
                        return None;
                    },
                }
            },
            Block::LineComment(_) => {},
        }
        b += 1;
    }
    assert(bm.take(node.body@.len() as int) =~= bm);
    let ctxs = child_ctxs(node, ctx);
    let mut i: usize = 0;
    while i < node.children.len()
        invariant
            i <= node.children@.len(),
            lm == entries_model(l@),
            ctxs@.len() == node.children@.len(),
            forall|k: int| 0 <= k < ctxs@.len() ==> (#[trigger] ctxs@[k])@ == child_ctx(node@, ctx@, k),
            total == words(node@, ctx@, lm),
            total == words_blocks(bm, ctx@, lm) + words_kids(node@, ctx@, lm, node@.children.len() as int),
            node@.body == bm,
            n == words_blocks(bm, ctx@, lm) + words_kids(node@, ctx@, lm, i as int),
        decreases node.children@.len() - i,
    {
        proof {
            lemma_words_kids_mono(node@, ctx@, lm, i + 1, node@.children.len() as int);
        }
        assert(node@.children[i as int] == node.children@[i as int]@);
        assert(decreases_to!(node => node.children));
        assert(decreases_to!(node.children => node.children@));
        assert(decreases_to!(node.children@ => node.children@[i as int]));
        match words_exec(&node.children[i], &ctxs[i], l) {
            Some(w) => match n.checked_add(w) {
                Some(x) => {
                    n = x;
                },
                None => {
                    return None;
                },
            },
            None => {
                return None;
            },
        }
        i += 1;
    }
    Some(n)
}


// ---- the public renderers -------------------------------------------------------------------

/// The model of [`render`]: the manuscript ends in exactly one newline (none
/// when empty); the other views are their walks of the root, in the root's
/// context (front matter as variables, the document's link index).
pub open spec fn render_model(root: NodeModel, view: View) -> Seq<char> {
    match view {
        View::Manuscript => {
            let m = trim_newlines_end(manuscript(root, base_ctx(root), link_index(root)));
            if m.len() > 0 {
                m.push('\n')
            } else {
                m
            }
        },
        View::Outline => outline(root, base_ctx(root)),
        View::Edit => edit(root),
        View::Codex => codex(root, base_ctx(root), seq![]),
    }
}

pub(crate) fn trim_trailing_newlines(out: &mut Vec<char>)
    ensures
        final(out)@ == trim_newlines_end(old(out)@),
{
    while out.len() > 0 && out[out.len() - 1] == '\n'
        invariant
            trim_newlines_end(out@) == trim_newlines_end(old(out)@),
        decreases out@.len(),
    {
        let ghost o = out@;
        out.pop();
        assert(out@ =~= o.drop_last());
    }
}

/// Render `root` as the given view.
pub fn render(root: &Node, view: View) -> (r: String)
    ensures
        r@ == render_model(root@, view),
{
    let ctx = base_ctx_exec(root);
    let mut out: Vec<char> = Vec::new();
    match view {
        View::Manuscript => {
            let links = link_titles(root);
            manuscript_exec(root, &ctx, &links, &mut out);
            trim_trailing_newlines(&mut out);
            if out.len() > 0 {
                out.push('\n');
            }
        },
        View::Outline => outline_exec(root, &ctx, &mut out),
        View::Edit => edit_exec(root, &mut out),
        View::Codex => {
            let scope: Vec<Vec<char>> = Vec::new();
            assert(scope_model(scope@) =~= seq![]);
            codex_exec(root, &ctx, &scope, &mut out);
        },
    }
    chars_to_string(out.as_slice())
}

/// Render `root` as a manuscript in HTML: visible headings become `<h1>`–`<h6>`,
/// paragraphs `<p>`, bold/italic `<strong>`/`<em>`, with CriticMarkup resolved
/// and scenes/metadata/comments dropped. Text is escaped; single newlines
/// within a paragraph become `<br>`.
pub fn render_html(root: &Node) -> (r: String)
    ensures
        r@ == manuscript_html(root@, base_ctx(root@), link_index(root@)),
{
    let ctx = base_ctx_exec(root);
    let links = link_titles(root);
    let mut out: Vec<char> = Vec::new();
    manuscript_html_exec(root, &ctx, &links, &mut out);
    chars_to_string(out.as_slice())
}

/// Manuscript word count of a subtree: prose words that would print. Excluded
/// (`%`) subtrees, comments, deletions, and metadata contribute nothing;
/// substitutions count their replacement; heading titles are not counted.
pub fn word_count(node: &Node) -> (r: usize)
    requires
        words(node@, base_ctx(node@), link_index(node@)) <= usize::MAX,
    ensures
        r == words(node@, base_ctx(node@), link_index(node@)),
{
    try_word_count(node).unwrap()
}

/// [`word_count`] on any tree: `None` where the count does not fit a `usize`.
pub fn try_word_count(node: &Node) -> (r: Option<usize>)
    ensures
        r is Some == (words(node@, base_ctx(node@), link_index(node@)) <= usize::MAX),
        r matches Some(x) ==> x == words(node@, base_ctx(node@), link_index(node@)),
{
    let ctx = base_ctx_exec(node);
    let links = link_titles(node);
    words_exec(node, &ctx, &links)
}

/// Resolve every heading's `{{…}}` interpolation, keyed by the heading's start
/// offset. The root itself is not included; a heading without interpolation
/// maps to its plain title.
pub fn resolve_titles(root: &Node) -> (r: std::collections::HashMap<usize, String>)
    ensures
        r@.dom() == to_map(titles_list(root@)).dom(),
        forall|k: usize| #[trigger] r@.contains_key(k) ==> r@[k]@ == to_map(titles_list(root@))[k],
{
    let ctx = base_ctx_exec(root);
    let mut titles: Vec<(usize, Vec<char>)> = Vec::new();
    resolve_titles_kids(root, &ctx, &mut titles);
    assert(titles_model(titles@) =~= titles_list(root@));
    let ghost tl = titles_list(root@);
    let mut m: std::collections::HashMap<usize, String> = std::collections::HashMap::new();
    let mut i: usize = 0;
    while i < titles.len()
        invariant
            i <= titles@.len(),
            tl == titles_model(titles@),
            m@.dom() == to_map(tl.take(i as int)).dom(),
            forall|k: usize| #[trigger] m@.contains_key(k) ==> m@[k]@ == to_map(tl.take(i as int))[k],
        decreases titles@.len() - i,
    {
        assert(tl.take(i + 1).drop_last() =~= tl.take(i as int));
        let s = chars_to_string(titles[i].1.as_slice());
        m.insert(titles[i].0, s);
        assert(m@.dom() =~= to_map(tl.take(i + 1)).dom());
        i += 1;
    }
    assert(tl.take(titles@.len() as int) =~= tl);
    m
}


proof fn lemma_count_visible_mono(cs: Seq<NodeModel>, a: int, b: int)
    requires
        0 <= a <= b <= cs.len(),
    ensures
        0 <= count_visible(cs, a) <= count_visible(cs, b) <= b,
        count_visible(cs, b) - count_visible(cs, a) <= b - a,
    decreases b,
{
    if a < b {
        lemma_count_visible_mono(cs, a, b - 1);
    } else if b > 0 {
        lemma_count_visible_mono(cs, 0, b - 1);
    }
}

/// Sibling numbering is manuscript-authoritative: a non-excluded child's
/// `{{number}}` lies in `1..={{total}}` and grows strictly along the
/// non-excluded siblings, `{{total}}` counting exactly those siblings;
/// an excluded child takes no number (0).
pub proof fn sibling_numbering(n: NodeModel, ctx: CtxModel, i: int, j: int)
    requires
        0 <= i < j < n.children.len(),
        n.children.len() <= i64::MAX,
    ensures
        n.children[i].visibility != Visibility::Excluded ==> 1 <= child_ctx(n, ctx, i).number
            <= child_ctx(n, ctx, i).total,
        n.children[i].visibility != Visibility::Excluded && n.children[j].visibility
            != Visibility::Excluded ==> child_ctx(n, ctx, i).number < child_ctx(n, ctx, j).number,
        n.children[i].visibility == Visibility::Excluded ==> child_ctx(n, ctx, i).number == 0,
        child_ctx(n, ctx, i).total == count_visible(n.children, n.children.len() as int),
{
    let cs = n.children;
    lemma_count_visible_mono(cs, i + 1, j);
    lemma_count_visible_mono(cs, j + 1, cs.len() as int);
    lemma_count_visible_mono(cs, i, i + 1);
    lemma_count_visible_mono(cs, j, j + 1);
    lemma_count_visible_mono(cs, i + 1, cs.len() as int);
    lemma_count_visible_mono(cs, 0, cs.len() as int);
}


/// `{{key}}` sees the nearest metadata: in a child's context a key the child
/// sets itself is the child's value, and any other key is looked up in the
/// parent's context (so, at the top, in the front matter).
pub proof fn nearest_metadata_wins(n: NodeModel, ctx: CtxModel, i: int, k: Seq<char>)
    requires
        0 <= i < n.children.len(),
    ensures
        crate::interp::lookup(child_ctx(n, ctx, i).vars, k) == match crate::interp::lookup(n.children[i].meta, k) {
            Some(v) => Some(v),
            None => crate::interp::lookup(ctx.vars, k),
        },
{
    crate::interp::lookup_inner_first(ctx.vars, n.children[i].meta, k);
}

} // verus!
