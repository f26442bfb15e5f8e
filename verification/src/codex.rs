//! The codex as HTML: every excluded (`%`) subtree as an entity index with
//! metadata cross-references and per-entity backlinks.
//!
//! The cross-reference model: an entity is every `%` heading with a title. A
//! name (a comma-separated metadata part, or a prose `[[wikilink]]` target)
//! resolves to an entity by its `id:` first (document-global, first
//! declaration wins), else by its folded title, nearest scope first.

use vstd::prelude::*;
use vstd::view::View as _;
use crate::{
    Block, BlockModel, Inline, InlineModel, Node, NodeModel, Visibility, block_model, blocks_model,
    inline_model, inlines_model, meta_model,
};
use crate::interp::{Ctx, CtxModel, eq_chars, nat_str, substitute, substitute_exec};
use crate::render::{
    base_ctx, base_ctx_exec, child_ctx, child_ctxs, display_title, entities_kids, entities_of,
    fold, fold_name, h_close, h_open, html_blocks, id_of, id_of_exec, link_index, link_titles,
    lookup_title_exec, pushed_scope, pushed_scope_exec, scope_model, scope_sep, push_h, push_lit,
    push_display_title, html_blocks_exec, title_in, titles_list, titles_model,
    entries_model, LinkEntry, LinkEntryModel,
};
use crate::text::{chars_to_string, escape, join_with, push_joined, slice_range, split_char, split_on, str_chars, trim, trimmed};

verus! {

// ---- scopes ----------------------------------------------------------------------------

/// For each heading below `n` (children `i..`), in document order: its
/// "sits-in" scope, the folded resolved titles of its visible (`#`/`~`)
/// ancestors. Excluded ancestors don't extend it.
pub open spec fn scopes_from(n: NodeModel, ctx: CtxModel, scope: Seq<Seq<char>>, i: int) -> Seq<(usize, Seq<Seq<char>>)>
    decreases n, n.children.len() - i,
{
    if i < 0 || i >= n.children.len() {
        seq![]
    } else {
        let c = n.children[i];
        let cctx = child_ctx(n, ctx, i);
        let t = fold(substitute(c.title, cctx));
        let inner = if c.visibility == Visibility::Excluded || t.len() == 0 {
            scope
        } else {
            scope.push(t)
        };
        seq![(c.heading_span.start, scope)] + scopes_from(c, cctx, inner, 0) + scopes_from(
            n,
            ctx,
            scope,
            i + 1,
        )
    }
}

pub open spec fn scopes_list(root: NodeModel) -> Seq<(usize, Seq<Seq<char>>)> {
    scopes_from(root, base_ctx(root), seq![], 0)
}

/// The scope recorded last for heading offset `k`, or the empty scope.
pub open spec fn scope_at(l: Seq<(usize, Seq<Seq<char>>)>, k: usize) -> Seq<Seq<char>>
    decreases l.len(),
{
    if l.len() == 0 {
        seq![]
    } else if l.last().0 == k {
        l.last().1
    } else {
        scope_at(l.drop_last(), k)
    }
}

// ---- entities ----------------------------------------------------------------------------

pub struct EntityModel {
    pub start: usize,
    pub key: Seq<char>,
    pub id: Option<Seq<char>>,
    pub scope: Seq<Seq<char>>,
}

pub open spec fn entity_model(e: NodeModel, scopes: Seq<(usize, Seq<Seq<char>>)>) -> EntityModel {
    EntityModel {
        start: e.heading_span.start,
        key: fold(e.title),
        id: match id_of(e) {
            Some(v) => Some(fold(v)),
            None => None,
        },
        scope: scope_at(scopes, e.heading_span.start),
    }
}

pub open spec fn entity_models(root: NodeModel) -> Seq<EntityModel> {
    entities_of(root).map_values(|e: NodeModel| entity_model(e, scopes_list(root)))
}

pub open spec fn is_prefix(p: Seq<Seq<char>>, s: Seq<Seq<char>>) -> bool {
    p.len() <= s.len() && s.subrange(0, p.len() as int) == p
}

pub open spec fn first_ent_id(es: Seq<EntityModel>, key: Seq<char>, i: int) -> Option<int>
    decreases es.len() - i,
{
    if i < 0 || i >= es.len() {
        None
    } else if es[i].id == Some(key) {
        Some(i)
    } else {
        first_ent_id(es, key, i + 1)
    }
}

pub open spec fn first_ent_key(es: Seq<EntityModel>, key: Seq<char>, i: int) -> Option<int>
    decreases es.len() - i,
{
    if i < 0 || i >= es.len() {
        None
    } else if es[i].key == key {
        Some(i)
    } else {
        first_ent_key(es, key, i + 1)
    }
}

/// Among entities `i..` titled `key` whose scope encloses `rscope`, the one
/// with the deepest scope (the last of equally deep ones), given the best so far.
pub open spec fn best_from(es: Seq<EntityModel>, key: Seq<char>, rscope: Seq<Seq<char>>, i: int, cur: Option<int>) -> Option<int>
    decreases es.len() - i,
{
    if i < 0 || i >= es.len() {
        cur
    } else if es[i].key == key && is_prefix(es[i].scope, rscope) && match cur {
        None => true,
        Some(c) => 0 <= c < es.len() && es[i].scope.len() >= es[c].scope.len(),
    } {
        best_from(es, key, rscope, i + 1, Some(i))
    } else {
        best_from(es, key, rscope, i + 1, cur)
    }
}

/// Resolve a name to an entity index, as seen from `rscope`: an `id:` wins
/// first (document-global); otherwise by title, nearest enclosing scope
/// first; if none enclose the referrer, the first same-named entity.
pub open spec fn resolve_model(es: Seq<EntityModel>, name: Seq<char>, rscope: Seq<Seq<char>>) -> Option<int> {
    let key = fold(name);
    match first_ent_id(es, key, 0) {
        Some(i) => Some(i),
        None => match first_ent_key(es, key, 0) {
            None => None,
            Some(f) => match best_from(es, key, rscope, 0, None) {
                Some(b) => Some(b),
                None => Some(f),
            },
        },
    }
}

/// The scope a reference *inside* `n` sees: its own sits-in scope, plus its
/// own folded title when it is a visible heading.
pub open spec fn ref_scope(n: NodeModel, scopes: Seq<(usize, Seq<Seq<char>>)>, titles: Seq<(usize, Seq<char>)>) -> Seq<Seq<char>> {
    let s = scope_at(scopes, n.heading_span.start);
    let t = fold(title_in(titles, n));
    if n.visibility != Visibility::Excluded && t.len() > 0 {
        s.push(t)
    } else {
        s
    }
}

// ---- names a node refers to ------------------------------------------------------------------

/// The targets of every `[[wikilink]]` in an inline sequence, nested markup included.
pub open spec fn link_names(spans: Seq<InlineModel>) -> Seq<Seq<char>>
    decreases spans,
{
    if spans.len() == 0 {
        seq![]
    } else {
        link_names(spans.drop_last()) + inline_link_names(spans.last())
    }
}

pub open spec fn inline_link_names(x: InlineModel) -> Seq<Seq<char>>
    decreases x,
{
    match x {
        InlineModel::Link(t) => seq![t],
        InlineModel::Bold(cs) => link_names(cs),
        InlineModel::Italic(cs) => link_names(cs),
        InlineModel::Insert(cs) => link_names(cs),
        InlineModel::Delete(cs) => link_names(cs),
        InlineModel::Sub { old, new } => link_names(old) + link_names(new),
        InlineModel::Text(_) => seq![],
        InlineModel::Comment(_) => seq![],
    }
}

pub open spec fn body_names(body: Seq<BlockModel>) -> Seq<Seq<char>>
    decreases body.len(),
{
    if body.len() == 0 {
        seq![]
    } else {
        body_names(body.drop_last()) + match body.last() {
            BlockModel::Para(spans) => link_names(spans),
            BlockModel::LineComment(_) => seq![],
        }
    }
}

/// Every comma part of every metadata value but the self-naming `id`.
pub open spec fn meta_names(meta: Seq<(Seq<char>, Seq<char>)>) -> Seq<Seq<char>>
    decreases meta.len(),
{
    if meta.len() == 0 {
        seq![]
    } else {
        meta_names(meta.drop_last()) + if meta.last().0 == crate::meta::id_key() {
            seq![]
        } else {
            split_char(meta.last().1, ',')
        }
    }
}

/// The names a node refers to: metadata parts, then prose wikilinks.
pub open spec fn names_of(n: NodeModel) -> Seq<Seq<char>> {
    meta_names(n.meta) + body_names(n.body)
}

// ---- backlinks ---------------------------------------------------------------------------

/// The document-level data the codex renders from.
pub struct CodexModel {
    pub ents: Seq<EntityModel>,
    pub scopes: Seq<(usize, Seq<Seq<char>>)>,
    pub titles: Seq<(usize, Seq<char>)>,
    pub links: Seq<LinkEntryModel>,
}

pub open spec fn codex_model(root: NodeModel) -> CodexModel {
    CodexModel {
        ents: entity_models(root),
        scopes: scopes_list(root),
        titles: titles_list(root),
        links: link_index(root),
    }
}

pub open spec fn has_offset(bl: Seq<(Seq<char>, usize)>, off: usize) -> bool {
    exists|j: int| 0 <= j < bl.len() && (#[trigger] bl[j]).1 == off
}

/// Record that the node at `from` (titled `title`, seeing `rscope`) names `name`.
pub open spec fn add_ref(
    bl: Seq<Seq<(Seq<char>, usize)>>,
    es: Seq<EntityModel>,
    rscope: Seq<Seq<char>>,
    name: Seq<char>,
    from: usize,
    title: Seq<char>,
) -> Seq<Seq<(Seq<char>, usize)>> {
    match resolve_model(es, name, rscope) {
        None => bl,
        Some(i) => if !(0 <= i < bl.len()) || es[i].start == from || has_offset(bl[i], from) {
            bl
        } else {
            bl.update(i, bl[i].push((title, from)))
        },
    }
}

pub open spec fn add_refs(
    bl: Seq<Seq<(Seq<char>, usize)>>,
    es: Seq<EntityModel>,
    rscope: Seq<Seq<char>>,
    names: Seq<Seq<char>>,
    from: usize,
    title: Seq<char>,
) -> Seq<Seq<(Seq<char>, usize)>>
    decreases names.len(),
{
    if names.len() == 0 {
        bl
    } else {
        add_ref(add_refs(bl, es, rscope, names.drop_last(), from, title), es, rscope, names.last(), from, title)
    }
}

/// Backlinks after walking the children `i..` of `n` (and their subtrees), in
/// document order, each child recording the entities it names.
pub open spec fn backlinks_from(n: NodeModel, d: CodexModel, i: int, bl: Seq<Seq<(Seq<char>, usize)>>) -> Seq<Seq<(Seq<char>, usize)>>
    decreases n, n.children.len() - i,
{
    if i < 0 || i >= n.children.len() {
        bl
    } else {
        let c = n.children[i];
        let bl1 = add_refs(
            bl,
            d.ents,
            ref_scope(c, d.scopes, d.titles),
            names_of(c),
            c.heading_span.start,
            title_in(d.titles, c),
        );
        backlinks_from(n, d, i + 1, backlinks_from(c, d, 0, bl1))
    }
}

pub open spec fn empty_backlinks(n: nat) -> Seq<Seq<(Seq<char>, usize)>> {
    Seq::new(n, |i: int| Seq::<(Seq<char>, usize)>::empty())
}

/// Per entity, the nodes that reference it: (resolved title, heading offset),
/// in document order, each referrer once, never the entity itself.
pub open spec fn backlinks_of(root: NodeModel) -> Seq<Seq<(Seq<char>, usize)>> {
    let d = codex_model(root);
    backlinks_from(root, d, 0, empty_backlinks(d.ents.len()))
}


// ---- the codex in HTML -------------------------------------------------------------------

/// The last entity whose heading starts at `k`.
pub open spec fn by_offset(es: Seq<EntityModel>, k: usize) -> Option<int>
    decreases es.len(),
{
    if es.len() == 0 {
        None
    } else if es.last().start == k {
        Some(es.len() - 1)
    } else {
        by_offset(es.drop_last(), k)
    }
}

/// `<a class="ref" data-jump="OFFSET">`.
pub open spec fn ref_open(off: usize) -> Seq<char> {
    "<a class=\"ref\" data-jump=\""@ + nat_str(off as nat) + "\">"@
}

pub open spec fn ref_html(b: (Seq<char>, usize)) -> Seq<char> {
    ref_open(b.1) + escape(if b.0.len() == 0 {
        crate::render::untitled()
    } else {
        b.0
    }) + "</a>"@
}

/// The referrers, comma-separated, each a jump link.
pub open spec fn refs_html(bl: Seq<(Seq<char>, usize)>) -> Seq<char>
    decreases bl.len(),
{
    if bl.len() == 0 {
        seq![]
    } else if bl.len() == 1 {
        ref_html(bl[0])
    } else {
        refs_html(bl.drop_last()) + ", "@ + ref_html(bl.last())
    }
}

/// The "Referenced by" list of the entity whose heading starts at `start`, if any.
pub open spec fn backlinks_html(d: CodexModel, bls: Seq<Seq<(Seq<char>, usize)>>, start: usize) -> Seq<char> {
    match by_offset(d.ents, start) {
        Some(i) => if 0 <= i < bls.len() && bls[i].len() > 0 {
            "<div class=\"backlinks\">Referenced by "@ + refs_html(bls[i]) + "</div>"@
        } else {
            seq![]
        },
        None => seq![],
    }
}

/// The trimmed, non-empty parts.
pub open spec fn value_parts(ps: Seq<Seq<char>>) -> Seq<Seq<char>>
    decreases ps.len(),
{
    if ps.len() == 0 {
        seq![]
    } else {
        value_parts(ps.drop_last()) + if trim(ps.last()).len() > 0 {
            seq![trim(ps.last())]
        } else {
            seq![]
        }
    }
}

/// A metadata value part: a jump link if it names an entity, else plain.
pub open spec fn part_html(d: CodexModel, rscope: Seq<Seq<char>>, p: Seq<char>) -> Seq<char> {
    match resolve_model(d.ents, p, rscope) {
        Some(i) => ref_open(d.ents[i].start) + escape(p) + "</a>"@,
        None => escape(p),
    }
}

pub open spec fn parts_html(d: CodexModel, rscope: Seq<Seq<char>>, ps: Seq<Seq<char>>) -> Seq<char>
    decreases ps.len(),
{
    if ps.len() == 0 {
        seq![]
    } else if ps.len() == 1 {
        part_html(d, rscope, ps[0])
    } else {
        parts_html(d, rscope, ps.drop_last()) + ", "@ + part_html(d, rscope, ps.last())
    }
}

/// A metadata value's comma parts, each linked if it names an entity; empty
/// parts dropped.
pub open spec fn meta_value_html(d: CodexModel, rscope: Seq<Seq<char>>, v: Seq<char>) -> Seq<char> {
    parts_html(d, rscope, value_parts(split_char(v, ',')))
}

pub open spec fn dl_items(d: CodexModel, rscope: Seq<Seq<char>>, meta: Seq<(Seq<char>, Seq<char>)>) -> Seq<char>
    decreases meta.len(),
{
    if meta.len() == 0 {
        seq![]
    } else {
        let (k, v) = meta.last();
        dl_items(d, rscope, meta.drop_last()) + "<dt>"@ + escape(k) + "</dt><dd>"@ + (if k
            == crate::meta::id_key() {
            escape(v)
        } else {
            meta_value_html(d, rscope, v)
        }) + "</dd>"@
    }
}

/// Heading level of an entry at `depth`: sections h2, entities h3, deeper
/// nesting steps down, capped at h6.
pub open spec fn entry_level(depth: nat) -> nat {
    if depth + 2 > 6 {
        6
    } else {
        depth + 2
    }
}

/// One codex entry: name, metadata list, prose, backlinks, nested entries.
pub open spec fn entry_html(n: NodeModel, depth: nat, ctx: CtxModel, d: CodexModel, bls: Seq<Seq<(Seq<char>, usize)>>) -> Seq<char>
    decreases n, 1nat, 0int,
{
    h_open(entry_level(depth)) + escape(display_title(n.title, ctx)) + h_close(entry_level(depth))
        + seq!['\n'] + (if n.meta.len() > 0 {
        "<dl>"@ + dl_items(d, scope_at(d.scopes, n.heading_span.start), n.meta) + "</dl>"@
    } else {
        seq![]
    }) + html_blocks(n.body, ctx, d.links) + backlinks_html(d, bls, n.heading_span.start)
        + entry_kids(n, depth, ctx, d, bls, n.children.len() as int)
}

pub open spec fn entry_kids(n: NodeModel, depth: nat, ctx: CtxModel, d: CodexModel, bls: Seq<Seq<(Seq<char>, usize)>>, i: int) -> Seq<char>
    decreases n, 0nat, i,
{
    if i <= 0 || i > n.children.len() {
        seq![]
    } else {
        entry_kids(n, depth, ctx, d, bls, i - 1) + "<article class=\"entity\">"@ + entry_html(
            n.children[i - 1],
            depth + 1,
            child_ctx(n, ctx, i - 1),
            d,
            bls,
        ) + "</article>"@
    }
}

/// The codex of a subtree: each excluded child as a `<section>` (under a scope
/// breadcrumb of its visible ancestors' resolved titles, when it has any);
/// other children walked through.
pub open spec fn codex_html(n: NodeModel, ctx: CtxModel, d: CodexModel, bls: Seq<Seq<(Seq<char>, usize)>>, scope: Seq<Seq<char>>) -> Seq<char>
    decreases n, 1nat, 0int,
{
    codex_html_kids(n, ctx, d, bls, scope, n.children.len() as int)
}

pub open spec fn codex_html_kids(n: NodeModel, ctx: CtxModel, d: CodexModel, bls: Seq<Seq<(Seq<char>, usize)>>, scope: Seq<Seq<char>>, i: int) -> Seq<char>
    decreases n, 0nat, i,
{
    if i <= 0 || i > n.children.len() {
        seq![]
    } else {
        let c = n.children[i - 1];
        let cctx = child_ctx(n, ctx, i - 1);
        codex_html_kids(n, ctx, d, bls, scope, i - 1) + if c.visibility == Visibility::Excluded {
            "<section class=\"codex-section\">"@ + (if scope.len() > 0 {
                "<div class=\"codex-scope\">"@ + escape(join_with(scope, scope_sep())) + "</div>"@
            } else {
                seq![]
            }) + entry_html(c, 0, cctx, d, bls) + "</section>"@
        } else {
            codex_html(c, cctx, d, bls, pushed_scope(scope, c.title, cctx))
        }
    }
}

/// The model of [`render_codex_html`].
pub open spec fn codex_html_model(root: NodeModel) -> Seq<char> {
    codex_html(root, base_ctx(root), codex_model(root), backlinks_of(root), seq![])
}


// ---- executable index ---------------------------------------------------------------------

pub open spec fn scopes_model(v: Seq<(usize, Vec<Vec<char>>)>) -> Seq<(usize, Seq<Seq<char>>)> {
    v.map_values(|p: (usize, Vec<Vec<char>>)| (p.0, scope_model(p.1@)))
}

pub open spec fn bl_model(v: Seq<Vec<(Vec<char>, usize)>>) -> Seq<Seq<(Seq<char>, usize)>> {
    v.map_values(|b: Vec<(Vec<char>, usize)>| b@.map_values(|r: (Vec<char>, usize)| (r.0@, r.1)))
}

fn copy_chars(v: &Vec<char>) -> (r: Vec<char>)
    ensures
        r@ == v@,
{
    let r = slice_range(v.as_slice(), 0, v.len());
    assert(r@ =~= v@);
    r
}

fn copy_scope(v: &Vec<Vec<char>>) -> (r: Vec<Vec<char>>)
    ensures
        scope_model(r@) == scope_model(v@),
{
    let mut r: Vec<Vec<char>> = Vec::new();
    let mut i: usize = 0;
    while i < v.len()
        invariant
            i <= v@.len(),
            scope_model(r@) == scope_model(v@).take(i as int),
        decreases v@.len() - i,
    {
        let ghost r0 = r@;
        let x = copy_chars(&v[i]);
        r.push(x);
        assert(scope_model(r@) =~= scope_model(r0).push(x@));
        assert(scope_model(v@).take(i + 1) =~= scope_model(v@).take(i as int).push(scope_model(v@)[i as int]));
        i += 1;
    }
    assert(scope_model(v@).take(v@.len() as int) =~= scope_model(v@));
    r
}

/// Record each heading's sits-in scope below `node`, in document order.
fn collect_scopes(node: &Node, ctx: &Ctx, scope: &Vec<Vec<char>>, out: &mut Vec<(usize, Vec<Vec<char>>)>)
    ensures
        scopes_model(final(out)@) == scopes_model(old(out)@) + scopes_from(node@, ctx@, scope_model(scope@), 0),
    decreases node,
{
    let ctxs = child_ctxs(node, ctx);
    let mut i: usize = 0;
    while i < node.children.len()
        invariant
            i <= node.children@.len(),
            ctxs@.len() == node.children@.len(),
            forall|k: int| 0 <= k < ctxs@.len() ==> (#[trigger] ctxs@[k])@ == child_ctx(node@, ctx@, k),
            scopes_model(old(out)@) + scopes_from(node@, ctx@, scope_model(scope@), 0)
                == scopes_model(out@) + scopes_from(node@, ctx@, scope_model(scope@), i as int),
        decreases node.children@.len() - i,
    {
        let child = &node.children[i];
        assert(node@.children[i as int] == child@);
        let ghost o0 = out@;
        let sc = copy_scope(scope);
        out.push((child.heading_span.start, sc));
        assert(scopes_model(out@) =~= scopes_model(o0).push((child@.heading_span.start, scope_model(scope@))));
        let t = str_chars(child.title.as_str());
        let st = substitute_exec(t.as_slice(), &ctxs[i]);
        let ft = fold_name(st.as_slice());
        let mut inner = copy_scope(scope);
        if !(child.visibility == Visibility::Excluded || ft.len() == 0) {
            let ghost i0 = inner@;
            inner.push(ft);
            assert(scope_model(inner@) =~= scope_model(i0).push(ft@));
        }
        assert(decreases_to!(node => node.children));
        assert(decreases_to!(node.children => node.children@));
        assert(decreases_to!(node.children@ => node.children@[i as int]));
        collect_scopes(child, &ctxs[i], &inner, out);
        i += 1;
    }
    assert(scopes_model(out@) + scopes_from(node@, ctx@, scope_model(scope@), i as int) =~= scopes_model(out@));
}

/// The scope recorded last for heading offset `k`, or the empty scope.
fn scope_at_exec(l: &Vec<(usize, Vec<Vec<char>>)>, k: usize) -> (r: Vec<Vec<char>>)
    ensures
        scope_model(r@) == scope_at(scopes_model(l@), k),
{
    let mut i = l.len();
    assert(scopes_model(l@).take(i as int) =~= scopes_model(l@));
    while i > 0
        invariant
            i <= l@.len(),
            scope_at(scopes_model(l@), k) == scope_at(scopes_model(l@).take(i as int), k),
        decreases i,
    {
        assert(scopes_model(l@).take(i as int).drop_last() =~= scopes_model(l@).take(i - 1));
        if l[i - 1].0 == k {
            return copy_scope(&l[i - 1].1);
        }
        i -= 1;
    }
    let r: Vec<Vec<char>> = Vec::new();
    assert(scope_model(r@) =~= seq![]);
    r
}

/// An entity of the codex index: heading offset, folded title, folded `id:`
/// (if any), and sits-in scope.
pub struct EntityInfo {
    pub start: usize,
    pub key: Vec<char>,
    pub id: Option<Vec<char>>,
    pub scope: Vec<Vec<char>>,
}

impl EntityInfo {
    pub open spec fn view(&self) -> EntityModel {
        EntityModel {
            start: self.start,
            key: self.key@,
            id: match self.id {
                Some(v) => Some(v@),
                None => None,
            },
            scope: scope_model(self.scope@),
        }
    }
}

pub open spec fn infos_model(v: Seq<EntityInfo>) -> Seq<EntityModel> {
    v.map_values(|e: EntityInfo| e@)
}

fn entity_info(node: &Node, scopes: &Vec<(usize, Vec<Vec<char>>)>) -> (r: EntityInfo)
    ensures
        r@ == entity_model(node@, scopes_model(scopes@)),
{
    let t = str_chars(node.title.as_str());
    let key = fold_name(t.as_slice());
    let id = match id_of_exec(node) {
        Some(v) => Some(fold_name(v.as_slice())),
        None => None,
    };
    let scope = scope_at_exec(scopes, node.heading_span.start);
    EntityInfo { start: node.heading_span.start, key, id, scope }
}

/// Every excluded (`%`) heading with a title below `node`, in document order.
fn collect_entities(node: &Node, scopes: &Vec<(usize, Vec<Vec<char>>)>, out: &mut Vec<EntityInfo>)
    ensures
        infos_model(final(out)@) == infos_model(old(out)@) + entities_of(node@).map_values(
            |e: NodeModel| entity_model(e, scopes_model(scopes@)),
        ),
    decreases node,
{
    let ghost f = |e: NodeModel| entity_model(e, scopes_model(scopes@));
    let mut i: usize = 0;
    while i < node.children.len()
        invariant
            i <= node.children@.len(),
            f == |e: NodeModel| entity_model(e, scopes_model(scopes@)),
            infos_model(out@) == infos_model(old(out)@) + entities_kids(node@, i as int).map_values(f),
        decreases node.children@.len() - i,
    {
        let child = &node.children[i];
        assert(node@.children[i as int] == child@);
        let ghost o0 = out@;
        if child.visibility == Visibility::Excluded && !child.title.as_str().is_empty() {
            let e = entity_info(child, scopes);
            out.push(e);
        }
        let ghost o1 = out@;
        assert(decreases_to!(node => node.children));
        assert(decreases_to!(node.children => node.children@));
        assert(decreases_to!(node.children@ => node.children@[i as int]));
        collect_entities(child, scopes, out);
        proof {
            let a = entities_kids(node@, i as int);
            let c = child@;
            let b = if c.visibility == Visibility::Excluded && c.title.len() > 0 {
                seq![c]
            } else {
                seq![]
            };
            let cc = entities_of(c);
            assert(entities_kids(node@, i + 1) == a + b + cc);
            assert((a + b + cc).map_values(f) =~= a.map_values(f) + b.map_values(f) + cc.map_values(f));
            assert(infos_model(o1) =~= infos_model(o0) + b.map_values(f));
        }
        assert(infos_model(out@) =~= infos_model(old(out)@) + entities_kids(node@, i + 1).map_values(f));
        i += 1;
    }
}


pub open spec fn names_model(v: Seq<Vec<char>>) -> Seq<Seq<char>> {
    v.map_values(|l: Vec<char>| l@)
}

fn inline_links(x: &Inline, out: &mut Vec<Vec<char>>)
    ensures
        names_model(final(out)@) == names_model(old(out)@) + inline_link_names(x@),
    decreases x,
{
    match x {
        Inline::Link(t) => {
            let ghost o0 = out@;
            out.push(str_chars(t.as_str()));
            assert(names_model(out@) =~= names_model(o0) + inline_link_names(x@));
        },
        Inline::Bold(cs) => collect_links(cs, out),
        Inline::Italic(cs) => collect_links(cs, out),
        Inline::Insert(cs) => collect_links(cs, out),
        Inline::Delete(cs) => collect_links(cs, out),
        Inline::Sub { old: o, new } => {
            collect_links(o, out);
            collect_links(new, out);
            assert(names_model(out@) =~= names_model(old(out)@) + inline_link_names(x@));
        },
        Inline::Text(_) => {
            assert(names_model(out@) =~= names_model(old(out)@) + inline_link_names(x@));
        },
        Inline::Comment(_) => {
            assert(names_model(out@) =~= names_model(old(out)@) + inline_link_names(x@));
        },
    }
}

/// Collect the targets of every `[[wikilink]]` in an inline sequence,
/// recursing into nested markup.
fn collect_links(spans: &Vec<Inline>, out: &mut Vec<Vec<char>>)
    ensures
        names_model(final(out)@) == names_model(old(out)@) + link_names(inlines_model(spans@)),
    decreases spans,
{
    let ghost m = inlines_model(spans@);
    let mut i: usize = 0;
    while i < spans.len()
        invariant
            i <= spans@.len(),
            m == inlines_model(spans@),
            names_model(out@) == names_model(old(out)@) + link_names(m.take(i as int)),
        decreases spans@.len() - i,
    {
        assert(decreases_to!(spans => spans@));
        assert(decreases_to!(spans@ => spans@[i as int]));
        inline_links(&spans[i], out);
        assert(m.take(i + 1).drop_last() =~= m.take(i as int));
        assert(m.take(i + 1).last() == spans@[i as int]@);
        assert(names_model(out@) =~= names_model(old(out)@) + link_names(m.take(i + 1)));
        i += 1;
    }
    assert(m.take(spans@.len() as int) =~= m);
}

/// The names a node refers to: metadata parts (but `id`), then prose wikilinks.
fn node_names(node: &Node) -> (r: Vec<Vec<char>>)
    ensures
        names_model(r@) == names_of(node@),
{
    let mut out: Vec<Vec<char>> = Vec::new();
    let ghost mm = meta_model(node.meta@);
    let mut j: usize = 0;
    assert(names_model(out@) =~= seq![]);
    while j < node.meta.len()
        invariant
            j <= node.meta@.len(),
            mm == meta_model(node.meta@),
            names_model(out@) == meta_names(mm.take(j as int)),
        decreases node.meta@.len() - j,
    {
        assert(mm.take(j + 1).drop_last() =~= mm.take(j as int));
        let ghost o0 = out@;
        if !crate::meta::is_self_naming(node.meta[j].0.as_str()) {
            let v = str_chars(node.meta[j].1.as_str());
            let parts = split_on(v.as_slice(), ',');
            let mut k: usize = 0;
            while k < parts.len()
                invariant
                    k <= parts@.len(),
                    names_model(out@) == names_model(o0) + parts@.map_values(|l: Vec<char>| l@).take(k as int),
                decreases parts@.len() - k,
            {
                let ghost o1 = out@;
                let x = copy_chars(&parts[k]);
                out.push(x);
                assert(names_model(out@) =~= names_model(o1).push(x@));
                assert(parts@.map_values(|l: Vec<char>| l@).take(k + 1) =~= parts@.map_values(
                    |l: Vec<char>| l@,
                ).take(k as int).push(x@));
                k += 1;
            }
            assert(parts@.map_values(|l: Vec<char>| l@).take(parts@.len() as int) =~= parts@.map_values(
                |l: Vec<char>| l@,
            ));
        }
        assert(names_model(out@) =~= meta_names(mm.take(j + 1)));
        j += 1;
    }
    assert(mm.take(node.meta@.len() as int) =~= mm);
    let ghost o2 = out@;
    let ghost bm = blocks_model(node.body@);
    let mut b: usize = 0;
    while b < node.body.len()
        invariant
            b <= node.body@.len(),
            bm == blocks_model(node.body@),
            names_model(out@) == names_model(o2) + body_names(bm.take(b as int)),
        decreases node.body@.len() - b,
    {
        assert(bm.take(b + 1).drop_last() =~= bm.take(b as int));
        assert(bm.take(b + 1).last() == block_model(&node.body@[b as int]));
        match &node.body[b] {
            Block::Para(spans) => collect_links(spans, &mut out),
            Block::LineComment(_) => {},
        }
        assert(names_model(out@) =~= names_model(o2) + body_names(bm.take(b + 1)));
        b += 1;
    }
    assert(bm.take(node.body@.len() as int) =~= bm);
    out
}

fn eq_scope(a: &Vec<Vec<char>>, b: &Vec<Vec<char>>, n: usize) -> (r: bool)
    requires
        n <= a@.len(),
        n <= b@.len(),
    ensures
        r == (scope_model(a@).subrange(0, n as int) == scope_model(b@).subrange(0, n as int)),
{
    let mut i: usize = 0;
    while i < n
        invariant
            i <= n <= a@.len(),
            n <= b@.len(),
            forall|j: int| 0 <= j < i ==> a@[j]@ == b@[j]@,
        decreases n - i,
    {
        if !eq_chars(a[i].as_slice(), b[i].as_slice()) {
            assert(scope_model(a@).subrange(0, n as int)[i as int] != scope_model(b@).subrange(0, n as int)[i as int]);
            return false;
        }
        i += 1;
    }
    assert(scope_model(a@).subrange(0, n as int) =~= scope_model(b@).subrange(0, n as int));
    true
}

/// Is `p` a prefix of `s`?
fn starts_with_scope(s: &Vec<Vec<char>>, p: &Vec<Vec<char>>) -> (r: bool)
    ensures
        r == is_prefix(scope_model(p@), scope_model(s@)),
{
    if p.len() > s.len() {
        return false;
    }
    let r = eq_scope(s, p, p.len());
    assert(scope_model(p@).subrange(0, p@.len() as int) =~= scope_model(p@));
    r
}

/// The codex cross-reference index of a document.
pub struct CodexIndex {
    pub entities: Vec<EntityInfo>,
    pub scopes: Vec<(usize, Vec<Vec<char>>)>,
    pub titles: Vec<(usize, Vec<char>)>,
    pub links: Vec<LinkEntry>,
    pub backlinks: Vec<Vec<(Vec<char>, usize)>>,
}

impl CodexIndex {
    pub open spec fn data(&self) -> CodexModel {
        CodexModel {
            ents: infos_model(self.entities@),
            scopes: scopes_model(self.scopes@),
            titles: titles_model(self.titles@),
            links: entries_model(self.links@),
        }
    }

    /// Resolve a name to an entity index, as seen from `rscope`.
    pub fn resolve_idx(&self, name: &[char], rscope: &Vec<Vec<char>>) -> (r: Option<usize>)
        ensures
            match resolve_model(self.data().ents, name@, scope_model(rscope@)) {
                None => r is None,
                Some(i) => r matches Some(x) && x as int == i && 0 <= i < self.entities@.len(),
            },
    {
        let key = fold_name(name);
        let ghost es = self.data().ents;
        let ghost rs = scope_model(rscope@);
        let n = self.entities.len();
        let mut i: usize = 0;
        while i < n
            invariant
                n == self.entities@.len(),
                i <= n,
                es == self.data().ents,
                key@ == fold(name@),
                first_ent_id(es, key@, 0) == first_ent_id(es, key@, i as int),
            decreases n - i,
        {
            match &self.entities[i].id {
                Some(v) => {
                    if eq_chars(v.as_slice(), key.as_slice()) {
                        assert(es[i as int] == self.entities@[i as int]@);
                        assert(first_ent_id(es, key@, i as int) == Some(i as int));
                        return Some(i);
                    }
                },
                None => {},
            }
            assert(es[i as int] == self.entities@[i as int]@);
            i += 1;
        }
        let mut first: Option<usize> = None;
        let mut best: Option<usize> = None;
        let mut j: usize = 0;
        while j < n
            invariant
                n == self.entities@.len(),
                j <= n,
                es == self.data().ents,
                rs == scope_model(rscope@),
                key@ == fold(name@),
                first_ent_id(es, key@, 0) is None,
                match first {
                    None => first_ent_key(es, key@, 0) == first_ent_key(es, key@, j as int),
                    Some(f) => first_ent_key(es, key@, 0) == Some(f as int) && f < n,
                },
                best_from(es, key@, rs, 0, None) == best_from(es, key@, rs, j as int, match best {
                    None => None,
                    Some(b) => Some(b as int),
                }),
                best matches Some(b) ==> b < j && first is Some,
            decreases n - j,
        {
            let e = &self.entities[j];
            assert(es[j as int] == e@);
            if eq_chars(e.key.as_slice(), key.as_slice()) {
                if first.is_none() {
                    first = Some(j);
                }
                if starts_with_scope(rscope, &e.scope) {
                    let better = match best {
                        None => true,
                        Some(b) => {
                            assert(es[b as int] == self.entities@[b as int]@);
                            e.scope.len() >= self.entities[b].scope.len()
                        },
                    };
                    if better {
                        best = Some(j);
                    }
                }
            }
            j += 1;
        }
        match best {
            Some(b) => Some(b),
            None => first,
        }
    }

    /// The scope a reference inside `node` sees.
    pub fn ref_scope(&self, node: &Node) -> (r: Vec<Vec<char>>)
        ensures
            scope_model(r@) == ref_scope(node@, self.data().scopes, self.data().titles),
    {
        let mut s = scope_at_exec(&self.scopes, node.heading_span.start);
        let tt = match lookup_title_exec(&self.titles, node.heading_span.start) {
            Some(x) => x,
            None => str_chars(node.title.as_str()),
        };
        let t = fold_name(tt.as_slice());
        if node.visibility != Visibility::Excluded && t.len() > 0 {
            let ghost s0 = s@;
            s.push(t);
            assert(scope_model(s@) =~= scope_model(s0).push(t@));
        }
        s
    }

    /// Record that the node at `from` names `name`.
    fn add_ref(
        &self,
        bl: &mut Vec<Vec<(Vec<char>, usize)>>,
        rscope: &Vec<Vec<char>>,
        name: &[char],
        from: usize,
        title: &Vec<char>,
    )
        requires
            old(bl)@.len() == self.entities@.len(),
        ensures
            final(bl)@.len() == old(bl)@.len(),
            bl_model(final(bl)@) == add_ref(bl_model(old(bl)@), self.data().ents, scope_model(rscope@), name@, from, title@),
    {
        match self.resolve_idx(name, rscope) {
            None => {},
            Some(i) => {
                assert(self.data().ents[i as int] == self.entities@[i as int]@);
                if self.entities[i].start == from {
                    return ;
                }
                let ghost bm = bl_model(bl@);
                let mut j: usize = 0;
                while j < bl[i].len()
                    invariant
                        i < bl@.len(),
                        bm == bl_model(bl@),
                        bl@ == old(bl)@,
                        bl@.len() == self.entities@.len(),
                        resolve_model(self.data().ents, name@, scope_model(rscope@)) == Some(i as int),
                        self.data().ents[i as int].start != from,
                        j <= bl@[i as int]@.len(),
                        forall|k: int| 0 <= k < j ==> (#[trigger] bl@[i as int]@[k]).1 != from,
                    decreases bl@[i as int]@.len() - j,
                {
                    if bl[i][j].1 == from {
                        assert(bm[i as int][j as int].1 == from);
                        assert(has_offset(bm[i as int], from));
                        return ;
                    }
                    j += 1;
                }
                assert(!has_offset(bm[i as int], from)) by {
                    if has_offset(bm[i as int], from) {
                        let k = choose|k: int| 0 <= k < bm[i as int].len() && (#[trigger] bm[i as int][k]).1 == from;
                        assert(bl@[i as int]@[k].1 == from);
                    }
                }
                let t = copy_chars(title);
                let ghost b0 = bl@;
                bl[i].push((t, from));
                assert(bl@[i as int]@ == b0[i as int]@.push((t, from)));
                assert(bl@ == b0.update(i as int, bl@[i as int]));
                assert(bl_model(bl@)[i as int] =~= bm[i as int].push((title@, from)));
                assert(bl_model(bl@) =~= bm.update(i as int, bm[i as int].push((title@, from))));
            },
        }
    }

    /// Walk the children of `node` (and their subtrees) in document order; a
    /// name that resolves to an entity records a backlink from the holding node.
    fn walk_backlinks(&self, node: &Node, bl: &mut Vec<Vec<(Vec<char>, usize)>>)
        requires
            old(bl)@.len() == self.entities@.len(),
        ensures
            final(bl)@.len() == old(bl)@.len(),
            bl_model(final(bl)@) == backlinks_from(node@, self.data(), 0, bl_model(old(bl)@)),
        decreases node,
    {
        let mut i: usize = 0;
        while i < node.children.len()
            invariant
                i <= node.children@.len(),
                bl@.len() == self.entities@.len(),
                backlinks_from(node@, self.data(), 0, bl_model(old(bl)@)) == backlinks_from(
                    node@,
                    self.data(),
                    i as int,
                    bl_model(bl@),
                ),
            decreases node.children@.len() - i,
        {
            let child = &node.children[i];
            assert(node@.children[i as int] == child@);
            let from = child.heading_span.start;
            let rscope = self.ref_scope(child);
            let names = node_names(child);
            let title = match lookup_title_exec(&self.titles, from) {
                Some(x) => x,
                None => str_chars(child.title.as_str()),
            };
            assert(title@ == title_in(self.data().titles, child@));
            let ghost b0 = bl_model(bl@);
            let ghost nm = names_model(names@);
            let mut k: usize = 0;
            while k < names.len()
                invariant
                    k <= names@.len(),
                    nm == names_model(names@),
                    bl@.len() == self.entities@.len(),
                    bl_model(bl@) == add_refs(b0, self.data().ents, scope_model(rscope@), nm.take(k as int), from, title@),
                decreases names@.len() - k,
            {
                self.add_ref(bl, &rscope, names[k].as_slice(), from, &title);
                assert(nm.take(k + 1).drop_last() =~= nm.take(k as int));
                assert(nm.take(k + 1).last() == names@[k as int]@);
                k += 1;
            }
            assert(nm.take(names@.len() as int) =~= nm);
            assert(decreases_to!(node => node.children));
            assert(decreases_to!(node.children => node.children@));
            assert(decreases_to!(node.children@ => node.children@[i as int]));
            self.walk_backlinks(child, bl);
            i += 1;
        }
    }

    /// Build the codex cross-reference index of a document.
    pub fn build(root: &Node) -> (r: CodexIndex)
        ensures
            r.data() == codex_model(root@),
            bl_model(r.backlinks@) == backlinks_of(root@),
    {
        let ctx = base_ctx_exec(root);
        let empty: Vec<Vec<char>> = Vec::new();
        assert(scope_model(empty@) =~= seq![]);
        let mut scopes: Vec<(usize, Vec<Vec<char>>)> = Vec::new();
        collect_scopes(root, &ctx, &empty, &mut scopes);
        assert(scopes_model(scopes@) =~= scopes_list(root@));
        let mut entities: Vec<EntityInfo> = Vec::new();
        collect_entities(root, &scopes, &mut entities);
        assert(infos_model(entities@) =~= entity_models(root@));
        let mut titles: Vec<(usize, Vec<char>)> = Vec::new();
        crate::render::resolve_titles_kids(root, &ctx, &mut titles);
        assert(titles_model(titles@) =~= titles_list(root@));
        let links = link_titles(root);
        let n = entities.len();
        let mut idx = CodexIndex { entities, scopes, titles, links, backlinks: Vec::new() };
        assert(idx.data() == codex_model(root@));
        let mut bl: Vec<Vec<(Vec<char>, usize)>> = Vec::new();
        let mut k: usize = 0;
        while k < n
            invariant
                k <= n,
                bl@.len() == k,
                forall|j: int| 0 <= j < k ==> (#[trigger] bl@[j])@.len() == 0,
            decreases n - k,
        {
            bl.push(Vec::new());
            k += 1;
        }
        assert forall|j: int| 0 <= j < n implies #[trigger] bl_model(bl@)[j] == empty_backlinks(
            n as nat,
        )[j] by {
            assert(bl_model(bl@)[j] =~= empty_backlinks(n as nat)[j]);
        }
        assert(bl_model(bl@) =~= empty_backlinks(n as nat));
        idx.walk_backlinks(root, &mut bl);
        idx.backlinks = bl;
        idx
    }

    /// Resolve one metadata value part to the target entity's heading offset.
    pub fn resolve(&self, part: &[char], rscope: &Vec<Vec<char>>) -> (r: Option<usize>)
        ensures
            match resolve_model(self.data().ents, part@, scope_model(rscope@)) {
                None => r is None,
                Some(i) => r == Some(self.data().ents[i].start),
            },
    {
        match self.resolve_idx(part, rscope) {
            None => None,
            Some(i) => {
                let ghost ri = resolve_model(self.data().ents, part@, scope_model(rscope@));
                assert(ri == Some(i as int));
                assert(self.data().ents[i as int] == self.entities@[i as int]@);
                assert(self.data().ents[i as int].start == self.entities@[i as int].start);
                Some(self.entities[i].start)
            },
        }
    }
}


fn push_ref_open(out: &mut Vec<char>, off: usize)
    ensures
        final(out)@ == old(out)@ + ref_open(off),
{
    push_lit(out, "<a class=\"ref\" data-jump=\"");
    let d = crate::interp::nat_digits(off as u64);
    crate::text::push_all(out, d.as_slice());
    push_lit(out, "\">");
    assert(out@ =~= old(out)@ + ref_open(off));
}

/// The trimmed, non-empty comma parts of a metadata value.
fn value_parts_exec(v: &[char]) -> (r: Vec<Vec<char>>)
    ensures
        names_model(r@) == value_parts(split_char(v@, ',')),
{
    let parts = split_on(v, ',');
    let ghost pm = parts@.map_values(|l: Vec<char>| l@);
    let mut out: Vec<Vec<char>> = Vec::new();
    let mut i: usize = 0;
    assert(names_model(out@) =~= seq![]);
    while i < parts.len()
        invariant
            i <= parts@.len(),
            pm == parts@.map_values(|l: Vec<char>| l@),
            names_model(out@) == value_parts(pm.take(i as int)),
        decreases parts@.len() - i,
    {
        assert(pm.take(i + 1).drop_last() =~= pm.take(i as int));
        let t = trimmed(parts[i].as_slice());
        if t.len() > 0 {
            let ghost o0 = out@;
            out.push(t);
            assert(names_model(out@) =~= names_model(o0).push(t@));
        }
        assert(names_model(out@) =~= value_parts(pm.take(i + 1)));
        i += 1;
    }
    assert(pm.take(parts@.len() as int) =~= pm);
    out
}

impl CodexIndex {
    fn part_html_exec(&self, out: &mut Vec<char>, rscope: &Vec<Vec<char>>, p: &[char])
        ensures
            final(out)@ == old(out)@ + part_html(self.data(), scope_model(rscope@), p@),
    {
        match self.resolve(p, rscope) {
            Some(off) => {
                push_ref_open(out, off);
                crate::text::push_escaped(out, p);
                push_lit(out, "</a>");
                proof {
                    let i = resolve_model(self.data().ents, p@, scope_model(rscope@))->0;
                    assert(self.data().ents[i].start == off);
                }
                assert(out@ =~= old(out)@ + part_html(self.data(), scope_model(rscope@), p@));
            },
            None => {
                crate::text::push_escaped(out, p);
            },
        }
    }

    /// A metadata value's comma parts, each linked if it names an entity.
    fn meta_value_html(&self, out: &mut Vec<char>, rscope: &Vec<Vec<char>>, v: &[char])
        ensures
            final(out)@ == old(out)@ + meta_value_html(self.data(), scope_model(rscope@), v@),
    {
        let parts = value_parts_exec(v);
        let ghost pm = names_model(parts@);
        let mut i: usize = 0;
        while i < parts.len()
            invariant
                i <= parts@.len(),
                pm == names_model(parts@),
                out@ == old(out)@ + parts_html(self.data(), scope_model(rscope@), pm.take(i as int)),
            decreases parts@.len() - i,
        {
            if i > 0 {
                push_lit(out, ", ");
            }
            self.part_html_exec(out, rscope, parts[i].as_slice());
            assert(pm.take(i + 1).drop_last() =~= pm.take(i as int));
            if i == 0 {
                assert(pm.take(1) =~= seq![pm[0]]);
            }
            assert(out@ =~= old(out)@ + parts_html(self.data(), scope_model(rscope@), pm.take(i + 1)));
            i += 1;
        }
        assert(pm.take(parts@.len() as int) =~= pm);
    }

    fn dl_items_exec(&self, out: &mut Vec<char>, rscope: &Vec<Vec<char>>, meta: &Vec<(String, String)>)
        ensures
            final(out)@ == old(out)@ + dl_items(self.data(), scope_model(rscope@), meta_model(meta@)),
    {
        let ghost mm = meta_model(meta@);
        let mut j: usize = 0;
        while j < meta.len()
            invariant
                j <= meta@.len(),
                mm == meta_model(meta@),
                out@ == old(out)@ + dl_items(self.data(), scope_model(rscope@), mm.take(j as int)),
            decreases meta@.len() - j,
        {
            let k = str_chars(meta[j].0.as_str());
            let v = str_chars(meta[j].1.as_str());
            push_lit(out, "<dt>");
            crate::text::push_escaped(out, k.as_slice());
            push_lit(out, "</dt><dd>");
            if crate::meta::is_self_naming_chars(k.as_slice()) {
                crate::text::push_escaped(out, v.as_slice());
            } else {
                self.meta_value_html(out, rscope, v.as_slice());
            }
            push_lit(out, "</dd>");
            assert(mm.take(j + 1).drop_last() =~= mm.take(j as int));
            assert(out@ =~= old(out)@ + dl_items(self.data(), scope_model(rscope@), mm.take(j + 1)));
            j += 1;
        }
        assert(mm.take(meta@.len() as int) =~= mm);
    }

    /// The last entity whose heading starts at `k`.
    fn by_offset_exec(&self, k: usize) -> (r: Option<usize>)
        ensures
            match by_offset(self.data().ents, k) {
                None => r is None,
                Some(i) => r matches Some(x) && x as int == i && 0 <= i < self.entities@.len(),
            },
    {
        let ghost es = self.data().ents;
        let mut i = self.entities.len();
        assert(es.take(i as int) =~= es);
        while i > 0
            invariant
                i <= self.entities@.len(),
                es == self.data().ents,
                by_offset(es, k) == by_offset(es.take(i as int), k),
            decreases i,
        {
            assert(es.take(i as int).drop_last() =~= es.take(i - 1));
            assert(es[i - 1] == self.entities@[i - 1]@);
            if self.entities[i - 1].start == k {
                return Some(i - 1);
            }
            i -= 1;
        }
        None
    }

    fn backlinks_html_exec(&self, out: &mut Vec<char>, start: usize)
        ensures
            final(out)@ == old(out)@ + backlinks_html(self.data(), bl_model(self.backlinks@), start),
    {
        let ghost bm = bl_model(self.backlinks@);
        match self.by_offset_exec(start) {
            Some(i) => {
                if i < self.backlinks.len() && self.backlinks[i].len() > 0 {
                    let bl = &self.backlinks[i];
                    let ghost rm = bm[i as int];
                    assert(rm == bl@.map_values(|r: (Vec<char>, usize)| (r.0@, r.1)));
                    push_lit(out, "<div class=\"backlinks\">Referenced by ");
                    let ghost o0 = out@;
                    let mut n: usize = 0;
                    while n < bl.len()
                        invariant
                            n <= bl@.len(),
                            rm == bl@.map_values(|r: (Vec<char>, usize)| (r.0@, r.1)),
                            out@ == o0 + refs_html(rm.take(n as int)),
                        decreases bl@.len() - n,
                    {
                        if n > 0 {
                            push_lit(out, ", ");
                        }
                        push_ref_open(out, bl[n].1);
                        if bl[n].0.len() == 0 {
                            push_lit(out, "(untitled)");
                            proof {
                                reveal_strlit("(untitled)");
                            }
                            let ghost u: Seq<char> = "(untitled)"@;
                            assert(u =~= crate::render::untitled());
                            assert(escape(crate::render::untitled()) =~= crate::render::untitled()) by {
                                reveal_with_fuel(escape, 11);
                            }
                        } else {
                            crate::text::push_escaped(out, bl[n].0.as_slice());
                        }
                        push_lit(out, "</a>");
                        assert(rm.take(n + 1).drop_last() =~= rm.take(n as int));
                        if n == 0 {
                            assert(rm.take(1) =~= seq![rm[0]]);
                        }
                        assert(out@ =~= o0 + refs_html(rm.take(n + 1)));
                        n += 1;
                    }
                    assert(rm.take(bl@.len() as int) =~= rm);
                    push_lit(out, "</div>");
                    assert(out@ =~= old(out)@ + backlinks_html(self.data(), bm, start));
                } else {
                    assert(out@ =~= old(out)@ + backlinks_html(self.data(), bm, start));
                }
            },
            None => {
                assert(out@ =~= old(out)@ + backlinks_html(self.data(), bm, start));
            },
        }
    }
}


impl CodexIndex {
    /// One codex entry at heading level `lvl` (`entry_level(depth)`).
    fn entry_html_exec(&self, node: &Node, lvl: usize, Ghost(depth): Ghost<nat>, ctx: &Ctx, out: &mut Vec<char>)
        requires
            lvl == entry_level(depth),
        ensures
            final(out)@ == old(out)@ + entry_html(node@, depth, ctx@, self.data(), bl_model(self.backlinks@)),
        decreases node,
    {
        let ghost d = self.data();
        let ghost bls = bl_model(self.backlinks@);
        push_h(out, false, lvl);
        let mut t: Vec<char> = Vec::new();
        push_display_title(&mut t, &node.title, ctx);
        crate::text::push_escaped(out, t.as_slice());
        push_h(out, true, lvl);
        out.push('\n');
        let ghost o0 = out@;
        if node.meta.len() > 0 {
            let rscope = scope_at_exec(&self.scopes, node.heading_span.start);
            push_lit(out, "<dl>");
            self.dl_items_exec(out, &rscope, &node.meta);
            push_lit(out, "</dl>");
        }
        assert(out@ =~= o0 + (if node@.meta.len() > 0 {
            "<dl>"@ + dl_items(d, scope_at(d.scopes, node@.heading_span.start), node@.meta) + "</dl>"@
        } else {
            seq![]
        }));
        html_blocks_exec(&node.body, ctx, &self.links, out);
        self.backlinks_html_exec(out, node.heading_span.start);
        let ghost o1 = out@;
        let clvl: usize = if lvl < 6 { lvl + 1 } else { 6 };
        let ctxs = child_ctxs(node, ctx);
        let mut i: usize = 0;
        while i < node.children.len()
            invariant
                i <= node.children@.len(),
                ctxs@.len() == node.children@.len(),
                forall|k: int| 0 <= k < ctxs@.len() ==> (#[trigger] ctxs@[k])@ == child_ctx(node@, ctx@, k),
                clvl == entry_level(depth + 1),
                d == self.data(),
                bls == bl_model(self.backlinks@),
                out@ == o1 + entry_kids(node@, depth, ctx@, d, bls, i as int),
            decreases node.children@.len() - i,
        {
            assert(decreases_to!(node => node.children));
            assert(decreases_to!(node.children => node.children@));
            assert(decreases_to!(node.children@ => node.children@[i as int]));
            push_lit(out, "<article class=\"entity\">");
            self.entry_html_exec(&node.children[i], clvl, Ghost(depth + 1), &ctxs[i], out);
            push_lit(out, "</article>");
            assert(node@.children[i as int] == node.children@[i as int]@);
            assert(out@ =~= o1 + entry_kids(node@, depth, ctx@, d, bls, i + 1));
            i += 1;
        }
        assert(out@ =~= old(out)@ + entry_html(node@, depth, ctx@, d, bls));
    }

    /// The codex of a subtree: each excluded child as a section under its
    /// scope breadcrumb; other children walked through.
    fn codex_html_exec(&self, node: &Node, ctx: &Ctx, scope: &Vec<Vec<char>>, out: &mut Vec<char>)
        ensures
            final(out)@ == old(out)@ + codex_html(node@, ctx@, self.data(), bl_model(self.backlinks@), scope_model(scope@)),
        decreases node,
    {
        let ghost d = self.data();
        let ghost bls = bl_model(self.backlinks@);
        let ctxs = child_ctxs(node, ctx);
        let mut i: usize = 0;
        while i < node.children.len()
            invariant
                i <= node.children@.len(),
                ctxs@.len() == node.children@.len(),
                forall|k: int| 0 <= k < ctxs@.len() ==> (#[trigger] ctxs@[k])@ == child_ctx(node@, ctx@, k),
                d == self.data(),
                bls == bl_model(self.backlinks@),
                out@ == old(out)@ + codex_html_kids(node@, ctx@, d, bls, scope_model(scope@), i as int),
            decreases node.children@.len() - i,
        {
            let child = &node.children[i];
            assert(node@.children[i as int] == child@);
            if child.visibility == Visibility::Excluded {
                push_lit(out, "<section class=\"codex-section\">");
                let ghost o0 = out@;
                if scope.len() > 0 {
                    push_lit(out, "<div class=\"codex-scope\">");
                    let sep = vec![' ', '/', ' '];
                    assert(sep@ =~= scope_sep());
                    let mut j: Vec<char> = Vec::new();
                    push_joined(&mut j, scope, sep.as_slice());
                    assert(j@ =~= join_with(scope_model(scope@), scope_sep()));
                    crate::text::push_escaped(out, j.as_slice());
                    push_lit(out, "</div>");
                }
                assert(out@ =~= o0 + (if scope@.len() > 0 {
                    "<div class=\"codex-scope\">"@ + escape(join_with(scope_model(scope@), scope_sep())) + "</div>"@
                } else {
                    seq![]
                }));
                self.entry_html_exec(child, 2, Ghost(0), &ctxs[i], out);
                push_lit(out, "</section>");
            } else {
                let inner = pushed_scope_exec(scope, &child.title, &ctxs[i]);
                assert(decreases_to!(node => node.children));
                assert(decreases_to!(node.children => node.children@));
                assert(decreases_to!(node.children@ => node.children@[i as int]));
                self.codex_html_exec(child, &ctxs[i], &inner, out);
            }
            assert(out@ =~= old(out)@ + codex_html_kids(node@, ctx@, d, bls, scope_model(scope@), i + 1));
            i += 1;
        }
    }
}

/// The codex as HTML: every excluded subtree as an entity index, its metadata
/// values linked to the entities they name, each entity with the list of
/// nodes that reference it.
pub fn render_codex_html(root: &Node) -> (r: String)
    ensures
        r@ == codex_html_model(root@),
{
    let idx = CodexIndex::build(root);
    let ctx = base_ctx_exec(root);
    let empty: Vec<Vec<char>> = Vec::new();
    assert(scope_model(empty@) =~= seq![]);
    let mut out: Vec<char> = Vec::new();
    idx.codex_html_exec(root, &ctx, &empty, &mut out);
    assert(out@ =~= codex_html_model(root@));
    chars_to_string(out.as_slice())
}

} // verus!
