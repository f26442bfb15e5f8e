//! What the views show, stated against each other and against the tree:
//! the HTML manuscript prints the same text as the plain one; CriticMarkup
//! resolves the same way in both; the edit view writes every comment and
//! every subtree; the outline lists each heading's metadata keys; and the
//! codex heads each entry with all of its visible ancestors.

use vstd::prelude::*;
use crate::{BlockModel, InlineModel, NodeModel};
use crate::interp::CtxModel;
use crate::render::{
    LinkEntryModel, edit, edit_blocks, edit_kids, edit_meta, edit_pair, html_inlines,
    child_ctx, codex, codex_kids, indented_parts, inline_html, inline_print, meta_keys, outline,
    outline_head, outline_kids, print_inlines, pushed_scope, scope_sep,
};
use crate::interp::substitute;
use crate::Visibility;
use crate::text::{breaks, escape, join_with, occurs_at, repeat};

verus! {

// ---- HTML and plain print agree -----------------------------------------------------------

/// Inline spans with no visible styling: text and CriticMarkup only (no
/// bold, italic or wikilink among what prints).
pub open spec fn unstyled(spans: Seq<InlineModel>) -> bool
    decreases spans,
{
    if spans.len() == 0 {
        true
    } else {
        unstyled(spans.drop_last()) && unstyled_inline(spans.last())
    }
}

pub open spec fn unstyled_inline(x: InlineModel) -> bool
    decreases x,
{
    match x {
        InlineModel::Text(_) => true,
        InlineModel::Insert(cs) => unstyled(cs),
        InlineModel::Delete(_) => true,
        InlineModel::Sub { old, new } => unstyled(new),
        InlineModel::Comment(_) => true,
        _ => false,
    }
}

proof fn lemma_escape_concat(a: Seq<char>, b: Seq<char>)
    ensures
        escape(a + b) == escape(a) + escape(b),
    decreases b.len(),
{
    if b.len() == 0 {
        assert(a + b =~= a);
        assert(escape(a) + escape(b) =~= escape(a));
    } else {
        lemma_escape_concat(a, b.drop_last());
        assert((a + b).drop_last() =~= a + b.drop_last());
        assert((a + b).last() == b.last());
    }
}

proof fn lemma_breaks_concat(a: Seq<char>, b: Seq<char>)
    ensures
        breaks(a + b) == breaks(a) + breaks(b),
    decreases b.len(),
{
    if b.len() == 0 {
        assert(a + b =~= a);
        assert(breaks(a) + breaks(b) =~= breaks(a));
    } else {
        lemma_breaks_concat(a, b.drop_last());
        assert((a + b).drop_last() =~= a + b.drop_last());
        assert((a + b).last() == b.last());
    }
}

proof fn lemma_html_print_one(x: InlineModel, ctx: CtxModel, l: Seq<LinkEntryModel>)
    requires
        unstyled_inline(x),
    ensures
        inline_html(x, ctx, l) == breaks(escape(inline_print(x, ctx, l))),
    decreases x,
{
    match x {
        InlineModel::Insert(cs) => html_prints_the_manuscript_text(cs, ctx, l),
        InlineModel::Sub { old, new } => html_prints_the_manuscript_text(new, ctx, l),
        InlineModel::Delete(_) => {
            assert(escape(Seq::<char>::empty()) =~= Seq::<char>::empty());
            assert(breaks(Seq::<char>::empty()) =~= Seq::<char>::empty());
        },
        InlineModel::Comment(_) => {
            assert(escape(Seq::<char>::empty()) =~= Seq::<char>::empty());
            assert(breaks(Seq::<char>::empty()) =~= Seq::<char>::empty());
        },
        _ => {},
    }
}

/// Without bold, italic or wikilinks, the HTML of inline spans is exactly
/// their plain print text, HTML-escaped and with each newline as `<br>`: the
/// two manuscripts agree on what prints (accepted insertions and the new side
/// of a substitution) and on what does not (deletions, the old side of a
/// substitution, comments).
pub proof fn html_prints_the_manuscript_text(spans: Seq<InlineModel>, ctx: CtxModel, l: Seq<LinkEntryModel>)
    requires
        unstyled(spans),
    ensures
        html_inlines(spans, ctx, l) == breaks(escape(print_inlines(spans, ctx, l))),
    decreases spans,
{
    if spans.len() == 0 {
        assert(escape(Seq::<char>::empty()) =~= Seq::<char>::empty());
        assert(breaks(Seq::<char>::empty()) =~= Seq::<char>::empty());
    } else {
        html_prints_the_manuscript_text(spans.drop_last(), ctx, l);
        lemma_html_print_one(spans.last(), ctx, l);
        let a = print_inlines(spans.drop_last(), ctx, l);
        let b = inline_print(spans.last(), ctx, l);
        lemma_escape_concat(a, b);
        lemma_breaks_concat(escape(a), escape(b));
    }
}

/// CriticMarkup resolves the same way in both manuscripts: a substitution
/// shows exactly what an insertion of its new side shows, whatever its old
/// side, and a deletion shows nothing.
pub proof fn critic_markup_resolves(
    gone: Seq<InlineModel>,
    shown: Seq<InlineModel>,
    ctx: CtxModel,
    l: Seq<LinkEntryModel>,
)
    ensures
        html_inlines(seq![InlineModel::Sub { old: gone, new: shown }], ctx, l) == html_inlines(shown, ctx, l),
        html_inlines(seq![InlineModel::Sub { old: gone, new: shown }], ctx, l) == html_inlines(
            seq![InlineModel::Insert(shown)],
            ctx,
            l,
        ),
        print_inlines(seq![InlineModel::Sub { old: gone, new: shown }], ctx, l) == print_inlines(shown, ctx, l),
        print_inlines(seq![InlineModel::Sub { old: gone, new: shown }], ctx, l) == print_inlines(
            seq![InlineModel::Insert(shown)],
            ctx,
            l,
        ),
        html_inlines(seq![InlineModel::Delete(gone)], ctx, l).len() == 0,
        print_inlines(seq![InlineModel::Delete(gone)], ctx, l).len() == 0,
{
    let s = seq![InlineModel::Sub { old: gone, new: shown }];
    let i = seq![InlineModel::Insert(shown)];
    let d = seq![InlineModel::Delete(gone)];
    assert(s.drop_last() =~= Seq::<InlineModel>::empty());
    assert(i.drop_last() =~= Seq::<InlineModel>::empty());
    assert(d.drop_last() =~= Seq::<InlineModel>::empty());
    assert(s.last() == InlineModel::Sub { old: gone, new: shown });
    assert(i.last() == InlineModel::Insert(shown));
    assert(d.last() == InlineModel::Delete(gone));
    assert(html_inlines(Seq::<InlineModel>::empty(), ctx, l) =~= Seq::<char>::empty());
    assert(print_inlines(Seq::<InlineModel>::empty(), ctx, l) =~= Seq::<char>::empty());
    assert(inline_html(InlineModel::Sub { old: gone, new: shown }, ctx, l) == html_inlines(shown, ctx, l));
    assert(inline_html(InlineModel::Insert(shown), ctx, l) == html_inlines(shown, ctx, l));
    assert(inline_html(InlineModel::Delete(gone), ctx, l) == Seq::<char>::empty());
    assert(html_inlines(s, ctx, l) == html_inlines(s.drop_last(), ctx, l) + inline_html(s.last(), ctx, l));
    assert(html_inlines(i, ctx, l) == html_inlines(i.drop_last(), ctx, l) + inline_html(i.last(), ctx, l));
    assert(html_inlines(d, ctx, l) == html_inlines(d.drop_last(), ctx, l) + inline_html(d.last(), ctx, l));
    assert(html_inlines(s.drop_last(), ctx, l) == Seq::<char>::empty());
    assert(html_inlines(i.drop_last(), ctx, l) == Seq::<char>::empty());
    assert(Seq::<char>::empty() + html_inlines(shown, ctx, l) =~= html_inlines(shown, ctx, l));
    assert(html_inlines(s, ctx, l) == html_inlines(shown, ctx, l));
    assert(html_inlines(i, ctx, l) == html_inlines(shown, ctx, l));
    assert(inline_print(InlineModel::Sub { old: gone, new: shown }, ctx, l) == print_inlines(shown, ctx, l));
    assert(inline_print(InlineModel::Insert(shown), ctx, l) == print_inlines(shown, ctx, l));
    assert(inline_print(InlineModel::Delete(gone), ctx, l) == Seq::<char>::empty());
    assert(print_inlines(s, ctx, l) == print_inlines(s.drop_last(), ctx, l) + inline_print(s.last(), ctx, l));
    assert(print_inlines(i, ctx, l) == print_inlines(i.drop_last(), ctx, l) + inline_print(i.last(), ctx, l));
    assert(print_inlines(d, ctx, l) == print_inlines(d.drop_last(), ctx, l) + inline_print(d.last(), ctx, l));
    assert(print_inlines(s.drop_last(), ctx, l) == Seq::<char>::empty());
    assert(print_inlines(i.drop_last(), ctx, l) == Seq::<char>::empty());
    assert(print_inlines(d.drop_last(), ctx, l) == Seq::<char>::empty());
    assert(html_inlines(d.drop_last(), ctx, l) == Seq::<char>::empty());
    assert(Seq::<char>::empty() + print_inlines(shown, ctx, l) =~= print_inlines(shown, ctx, l));
    assert(print_inlines(s, ctx, l) == print_inlines(shown, ctx, l));
    assert(print_inlines(i, ctx, l) == print_inlines(shown, ctx, l));
}

// ---- the edit view writes everything --------------------------------------------------------

/// Empty, or ending in a newline: what follows starts a line.
pub open spec fn ends_line(s: Seq<char>) -> bool {
    s.len() == 0 || s.last() == '\n'
}

/// `pat` stands in `s` at the start of a line.
pub open spec fn line_in(s: Seq<char>, pat: Seq<char>) -> bool {
    exists|j: int| occurs_at(s, j, pat) && (j == 0 || s[j - 1] == '\n')
}

proof fn lemma_ends_line_concat(a: Seq<char>, b: Seq<char>)
    requires
        ends_line(a),
        ends_line(b),
    ensures
        ends_line(a + b),
{
    if b.len() > 0 {
        assert((a + b).last() == b.last());
    } else {
        assert(a + b =~= a);
    }
}

proof fn lemma_indented_parts_ends_line(parts: Seq<Seq<char>>)
    ensures
        ends_line(indented_parts(parts)),
{
    if parts.len() > 0 {
        let x = indented_parts(parts.drop_last()) + seq![' ', ' '] + parts.last() + seq!['\n'];
        assert(x.last() == '\n');
    }
}

proof fn lemma_edit_meta_ends_line(meta: Seq<(Seq<char>, Seq<char>)>)
    ensures
        ends_line(edit_meta(meta)),
    decreases meta.len(),
{
    if meta.len() > 0 {
        lemma_edit_meta_ends_line(meta.drop_last());
        let (k, v) = meta.last();
        if v.contains('\n') {
            lemma_indented_parts_ends_line(crate::text::split_char(v, '\n'));
            let ip = indented_parts(crate::text::split_char(v, '\n'));
            lemma_ends_line_concat(k + seq![':', '\n'], ip);
        } else {
            assert((k + seq![':', ' '] + v + seq!['\n']).last() == '\n');
        }
        lemma_ends_line_concat(edit_meta(meta.drop_last()), edit_pair(k, v));
    }
}

/// The part of a block's edit text that a block adds.
pub open spec fn edit_block(b: BlockModel) -> Seq<char> {
    match b {
        BlockModel::Para(spans) => crate::render::source_inlines(spans) + seq!['\n', '\n'],
        BlockModel::LineComment(c) => seq!['/', ' '] + c + seq!['\n'],
    }
}

proof fn lemma_edit_blocks_ends_line(body: Seq<BlockModel>)
    ensures
        ends_line(edit_blocks(body)),
{
    if body.len() > 0 {
        let x = edit_blocks(body);
        assert(x == edit_blocks(body.drop_last()) + edit_block(body.last()));
        assert(edit_block(body.last()).last() == '\n');
        assert(x.last() == '\n');
    }
}

/// The edit text of the first `k` blocks, then the rest.
proof fn lemma_edit_blocks_prefix(body: Seq<BlockModel>, k: int)
    requires
        0 <= k <= body.len(),
    ensures
        edit_blocks(body.take(k)).len() <= edit_blocks(body).len(),
        edit_blocks(body).subrange(0, edit_blocks(body.take(k)).len() as int) == edit_blocks(body.take(k)),
    decreases body.len(),
{
    if k == body.len() {
        assert(body.take(k) =~= body);
        assert(edit_blocks(body).subrange(0, edit_blocks(body).len() as int) =~= edit_blocks(body));
    } else {
        let d = body.drop_last();
        lemma_edit_blocks_prefix(d, k);
        assert(d.take(k) =~= body.take(k));
        let a = edit_blocks(d);
        let x = edit_blocks(body);
        assert(x == a + edit_block(body.last()));
        assert(x.subrange(0, edit_blocks(body.take(k)).len() as int) =~= a.subrange(
            0,
            edit_blocks(body.take(k)).len() as int,
        ));
    }
}

/// What the edit view writes of a node before its body.
pub open spec fn edit_lead(n: NodeModel) -> Seq<char> {
    (if n.level > 0 {
        repeat(seq![crate::render::sigil(n.visibility)], n.level as nat) + seq![' '] + n.title + seq!['\n']
    } else {
        seq![]
    }) + edit_meta(n.meta) + (if n.meta.len() > 0 {
        seq!['\n']
    } else {
        seq![]
    })
}

proof fn lemma_edit_lead(n: NodeModel)
    ensures
        ends_line(edit_lead(n)),
        edit(n) == edit_lead(n) + edit_blocks(n.body) + edit_kids(n, n.children.len() as int),
{
    let h = if n.level > 0 {
        repeat(seq![crate::render::sigil(n.visibility)], n.level as nat) + seq![' '] + n.title + seq!['\n']
    } else {
        seq![]
    };
    if n.level > 0 {
        assert(h.last() == '\n');
    }
    lemma_edit_meta_ends_line(n.meta);
    lemma_ends_line_concat(h, edit_meta(n.meta));
    let s: Seq<char> = if n.meta.len() > 0 {
        seq!['\n']
    } else {
        seq![]
    };
    lemma_ends_line_concat(h + edit_meta(n.meta), s);
}

proof fn lemma_line_at(s: Seq<char>, a: Seq<char>, pat: Seq<char>, b: Seq<char>)
    requires
        s == a + pat + b,
        ends_line(a),
    ensures
        line_in(s, pat),
{
    let j = a.len() as int;
    assert(s.subrange(j, j + pat.len()) =~= pat);
    assert(occurs_at(s, j, pat));
    if j > 0 {
        assert(s[j - 1] == a.last());
    }
}

/// The edit view writes every line comment of a node back as the line
/// `/ comment`.
pub proof fn edit_writes_every_comment(n: NodeModel, i: int)
    requires
        0 <= i < n.body.len(),
        n.body[i] is LineComment,
    ensures
        line_in(edit(n), seq!['/', ' '] + n.body[i]->LineComment_0 + seq!['\n']),
{
    let c = n.body[i]->LineComment_0;
    let pat = seq!['/', ' '] + c + seq!['\n'];
    lemma_edit_lead(n);
    let t = n.body.take(i + 1);
    lemma_edit_blocks_prefix(n.body, i + 1);
    assert(t.drop_last() =~= n.body.take(i));
    assert(t.last() == n.body[i]);
    let before = edit_blocks(n.body.take(i));
    assert(edit_blocks(t) == before + pat);
    lemma_edit_blocks_ends_line(n.body.take(i));
    let eb = edit_blocks(n.body);
    let rest = eb.subrange(edit_blocks(t).len() as int, eb.len() as int);
    assert(eb =~= before + pat + rest);
    lemma_ends_line_concat(edit_lead(n), before);
    let a = edit_lead(n) + before;
    assert(edit(n) =~= a + pat + (rest + edit_kids(n, n.children.len() as int)));
    lemma_line_at(edit(n), a, pat, rest + edit_kids(n, n.children.len() as int));
}

proof fn lemma_edit_kids_prefix(n: NodeModel, k: int, m: int)
    requires
        0 <= k <= m <= n.children.len(),
    ensures
        edit_kids(n, k).len() <= edit_kids(n, m).len(),
        edit_kids(n, m).subrange(0, edit_kids(n, k).len() as int) == edit_kids(n, k),
    decreases m,
{
    if k == m {
        assert(edit_kids(n, m).subrange(0, edit_kids(n, m).len() as int) =~= edit_kids(n, m));
    } else {
        lemma_edit_kids_prefix(n, k, m - 1);
        let a = edit_kids(n, m - 1);
        assert(edit_kids(n, m) == a + edit(n.children[m - 1]));
        assert(edit_kids(n, m).subrange(0, edit_kids(n, k).len() as int) =~= a.subrange(
            0,
            edit_kids(n, k).len() as int,
        ));
    }
}

proof fn lemma_edit_ends_line(n: NodeModel)
    ensures
        ends_line(edit(n)),
    decreases n, 1nat,
{
    lemma_edit_lead(n);
    lemma_edit_blocks_ends_line(n.body);
    lemma_edit_kids_ends_line(n, n.children.len() as int);
    lemma_ends_line_concat(edit_lead(n), edit_blocks(n.body));
    lemma_ends_line_concat(edit_lead(n) + edit_blocks(n.body), edit_kids(n, n.children.len() as int));
}

proof fn lemma_edit_kids_ends_line(n: NodeModel, i: int)
    ensures
        ends_line(edit_kids(n, i)),
    decreases n, 0nat, i,
{
    if 0 < i <= n.children.len() {
        lemma_edit_kids_ends_line(n, i - 1);
        lemma_edit_ends_line(n.children[i - 1]);
        lemma_ends_line_concat(edit_kids(n, i - 1), edit(n.children[i - 1]));
    }
}

/// The edit view writes each child's whole subtree, from the start of a
/// line: nothing below a node is left out of the node's edit text.
pub proof fn edit_writes_every_subtree(n: NodeModel, i: int)
    requires
        0 <= i < n.children.len(),
    ensures
        line_in(edit(n), edit(n.children[i])),
{
    let c = n.children[i];
    lemma_edit_lead(n);
    lemma_edit_blocks_ends_line(n.body);
    let len = n.children.len() as int;
    lemma_edit_kids_prefix(n, i + 1, len);
    lemma_edit_kids_ends_line(n, i);
    let ek = edit_kids(n, len);
    let before = edit_kids(n, i);
    assert(edit_kids(n, i + 1) == before + edit(c));
    let rest = ek.subrange(edit_kids(n, i + 1).len() as int, ek.len() as int);
    assert(ek =~= before + edit(c) + rest);
    lemma_ends_line_concat(edit_lead(n), edit_blocks(n.body));
    lemma_ends_line_concat(edit_lead(n) + edit_blocks(n.body), before);
    let a = edit_lead(n) + edit_blocks(n.body) + before;
    assert(edit(n) =~= a + edit(c) + rest);
    lemma_line_at(edit(n), a, edit(c), rest);
}

// ---- the outline lists metadata keys ------------------------------------------------------

/// The keys of a metadata list, in order.
pub open spec fn keys_of(meta: Seq<(Seq<char>, Seq<char>)>) -> Seq<Seq<char>> {
    Seq::new(meta.len(), |i: int| meta[i].0)
}

/// `n` with no metadata and no children.
pub open spec fn bare(n: NodeModel) -> NodeModel {
    NodeModel { meta: seq![], children: seq![], ..n }
}

/// A heading with metadata has the outline line it would have without any,
/// with `  [` its keys joined by `, ` `]` added before the line's end; the
/// rest of its outline follows that line.
pub proof fn outline_lists_metadata_keys(n: NodeModel, ctx: CtxModel)
    requires
        n.level > 0,
        n.meta.len() > 0,
    ensures
        ({
            let plain = outline(bare(n), ctx);
            let line = plain.drop_last() + seq![' ', ' ', '['] + join_with(keys_of(n.meta), seq![',', ' '])
                + seq![']', '\n'];
            &&& plain.len() > 0 && plain.last() == '\n'
            &&& line.len() <= outline(n, ctx).len()
            &&& outline(n, ctx).subrange(0, line.len() as int) == line
        }),
{
    let b = bare(n);
    assert(meta_keys(n.meta) =~= keys_of(n.meta));
    assert(outline_kids(b, ctx, 0) == Seq::<char>::empty());
    let stem = repeat(seq![' ', ' '], (n.level - 1) as nat) + repeat(seq![crate::render::sigil(n.visibility)], n.level as nat)
        + seq![' '] + crate::render::display_title(n.title, ctx);
    assert(outline_head(b, ctx) =~= stem + seq!['\n']);
    assert(outline(b, ctx) =~= stem + seq!['\n']);
    let plain = outline(b, ctx);
    assert(plain.drop_last() =~= stem);
    let line = stem + seq![' ', ' ', '['] + join_with(keys_of(n.meta), seq![',', ' ']) + seq![']', '\n'];
    assert(outline_head(n, ctx) =~= line);
    let o = outline(n, ctx);
    assert(o == line + outline_kids(n, ctx, n.children.len() as int));
    assert(o.subrange(0, line.len() as int) =~= line);
}

// ---- the codex names every visible ancestor ---------------------------------------------

/// `pat` stands somewhere in `s`.
pub open spec fn contains_text(s: Seq<char>, pat: Seq<char>) -> bool {
    exists|j: int| occurs_at(s, j, pat)
}

/// The breadcrumb line that heads a codex entry under `scope`.
pub open spec fn breadcrumb(scope: Seq<Seq<char>>) -> Seq<char> {
    seq!['['] + join_with(scope, seq![' ', '/', ' ']) + seq![']', '\n']
}

proof fn lemma_contains_mid(s: Seq<char>, a: Seq<char>, x: Seq<char>, b: Seq<char>)
    requires
        s == a + x + b,
    ensures
        contains_text(s, x),
{
    assert(s.subrange(a.len() as int, (a.len() + x.len()) as int) =~= x);
    assert(occurs_at(s, a.len() as int, x));
}

proof fn lemma_contains_trans(s: Seq<char>, x: Seq<char>, y: Seq<char>)
    requires
        contains_text(s, x),
        contains_text(x, y),
    ensures
        contains_text(s, y),
{
    let p = choose|j: int| occurs_at(s, j, x);
    let q = choose|j: int| occurs_at(x, j, y);
    assert(s.subrange(p + q, p + q + y.len()) =~= x.subrange(q, q + y.len()));
    assert(occurs_at(s, p + q, y));
}

proof fn lemma_codex_kids_prefix(n: NodeModel, ctx: CtxModel, scope: Seq<Seq<char>>, k: int, m: int)
    requires
        0 <= k <= m <= n.children.len(),
    ensures
        codex_kids(n, ctx, scope, k).len() <= codex_kids(n, ctx, scope, m).len(),
        codex_kids(n, ctx, scope, m).subrange(0, codex_kids(n, ctx, scope, k).len() as int)
            == codex_kids(n, ctx, scope, k),
    decreases m,
{
    let x = codex_kids(n, ctx, scope, m);
    if k == m {
        assert(x.subrange(0, x.len() as int) =~= x);
    } else {
        lemma_codex_kids_prefix(n, ctx, scope, k, m - 1);
        let a = codex_kids(n, ctx, scope, m - 1);
        assert(x.subrange(0, a.len() as int) =~= a);
        assert(x.subrange(0, codex_kids(n, ctx, scope, k).len() as int) =~= a.subrange(
            0,
            codex_kids(n, ctx, scope, k).len() as int,
        ));
    }
}

/// What child `i` adds stands in the codex text of `n`.
proof fn lemma_codex_piece(n: NodeModel, ctx: CtxModel, scope: Seq<Seq<char>>, i: int, piece: Seq<char>)
    requires
        0 <= i < n.children.len(),
        codex_kids(n, ctx, scope, i + 1) == codex_kids(n, ctx, scope, i) + piece,
    ensures
        contains_text(codex(n, ctx, scope), piece),
{
    let len = n.children.len() as int;
    lemma_codex_kids_prefix(n, ctx, scope, i + 1, len);
    let x = codex(n, ctx, scope);
    let a = codex_kids(n, ctx, scope, i);
    let b = x.subrange((a.len() + piece.len()) as int, x.len() as int);
    assert(x == codex_kids(n, ctx, scope, len));
    assert(x =~= a + piece + b);
    lemma_contains_mid(x, a, piece, b);
}

/// Under a visible child with a non-empty resolved title `t`, each excluded
/// grandchild's codex entry is headed by the breadcrumb of the whole scope
/// with `t` added: every ancestor's title, outermost first, joined by ` / `.
pub proof fn codex_heads_entries_with_every_ancestor(
    n: NodeModel,
    ctx: CtxModel,
    scope: Seq<Seq<char>>,
    i: int,
    j: int,
)
    requires
        0 <= i < n.children.len(),
        n.children[i].visibility != Visibility::Excluded,
        substitute(n.children[i].title, child_ctx(n, ctx, i)).len() > 0,
        0 <= j < n.children[i].children.len(),
        n.children[i].children[j].visibility == Visibility::Excluded,
    ensures
        contains_text(
            codex(n, ctx, scope),
            breadcrumb(scope.push(substitute(n.children[i].title, child_ctx(n, ctx, i)))),
        ),
{
    let a = n.children[i];
    let actx = child_ctx(n, ctx, i);
    let t = substitute(a.title, actx);
    let s2 = scope.push(t);
    assert(pushed_scope(scope, a.title, actx) == s2);
    let inner = codex(a, actx, s2);
    assert(codex_kids(n, ctx, scope, i + 1) == codex_kids(n, ctx, scope, i) + inner);
    lemma_codex_piece(n, ctx, scope, i, inner);
    let e = a.children[j];
    let ectx = child_ctx(a, actx, j);
    assert(scope_sep() == seq![' ', '/', ' ']);
    let entry = crate::render::codex_entry(e, 0, ectx) + seq!['\n'];
    assert(codex_kids(a, actx, s2, j + 1) =~= codex_kids(a, actx, s2, j) + (breadcrumb(s2) + entry));
    lemma_codex_piece(a, actx, s2, j, breadcrumb(s2) + entry);
    lemma_contains_mid(breadcrumb(s2) + entry, Seq::<char>::empty(), breadcrumb(s2), entry);
    assert(Seq::<char>::empty() + breadcrumb(s2) + entry =~= breadcrumb(s2) + entry);
    lemma_contains_trans(inner, breadcrumb(s2) + entry, breadcrumb(s2));
    lemma_contains_trans(codex(n, ctx, scope), inner, breadcrumb(s2));
}

/// Two visible levels deep, an excluded entry of the document is headed by
/// `[outer / inner]`: the resolved titles of both ancestors, outermost first.
pub proof fn codex_breadcrumb_names_both_ancestors(n: NodeModel, ctx: CtxModel, i: int, j: int, k: int)
    requires
        0 <= i < n.children.len(),
        n.children[i].visibility != Visibility::Excluded,
        substitute(n.children[i].title, child_ctx(n, ctx, i)).len() > 0,
        0 <= j < n.children[i].children.len(),
        n.children[i].children[j].visibility != Visibility::Excluded,
        substitute(n.children[i].children[j].title, child_ctx(n.children[i], child_ctx(n, ctx, i), j)).len() > 0,
        0 <= k < n.children[i].children[j].children.len(),
        n.children[i].children[j].children[k].visibility == Visibility::Excluded,
    ensures
        contains_text(
            codex(n, ctx, seq![]),
            seq!['['] + substitute(n.children[i].title, child_ctx(n, ctx, i)) + seq![' ', '/', ' ']
                + substitute(n.children[i].children[j].title, child_ctx(n.children[i], child_ctx(n, ctx, i), j))
                + seq![']', '\n'],
        ),
{
    let a = n.children[i];
    let actx = child_ctx(n, ctx, i);
    let ta = substitute(a.title, actx);
    let tb = substitute(a.children[j].title, child_ctx(a, actx, j));
    let s1 = Seq::<Seq<char>>::empty().push(ta);
    assert(pushed_scope(seq![], a.title, actx) == s1);
    let inner = codex(a, actx, s1);
    assert(codex_kids(n, ctx, seq![], i + 1) == codex_kids(n, ctx, seq![], i) + inner);
    lemma_codex_piece(n, ctx, seq![], i, inner);
    codex_heads_entries_with_every_ancestor(a, actx, s1, j, k);
    let s2 = s1.push(tb);
    assert(s2.drop_last() =~= s1);
    assert(join_with(s1, seq![' ', '/', ' ']) == ta);
    assert(join_with(s2, seq![' ', '/', ' ']) == ta + seq![' ', '/', ' '] + tb);
    assert(breadcrumb(s2) =~= seq!['['] + ta + seq![' ', '/', ' '] + tb + seq![']', '\n']);
    lemma_contains_trans(codex(n, ctx, seq![]), inner, breadcrumb(s2));
}

} // verus!
