//! What an excluded (`%`) subtree leaves unchanged: it never prints, never
//! counts toward the word count, and never takes a sibling number, so the
//! manuscript and the word count read the same without it.

use vstd::prelude::*;
use crate::{BlockModel, InlineModel, NodeModel, Visibility};
use crate::codex::{body_names, inline_link_names, link_names};
use crate::interp::CtxModel;
use crate::parse::with_children;
use crate::render::{
    LinkEntryModel, View, base_ctx, child_ctx, count_visible, html_blocks, html_inlines,
    inline_html, inline_print, link_index, manuscript, manuscript_blocks, manuscript_html,
    manuscript_html_kids, manuscript_kids, print_inlines, render_model, words, words_blocks,
    words_kids,
};

verus! {

/// `n` with child `k` removed.
pub open spec fn without_child(n: NodeModel, k: int) -> NodeModel {
    with_children(n, n.children.remove(k))
}

proof fn lemma_count_visible_remove(cs: Seq<NodeModel>, k: int, j: int)
    requires
        0 <= k < cs.len(),
        cs[k].visibility == Visibility::Excluded,
        0 <= j <= cs.len(),
    ensures
        j <= k ==> count_visible(cs.remove(k), j) == count_visible(cs, j),
        j > k ==> count_visible(cs.remove(k), j - 1) == count_visible(cs, j),
    decreases j,
{
    if j > 0 {
        lemma_count_visible_remove(cs, k, j - 1);
        if j > k + 1 {
            assert(cs.remove(k)[j - 2] == cs[j - 1]);
        } else if j <= k {
            assert(cs.remove(k)[j - 1] == cs[j - 1]);
        }
    }
}

/// Child `i` of `n` (other than `k`) keeps its context once `k` is gone.
proof fn lemma_ctx_remove(n: NodeModel, ctx: CtxModel, k: int, i: int)
    requires
        0 <= k < n.children.len(),
        n.children[k].visibility == Visibility::Excluded,
        0 <= i < n.children.len(),
        i != k,
    ensures
        ({
            let j = if i < k { i } else { i - 1 };
            &&& without_child(n, k).children[j] == n.children[i]
            &&& child_ctx(without_child(n, k), ctx, j) == child_ctx(n, ctx, i)
        }),
{
    let cs = n.children;
    lemma_count_visible_remove(cs, k, i + 1);
    lemma_count_visible_remove(cs, k, cs.len() as int);
    if i < k {
        assert(cs.remove(k)[i] == cs[i]);
    } else {
        assert(cs.remove(k)[i - 1] == cs[i]);
    }
}

proof fn lemma_manuscript_kids_remove(n: NodeModel, ctx: CtxModel, l: Seq<LinkEntryModel>, k: int, i: int)
    requires
        0 <= k < n.children.len(),
        n.children[k].visibility == Visibility::Excluded,
        0 <= i <= n.children.len(),
    ensures
        i <= k ==> manuscript_kids(without_child(n, k), ctx, l, i) == manuscript_kids(n, ctx, l, i),
        i > k ==> manuscript_kids(without_child(n, k), ctx, l, i - 1) == manuscript_kids(n, ctx, l, i),
    decreases i,
{
    let m = without_child(n, k);
    if i > 0 {
        lemma_manuscript_kids_remove(n, ctx, l, k, i - 1);
        if i - 1 != k {
            lemma_ctx_remove(n, ctx, k, i - 1);
        } else {
            assert(manuscript(n.children[k], child_ctx(n, ctx, k), l) =~= seq![]);
        }
    }
}

proof fn lemma_words_kids_remove(n: NodeModel, ctx: CtxModel, l: Seq<LinkEntryModel>, k: int, i: int)
    requires
        0 <= k < n.children.len(),
        n.children[k].visibility == Visibility::Excluded,
        0 <= i <= n.children.len(),
    ensures
        i <= k ==> words_kids(without_child(n, k), ctx, l, i) == words_kids(n, ctx, l, i),
        i > k ==> words_kids(without_child(n, k), ctx, l, i - 1) == words_kids(n, ctx, l, i),
    decreases i,
{
    if i > 0 {
        lemma_words_kids_remove(n, ctx, l, k, i - 1);
        if i - 1 != k {
            lemma_ctx_remove(n, ctx, k, i - 1);
        } else {
            assert(words(n.children[k], child_ctx(n, ctx, k), l) == 0);
        }
    }
}

proof fn lemma_html_kids_remove(n: NodeModel, ctx: CtxModel, l: Seq<LinkEntryModel>, k: int, i: int)
    requires
        0 <= k < n.children.len(),
        n.children[k].visibility == Visibility::Excluded,
        0 <= i <= n.children.len(),
    ensures
        i <= k ==> manuscript_html_kids(without_child(n, k), ctx, l, i) == manuscript_html_kids(n, ctx, l, i),
        i > k ==> manuscript_html_kids(without_child(n, k), ctx, l, i - 1) == manuscript_html_kids(n, ctx, l, i),
    decreases i,
{
    if i > 0 {
        lemma_html_kids_remove(n, ctx, l, k, i - 1);
        if i - 1 != k {
            lemma_ctx_remove(n, ctx, k, i - 1);
        } else {
            assert(manuscript_html(n.children[k], child_ctx(n, ctx, k), l) =~= seq![]);
        }
    }
}

/// Deleting an excluded child leaves a node's manuscript unchanged (in the
/// same context, against the same link index): the subtree never prints, and
/// its siblings keep their numbers.
pub proof fn manuscript_ignores_excluded(n: NodeModel, ctx: CtxModel, l: Seq<LinkEntryModel>, k: int)
    requires
        0 <= k < n.children.len(),
        n.children[k].visibility == Visibility::Excluded,
    ensures
        manuscript(without_child(n, k), ctx, l) == manuscript(n, ctx, l),
{
    lemma_manuscript_kids_remove(n, ctx, l, k, n.children.len() as int);
}

/// Deleting an excluded child leaves a node's HTML manuscript unchanged.
pub proof fn html_ignores_excluded(n: NodeModel, ctx: CtxModel, l: Seq<LinkEntryModel>, k: int)
    requires
        0 <= k < n.children.len(),
        n.children[k].visibility == Visibility::Excluded,
    ensures
        manuscript_html(without_child(n, k), ctx, l) == manuscript_html(n, ctx, l),
{
    lemma_html_kids_remove(n, ctx, l, k, n.children.len() as int);
}

/// Deleting an excluded child leaves a node's word count unchanged.
pub proof fn words_ignore_excluded(n: NodeModel, ctx: CtxModel, l: Seq<LinkEntryModel>, k: int)
    requires
        0 <= k < n.children.len(),
        n.children[k].visibility == Visibility::Excluded,
    ensures
        words(without_child(n, k), ctx, l) == words(n, ctx, l),
{
    lemma_words_kids_remove(n, ctx, l, k, n.children.len() as int);
}


// ---- removal at any depth ------------------------------------------------------------------

/// `path` leads from `n` to a node whose child `k` is excluded.
pub open spec fn removable(n: NodeModel, path: Seq<int>, k: int) -> bool
    decreases path.len(),
{
    if path.len() == 0 {
        0 <= k < n.children.len() && n.children[k].visibility == Visibility::Excluded
    } else {
        0 <= path[0] < n.children.len() && removable(n.children[path[0]], path.drop_first(), k)
    }
}

/// `n` with child `k` of the node at `path` removed, subtree and all.
pub open spec fn remove_at(n: NodeModel, path: Seq<int>, k: int) -> NodeModel
    decreases path.len(),
{
    if path.len() == 0 {
        without_child(n, k)
    } else if 0 <= path[0] < n.children.len() {
        with_children(n, n.children.update(path[0], remove_at(n.children[path[0]], path.drop_first(), k)))
    } else {
        n
    }
}

/// No `[[wikilink]]` anywhere in the subtree.
pub open spec fn no_links(n: NodeModel) -> bool
    decreases n,
{
    &&& body_names(n.body).len() == 0
    &&& forall|i: int| 0 <= i < n.children.len() ==> no_links(#[trigger] n.children[i])
}

proof fn lemma_remove_at_shape(n: NodeModel, path: Seq<int>, k: int)
    requires
        removable(n, path, k),
    ensures
        remove_at(n, path, k).level == n.level,
        remove_at(n, path, k).visibility == n.visibility,
        remove_at(n, path, k).title == n.title,
        remove_at(n, path, k).meta == n.meta,
        remove_at(n, path, k).body == n.body,
{
}

proof fn lemma_count_visible_same(a: Seq<NodeModel>, b: Seq<NodeModel>, j: int)
    requires
        a.len() == b.len(),
        forall|m: int| 0 <= m < a.len() ==> (#[trigger] a[m]).visibility == b[m].visibility,
        0 <= j <= a.len(),
    ensures
        count_visible(a, j) == count_visible(b, j),
    decreases j,
{
    if j > 0 {
        lemma_count_visible_same(a, b, j - 1);
    }
}

/// Replacing one child by a copy of the same visibility and metadata keeps
/// every child's context.
proof fn lemma_ctx_update(n: NodeModel, ctx: CtxModel, i: int, c: NodeModel, j: int)
    requires
        0 <= i < n.children.len(),
        0 <= j < n.children.len(),
        c.visibility == n.children[i].visibility,
        c.meta == n.children[i].meta,
    ensures
        child_ctx(with_children(n, n.children.update(i, c)), ctx, j) == child_ctx(n, ctx, j),
{
    let a = n.children;
    let b = n.children.update(i, c);
    assert forall|m: int| 0 <= m < a.len() implies (#[trigger] a[m]).visibility == b[m].visibility by {}
    lemma_count_visible_same(a, b, j + 1);
    lemma_count_visible_same(a, b, a.len() as int);
}

proof fn lemma_manuscript_remove_at(n: NodeModel, path: Seq<int>, k: int, ctx: CtxModel, l: Seq<LinkEntryModel>)
    requires
        removable(n, path, k),
    ensures
        manuscript(remove_at(n, path, k), ctx, l) == manuscript(n, ctx, l),
    decreases path.len(), 0int,
{
    if path.len() == 0 {
        manuscript_ignores_excluded(n, ctx, l, k);
    } else {
        let i = path[0];
        let c2 = remove_at(n.children[i], path.drop_first(), k);
        lemma_remove_at_shape(n.children[i], path.drop_first(), k);
        let m = remove_at(n, path, k);
        lemma_manuscript_kids_update(n, ctx, l, i, c2, path.drop_first(), k, n.children.len() as int);
        assert(m.children.len() == n.children.len());
        assert(manuscript_kids(m, ctx, l, m.children.len() as int) == manuscript_kids(n, ctx, l, n.children.len() as int));
    }
}

proof fn lemma_manuscript_kids_update(
    n: NodeModel,
    ctx: CtxModel,
    l: Seq<LinkEntryModel>,
    i: int,
    c2: NodeModel,
    rest: Seq<int>,
    k: int,
    j: int,
)
    requires
        0 <= i < n.children.len(),
        removable(n.children[i], rest, k),
        c2 == remove_at(n.children[i], rest, k),
        0 <= j <= n.children.len(),
    ensures
        manuscript_kids(with_children(n, n.children.update(i, c2)), ctx, l, j) == manuscript_kids(n, ctx, l, j),
    decreases rest.len(), j + 1,
{
    let m = with_children(n, n.children.update(i, c2));
    lemma_remove_at_shape(n.children[i], rest, k);
    if j > 0 {
        lemma_manuscript_kids_update(n, ctx, l, i, c2, rest, k, j - 1);
        lemma_ctx_update(n, ctx, i, c2, j - 1);
        if j - 1 == i {
            lemma_manuscript_remove_at(n.children[i], rest, k, child_ctx(n, ctx, i), l);
        } else {
            assert(m.children[j - 1] == n.children[j - 1]);
        }
    }
}

proof fn lemma_html_remove_at(n: NodeModel, path: Seq<int>, k: int, ctx: CtxModel, l: Seq<LinkEntryModel>)
    requires
        removable(n, path, k),
    ensures
        manuscript_html(remove_at(n, path, k), ctx, l) == manuscript_html(n, ctx, l),
    decreases path.len(), 0int,
{
    if path.len() == 0 {
        html_ignores_excluded(n, ctx, l, k);
    } else {
        let i = path[0];
        let c2 = remove_at(n.children[i], path.drop_first(), k);
        lemma_remove_at_shape(n.children[i], path.drop_first(), k);
        let m = remove_at(n, path, k);
        lemma_html_kids_update(n, ctx, l, i, c2, path.drop_first(), k, n.children.len() as int);
        assert(m.children.len() == n.children.len());
        assert(manuscript_html_kids(m, ctx, l, m.children.len() as int) == manuscript_html_kids(n, ctx, l, n.children.len() as int));
    }
}

proof fn lemma_html_kids_update(
    n: NodeModel,
    ctx: CtxModel,
    l: Seq<LinkEntryModel>,
    i: int,
    c2: NodeModel,
    rest: Seq<int>,
    k: int,
    j: int,
)
    requires
        0 <= i < n.children.len(),
        removable(n.children[i], rest, k),
        c2 == remove_at(n.children[i], rest, k),
        0 <= j <= n.children.len(),
    ensures
        manuscript_html_kids(with_children(n, n.children.update(i, c2)), ctx, l, j) == manuscript_html_kids(n, ctx, l, j),
    decreases rest.len(), j + 1,
{
    let m = with_children(n, n.children.update(i, c2));
    lemma_remove_at_shape(n.children[i], rest, k);
    if j > 0 {
        lemma_html_kids_update(n, ctx, l, i, c2, rest, k, j - 1);
        lemma_ctx_update(n, ctx, i, c2, j - 1);
        if j - 1 == i {
            lemma_html_remove_at(n.children[i], rest, k, child_ctx(n, ctx, i), l);
        } else {
            assert(m.children[j - 1] == n.children[j - 1]);
        }
    }
}

proof fn lemma_words_remove_at(n: NodeModel, path: Seq<int>, k: int, ctx: CtxModel, l: Seq<LinkEntryModel>)
    requires
        removable(n, path, k),
    ensures
        words(remove_at(n, path, k), ctx, l) == words(n, ctx, l),
    decreases path.len(), 0int,
{
    if path.len() == 0 {
        words_ignore_excluded(n, ctx, l, k);
    } else {
        let i = path[0];
        let c2 = remove_at(n.children[i], path.drop_first(), k);
        lemma_remove_at_shape(n.children[i], path.drop_first(), k);
        let m = remove_at(n, path, k);
        lemma_words_kids_update(n, ctx, l, i, c2, path.drop_first(), k, n.children.len() as int);
        assert(m.children.len() == n.children.len());
        assert(words_kids(m, ctx, l, m.children.len() as int) == words_kids(n, ctx, l, n.children.len() as int));
    }
}

proof fn lemma_words_kids_update(
    n: NodeModel,
    ctx: CtxModel,
    l: Seq<LinkEntryModel>,
    i: int,
    c2: NodeModel,
    rest: Seq<int>,
    k: int,
    j: int,
)
    requires
        0 <= i < n.children.len(),
        removable(n.children[i], rest, k),
        c2 == remove_at(n.children[i], rest, k),
        0 <= j <= n.children.len(),
    ensures
        words_kids(with_children(n, n.children.update(i, c2)), ctx, l, j) == words_kids(n, ctx, l, j),
    decreases rest.len(), j + 1,
{
    let m = with_children(n, n.children.update(i, c2));
    lemma_remove_at_shape(n.children[i], rest, k);
    if j > 0 {
        lemma_words_kids_update(n, ctx, l, i, c2, rest, k, j - 1);
        lemma_ctx_update(n, ctx, i, c2, j - 1);
        if j - 1 == i {
            lemma_words_remove_at(n.children[i], rest, k, child_ctx(n, ctx, i), l);
        } else {
            assert(m.children[j - 1] == n.children[j - 1]);
        }
    }
}

// ---- without wikilinks, the link index is never read ---------------------------------------

proof fn lemma_print_indep(spans: Seq<InlineModel>, ctx: CtxModel, l: Seq<LinkEntryModel>, l2: Seq<LinkEntryModel>)
    requires
        link_names(spans).len() == 0,
    ensures
        print_inlines(spans, ctx, l) == print_inlines(spans, ctx, l2),
        html_inlines(spans, ctx, l) == html_inlines(spans, ctx, l2),
    decreases spans,
{
    if spans.len() > 0 {
        lemma_print_indep(spans.drop_last(), ctx, l, l2);
        lemma_inline_indep(spans.last(), ctx, l, l2);
    }
}

proof fn lemma_inline_indep(x: InlineModel, ctx: CtxModel, l: Seq<LinkEntryModel>, l2: Seq<LinkEntryModel>)
    requires
        inline_link_names(x).len() == 0,
    ensures
        inline_print(x, ctx, l) == inline_print(x, ctx, l2),
        inline_html(x, ctx, l) == inline_html(x, ctx, l2),
    decreases x,
{
    match x {
        InlineModel::Bold(cs) => lemma_print_indep(cs, ctx, l, l2),
        InlineModel::Italic(cs) => lemma_print_indep(cs, ctx, l, l2),
        InlineModel::Insert(cs) => lemma_print_indep(cs, ctx, l, l2),
        InlineModel::Delete(cs) => {},
        InlineModel::Sub { old, new } => lemma_print_indep(new, ctx, l, l2),
        InlineModel::Link(s) => {},
        _ => {},
    }
}

proof fn lemma_blocks_indep(b: Seq<BlockModel>, ctx: CtxModel, l: Seq<LinkEntryModel>, l2: Seq<LinkEntryModel>)
    requires
        body_names(b).len() == 0,
    ensures
        manuscript_blocks(b, ctx, l) == manuscript_blocks(b, ctx, l2),
        html_blocks(b, ctx, l) == html_blocks(b, ctx, l2),
        words_blocks(b, ctx, l) == words_blocks(b, ctx, l2),
    decreases b.len(),
{
    if b.len() > 0 {
        lemma_blocks_indep(b.drop_last(), ctx, l, l2);
        match b.last() {
            BlockModel::Para(spans) => lemma_print_indep(spans, ctx, l, l2),
            BlockModel::LineComment(_) => {},
        }
    }
}

proof fn lemma_node_indep(n: NodeModel, ctx: CtxModel, l: Seq<LinkEntryModel>, l2: Seq<LinkEntryModel>)
    requires
        no_links(n),
    ensures
        manuscript(n, ctx, l) == manuscript(n, ctx, l2),
        manuscript_html(n, ctx, l) == manuscript_html(n, ctx, l2),
        words(n, ctx, l) == words(n, ctx, l2),
    decreases n, 1nat, 0int,
{
    lemma_blocks_indep(n.body, ctx, l, l2);
    lemma_kids_indep(n, ctx, l, l2, n.children.len() as int);
}

proof fn lemma_kids_indep(n: NodeModel, ctx: CtxModel, l: Seq<LinkEntryModel>, l2: Seq<LinkEntryModel>, i: int)
    requires
        no_links(n),
        0 <= i <= n.children.len(),
    ensures
        manuscript_kids(n, ctx, l, i) == manuscript_kids(n, ctx, l2, i),
        manuscript_html_kids(n, ctx, l, i) == manuscript_html_kids(n, ctx, l2, i),
        words_kids(n, ctx, l, i) == words_kids(n, ctx, l2, i),
    decreases n, 0nat, i,
{
    if i > 0 {
        lemma_kids_indep(n, ctx, l, l2, i - 1);
        lemma_node_indep(n.children[i - 1], child_ctx(n, ctx, i - 1), l, l2);
    }
}

/// Deleting an excluded section at any depth, subtree and all, leaves the
/// rendered manuscript, the HTML manuscript and the word count of the whole
/// document unchanged, as long as the document holds no `[[wikilink]]` (an
/// excluded section is an entity, and a link may print its title).
pub proof fn removing_excluded_keeps_views(root: NodeModel, path: Seq<int>, k: int)
    requires
        removable(root, path, k),
        no_links(root),
    ensures
        render_model(remove_at(root, path, k), View::Manuscript) == render_model(root, View::Manuscript),
        manuscript_html(remove_at(root, path, k), base_ctx(remove_at(root, path, k)), link_index(
            remove_at(root, path, k),
        )) == manuscript_html(root, base_ctx(root), link_index(root)),
        words(remove_at(root, path, k), base_ctx(remove_at(root, path, k)), link_index(
            remove_at(root, path, k),
        )) == words(root, base_ctx(root), link_index(root)),
{
    let r2 = remove_at(root, path, k);
    lemma_remove_at_shape(root, path, k);
    let ctx = base_ctx(root);
    assert(base_ctx(r2) == ctx);
    let l1 = link_index(root);
    let l2 = link_index(r2);
    lemma_manuscript_remove_at(root, path, k, ctx, l2);
    lemma_html_remove_at(root, path, k, ctx, l2);
    lemma_words_remove_at(root, path, k, ctx, l2);
    lemma_node_indep(root, ctx, l1, l2);
}

} // verus!
