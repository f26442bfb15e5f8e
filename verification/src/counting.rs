//! The word count is the manuscript's word count: the words of the printed
//! prose, split at whitespace.

use vstd::prelude::*;
use crate::{BlockModel, NodeModel, Visibility};
use crate::interp::CtxModel;
use crate::render::{
    LinkEntryModel, View, base_ctx, child_ctx, link_index, manuscript, manuscript_blocks,
    manuscript_kids, print_inlines, render_model, words, words_blocks, words_kids,
};
use crate::text::{count_words, is_ws, trim, trim_end, trim_newlines_end, trim_start};

verus! {

/// No heading of the subtree prints: below the root every node is a scene,
/// excluded, or untitled.
pub open spec fn no_printed_headings(n: NodeModel) -> bool
    decreases n,
{
    &&& !(n.level > 0 && n.visibility == Visibility::Visible && n.title.len() > 0)
    &&& forall|i: int| 0 <= i < n.children.len() ==> no_printed_headings(#[trigger] n.children[i])
}

/// Words never straddle a whitespace boundary.
proof fn lemma_count_concat(a: Seq<char>, b: Seq<char>)
    requires
        a.len() == 0 || b.len() == 0 || is_ws(a.last()) || is_ws(b[0]),
    ensures
        count_words(a + b) == count_words(a) + count_words(b),
    decreases b.len(),
{
    if b.len() == 0 {
        assert(a + b =~= a);
    } else {
        let ab = a + b;
        assert(ab.drop_last() =~= a + b.drop_last());
        assert(ab.last() == b.last());
        if b.len() > 1 {
            assert(b.drop_last()[0] == b[0]);
            lemma_count_concat(a, b.drop_last());
            assert(ab[ab.len() - 2] == b[b.len() - 2]);
        } else {
            assert(a + b.drop_last() =~= a);
            assert(b.drop_last() =~= Seq::<char>::empty());
            assert(count_words(b.drop_last()) == 0);
            assert(b.last() == b[0]);
            if a.len() > 0 {
                assert(ab[ab.len() - 2] == a.last());
            }
        }
    }
}

proof fn lemma_count_all_ws(s: Seq<char>)
    requires
        forall|i: int| 0 <= i < s.len() ==> is_ws(s[i]),
    ensures
        count_words(s) == 0,
    decreases s.len(),
{
    if s.len() > 0 {
        lemma_count_all_ws(s.drop_last());
    }
}

proof fn lemma_count_trim_end(s: Seq<char>)
    ensures
        count_words(trim_end(s)) == count_words(s),
    decreases s.len(),
{
    if s.len() > 0 && is_ws(s.last()) {
        lemma_count_trim_end(s.drop_last());
    }
}

proof fn lemma_count_trim_start(s: Seq<char>)
    ensures
        count_words(trim_start(s)) == count_words(s),
    decreases s.len(),
{
    if s.len() > 0 && is_ws(s[0]) {
        lemma_count_trim_start(s.drop_first());
        let c = seq![s[0]];
        assert(c + s.drop_first() =~= s);
        assert(c.drop_last() =~= Seq::<char>::empty());
        assert(count_words(c.drop_last()) == 0);
        assert(c.last() == s[0]);
        assert(count_words(c) == 0);
        lemma_count_concat(c, s.drop_first());
    }
}

proof fn lemma_count_trim(s: Seq<char>)
    ensures
        count_words(trim(s)) == count_words(s),
{
    lemma_count_trim_start(s);
    lemma_count_trim_end(trim_start(s));
}

proof fn lemma_count_trim_newlines(s: Seq<char>)
    ensures
        count_words(trim_newlines_end(s)) == count_words(s),
    decreases s.len(),
{
    if s.len() > 0 && s.last() == '\n' {
        lemma_count_trim_newlines(s.drop_last());
    }
}

/// Printed blocks: empty or ending in a newline, and as many words as the
/// paragraphs they print.
proof fn lemma_blocks(b: Seq<BlockModel>, ctx: CtxModel, l: Seq<LinkEntryModel>)
    ensures
        count_words(manuscript_blocks(b, ctx, l)) == words_blocks(b, ctx, l),
        manuscript_blocks(b, ctx, l).len() == 0 || manuscript_blocks(b, ctx, l).last() == '\n',
    decreases b.len(),
{
    if b.len() > 0 {
        lemma_blocks(b.drop_last(), ctx, l);
        let prev = manuscript_blocks(b.drop_last(), ctx, l);
        match b.last() {
            BlockModel::Para(spans) => {
                let p = print_inlines(spans, ctx, l);
                let line = trim(p);
                lemma_count_trim(p);
                let piece = if line.len() > 0 {
                    line + seq!['\n', '\n']
                } else {
                    seq![]
                };
                if line.len() > 0 {
                    lemma_count_concat(line, seq!['\n', '\n']);
                    lemma_count_all_ws(seq!['\n', '\n']);
                } else {
                    assert(count_words(line) == 0);
                }
                lemma_count_concat(prev, piece);
                assert(manuscript_blocks(b, ctx, l) == prev + piece);
            },
            BlockModel::LineComment(_) => {
                assert(manuscript_blocks(b, ctx, l) =~= prev);
            },
        }
    }
}

proof fn lemma_kids(n: NodeModel, ctx: CtxModel, l: Seq<LinkEntryModel>, i: int)
    requires
        0 <= i <= n.children.len(),
        forall|j: int| 0 <= j < n.children.len() ==> no_printed_headings(#[trigger] n.children[j]),
    ensures
        count_words(manuscript_kids(n, ctx, l, i)) == words_kids(n, ctx, l, i),
        manuscript_kids(n, ctx, l, i).len() == 0 || manuscript_kids(n, ctx, l, i).last() == '\n',
    decreases n, 0nat, i,
{
    if i > 0 {
        lemma_kids(n, ctx, l, i - 1);
        let c = n.children[i - 1];
        lemma_node(c, child_ctx(n, ctx, i - 1), l);
        lemma_count_concat(manuscript_kids(n, ctx, l, i - 1), manuscript(c, child_ctx(n, ctx, i - 1), l));
    }
}

proof fn lemma_node(n: NodeModel, ctx: CtxModel, l: Seq<LinkEntryModel>)
    requires
        no_printed_headings(n),
    ensures
        count_words(manuscript(n, ctx, l)) == words(n, ctx, l),
        manuscript(n, ctx, l).len() == 0 || manuscript(n, ctx, l).last() == '\n',
    decreases n, 1nat, 0int,
{
    if n.visibility != Visibility::Excluded {
        lemma_blocks(n.body, ctx, l);
        lemma_kids(n, ctx, l, n.children.len() as int);
        let b = manuscript_blocks(n.body, ctx, l);
        let k = manuscript_kids(n, ctx, l, n.children.len() as int);
        lemma_count_concat(b, k);
        assert(manuscript(n, ctx, l) =~= b + k);
    }
}

/// With no heading printing, the word count is the number of
/// whitespace-separated words of the manuscript view.
pub proof fn word_count_counts_manuscript_words(root: NodeModel)
    requires
        no_printed_headings(root),
    ensures
        words(root, base_ctx(root), link_index(root)) == count_words(render_model(root, View::Manuscript)),
{
    let m = manuscript(root, base_ctx(root), link_index(root));
    lemma_node(root, base_ctx(root), link_index(root));
    lemma_count_trim_newlines(m);
    let t = trim_newlines_end(m);
    if t.len() > 0 {
        lemma_count_concat(t, seq!['\n']);
        lemma_count_all_ws(seq!['\n']);
        assert(t.push('\n') =~= t + seq!['\n']);
    }
}

} // verus!
