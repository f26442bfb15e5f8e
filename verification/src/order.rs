//! The parsed tree in document order: its nodes in preorder are exactly the
//! source's heading lines, in order, with strictly increasing offsets; the
//! root's children keep their marker counts and never deepen; each subtree
//! span runs to the next heading of its level or shallower; and the resolved
//! titles are keyed by exactly the headings.

use vstd::prelude::*;
use crate::{NodeModel, Span};
use crate::interp::{CtxModel, open2, substitute};
use crate::render::{base_ctx, child_ctx, display_title, titles_kids, titles_list, titles_of, to_map};
use crate::text::occurs_at;
use crate::parse::{
    ParseState, clamp_level, close_spans, close_to, flush_top, heading_model, heading_ok,
    init_state, lemma_run_len_nonneg, new_node, next_line, parse_model, run, step, top,
    with_body, with_children, with_meta, with_top,
};
use crate::shape::{
    headings_match, heading_at, parse_heading_spans, parse_levels_nest, parse_spans_tile,
    child_end, lemma_close_spans_child, lemma_close_spans_levels, lemma_close_spans_tile,
    lemma_close_to, lemma_close_to_len, lemma_line_is_source, lemma_run, lemma_with_top_ok,
    levels_follow_markers, levels_nest, lemma_parse_follow, no_cr, spans_tile, stack_ok,
};

verus! {

/// A node's heading offset and level.
pub open spec fn head(n: NodeModel) -> (int, int) {
    (n.heading_span.start as int, n.level as int)
}

/// The nodes below `n`, in preorder, by heading offset and level.
pub open spec fn pre(n: NodeModel) -> Seq<(int, int)>
    decreases n, 1nat, 0int,
{
    pre_kids(n, n.children.len() as int)
}

/// The first `i` children of `n` and their subtrees, in preorder.
pub open spec fn pre_kids(n: NodeModel, i: int) -> Seq<(int, int)>
    decreases n, 0nat, i,
{
    if i <= 0 || i > n.children.len() {
        seq![]
    } else {
        pre_kids(n, i - 1) + seq![head(n.children[i - 1])] + pre(n.children[i - 1])
    }
}

/// The heading offsets of a preorder.
pub open spec fn offsets(p: Seq<(int, int)>) -> Seq<int> {
    p.map_values(|h: (int, int)| h.0)
}

/// The offsets of the heading lines of `s` from the line starting at `start`
/// on, in order.
pub open spec fn heading_lines_from(s: Seq<char>, start: int) -> Seq<int>
    decreases s.len() - start,
{
    if start < 0 || start >= s.len() {
        seq![]
    } else {
        let (raw, next) = next_line(s, start);
        let rest = if start < next <= s.len() {
            heading_lines_from(s, next)
        } else {
            seq![]
        };
        (if heading_model(raw) is Some {
            seq![start]
        } else {
            seq![]
        }) + rest
    }
}

/// The preorder the open-node stack will close into: each open node's
/// heading (the root has none), then its closed subtrees.
pub open spec fn stack_pre(st: Seq<NodeModel>) -> Seq<(int, int)>
    decreases st.len(),
{
    if st.len() == 0 {
        seq![]
    } else {
        stack_pre(st.drop_last()) + (if st.len() > 1 {
            seq![head(st.last())]
        } else {
            seq![]
        }) + pre(st.last())
    }
}

/// The root's children never deepen, and the first open heading is no deeper
/// than the root's last closed child.
pub open spec fn root_order(st: Seq<NodeModel>) -> bool {
    &&& st.len() >= 1
    &&& st.len() == 1 ==> st[0].children.len() == 0
    &&& forall|i: int, j: int|
        0 <= i < j < st[0].children.len() ==> (#[trigger] st[0].children[j]).level <= (
        #[trigger] st[0].children[i]).level
    &&& st.len() >= 2 && st[0].children.len() > 0 ==> st[1].level <= st[0].children.last().level
}

proof fn lemma_pre_kids_prefix(p: NodeModel, q: NodeModel, i: int)
    requires
        0 <= i <= p.children.len(),
        i <= q.children.len(),
        forall|j: int| 0 <= j < i ==> p.children[j] == q.children[j],
    ensures
        pre_kids(p, i) == pre_kids(q, i),
    decreases i,
{
    if i > 0 {
        lemma_pre_kids_prefix(p, q, i - 1);
    }
}

proof fn lemma_pre_push(p: NodeModel, d: NodeModel)
    ensures
        pre(with_children(p, p.children.push(d))) == pre(p) + seq![head(d)] + pre(d),
{
    let q = with_children(p, p.children.push(d));
    lemma_pre_kids_prefix(p, q, p.children.len() as int);
    assert(q.children[p.children.len() as int] == d);
}

proof fn lemma_stack_pre_top(st: Seq<NodeModel>, n: NodeModel)
    requires
        st.len() >= 1,
        n.children == top(st).children,
        n.heading_span == top(st).heading_span,
        n.level == top(st).level,
    ensures
        stack_pre(with_top(st, n)) == stack_pre(st),
{
    let st2 = with_top(st, n);
    assert(st2.drop_last() =~= st.drop_last());
    assert(pre(n) == pre_kids(n, n.children.len() as int));
    lemma_pre_kids_prefix(n, top(st), n.children.len() as int);
}

proof fn lemma_close_to_pre(st: Seq<NodeModel>, level: u8)
    requires
        st.len() >= 1,
        root_order(st),
    ensures
        stack_pre(close_to(st, level)) == stack_pre(st),
        root_order(close_to(st, level)) || close_to(st, level).len() == 1,
        close_to(st, level).len() == 1 && st.len() > 1 ==> close_to(st, level)[0].children.len() > 0
            && close_to(st, level)[0].children.last().level >= level,
        close_to(st, level).len() == 1 ==> forall|i: int, j: int|
            0 <= i < j < close_to(st, level)[0].children.len() ==> (#[trigger] close_to(
                st,
                level,
            )[0].children[j]).level <= (#[trigger] close_to(st, level)[0].children[i]).level,
        close_to(st, level).len() == st.len() ==> close_to(st, level) == st,
        close_to(st, level).len() >= 2 ==> close_to(st, level)[0] == st[0] && close_to(
            st,
            level,
        )[1].level == st[1].level,
    decreases st.len(),
{
    if st.len() > 1 && st.last().level >= level {
        let done = st.last();
        let rest = st.drop_last();
        let p = rest.last();
        let p2 = with_children(p, p.children.push(done));
        let st2 = with_top(rest, p2);
        lemma_pre_push(p, done);
        lemma_close_to_shorter(st2, level);
        assert(st2.drop_last() =~= rest.drop_last());
        assert(stack_pre(st) =~= stack_pre(rest) + seq![head(done)] + pre(done));
        assert(stack_pre(st2) =~= stack_pre(st2.drop_last()) + (if st2.len() > 1 {
            seq![head(p2)]
        } else {
            seq![]
        }) + pre(p2));
        assert(stack_pre(rest) =~= stack_pre(rest.drop_last()) + (if rest.len() > 1 {
            seq![head(p)]
        } else {
            seq![]
        }) + pre(p));
        assert(stack_pre(st2) == stack_pre(st));
        if st.len() == 2 {
            assert(st2.len() == 1);
            assert(st2[0].children == st[0].children.push(st[1]));
            assert forall|i: int, j: int| 0 <= i < j < st2[0].children.len() implies (
            #[trigger] st2[0].children[j]).level <= (#[trigger] st2[0].children[i]).level by {
                if j == st[0].children.len() {
                    if st[0].children.len() > 0 {
                        assert(st[0].children[i].level >= st[0].children.last().level) by {
                            if i < st[0].children.len() - 1 {
                                assert(st[0].children[st[0].children.len() - 1] == st[0].children.last());
                            }
                        }
                    }
                } else {
                    assert(st2[0].children[j] == st[0].children[j]);
                    assert(st2[0].children[i] == st[0].children[i]);
                }
            }
            assert(st2[0].children.last() == st[1]);
            lemma_close_to_pre_one(st2, level);
        } else {
            assert(st2[0] == st[0]);
            assert(st2[1].level == st[1].level);
            assert(root_order(st2));
            lemma_close_to_pre(st2, level);
        }
    }
}

proof fn lemma_close_to_shorter(st: Seq<NodeModel>, level: u8)
    requires
        st.len() >= 1,
    ensures
        close_to(st, level).len() <= st.len(),
    decreases st.len(),
{
    if st.len() > 1 && st.last().level >= level {
        let done = st.last();
        let rest = st.drop_last();
        lemma_close_to_shorter(with_top(rest, with_children(rest.last(), rest.last().children.push(done))), level);
    }
}

proof fn lemma_close_to_pre_one(st: Seq<NodeModel>, level: u8)
    requires
        st.len() == 1,
    ensures
        close_to(st, level) == st,
{
}


proof fn lemma_root_order_top(st: Seq<NodeModel>, n: NodeModel)
    requires
        root_order(st),
        n.children == top(st).children,
        n.level == top(st).level,
    ensures
        root_order(with_top(st, n)),
{
    let st2 = with_top(st, n);
    assert(st2[0].children == st[0].children);
    if st.len() >= 2 {
        assert(st2[1].level == st[1].level);
    }
}

proof fn lemma_step_order(st: ParseState, raw: Seq<char>, doc_len: int)
    requires
        0 <= st.offset <= usize::MAX,
        root_order(st.stack),
        step(st, raw, doc_len).1,
    ensures
        ({
            let st2 = step(st, raw, doc_len).0;
            &&& root_order(st2.stack)
            &&& offsets(stack_pre(st2.stack)) == offsets(stack_pre(st.stack)) + (if heading_model(
                raw,
            ) is Some {
                seq![st.offset]
            } else {
                seq![]
            })
            &&& st2.offset == st.offset + raw.len() + 1
        }),
{
    let n = top(st.stack);
    match heading_model(raw) {
        Some((count, vis, title)) => {
            let nb = with_body(n, n.body + crate::parse::blocks_of(st.body_lines));
            let stack1 = flush_top(st.stack, st.body_lines);
            lemma_stack_pre_top(st.stack, nb);
            lemma_root_order_top(st.stack, nb);
            assert(heading_ok(raw));
            lemma_run_len_nonneg(raw, 1, raw[0]);
            let level = clamp_level(stack1, count);
            let stack2 = close_to(stack1, level);
            lemma_close_to_pre(stack1, level);
            lemma_close_to_len(stack1, level);
            if stack1.len() == 1 {
                assert(stack2 == stack1);
            }
            let nn = new_node(level, vis, title, st.offset, st.offset + raw.len(), doc_len);
            let s3 = stack2.push(nn);
            assert(s3.drop_last() =~= stack2);
            assert(pre(nn) =~= Seq::<(int, int)>::empty());
            assert(stack_pre(s3) =~= stack_pre(stack2) + seq![head(nn)]);
            assert(offsets(stack_pre(s3)) =~= offsets(stack_pre(st.stack)) + seq![st.offset]);
            assert(s3[0] == stack2[0]);
            if stack2.len() >= 2 {
                assert(s3[1] == stack2[1]);
            }
            assert forall|i: int, j: int| 0 <= i < j < s3[0].children.len() implies (
            #[trigger] s3[0].children[j]).level <= (#[trigger] s3[0].children[i]).level by {}
            assert(root_order(s3));
        },
        None => {
            if st.in_meta && st.multiline && crate::parse::indented(raw) {
                let (k, v) = n.meta.last();
                let v2 = if v.len() > 0 {
                    v + seq!['\n'] + crate::text::trim(raw)
                } else {
                    crate::text::trim(raw)
                };
                let m = with_meta(n, n.meta.update(n.meta.len() - 1, (k, v2)));
                lemma_stack_pre_top(st.stack, m);
                lemma_root_order_top(st.stack, m);
            } else if st.in_meta && crate::text::trim(raw).len() == 0 {
            } else if st.in_meta && crate::parse::meta_line_model(raw) is Some {
                let (k, v) = crate::parse::meta_line_model(raw)->0;
                let m = with_meta(n, n.meta.push((k, v)));
                lemma_stack_pre_top(st.stack, m);
                lemma_root_order_top(st.stack, m);
            }
            assert(offsets(stack_pre(st.stack)) + Seq::<int>::empty() =~= offsets(stack_pre(st.stack)));
        },
    }
}

proof fn lemma_run_order(src: Seq<char>, start: int, st: ParseState, doc_len: int)
    requires
        no_cr(src),
        0 <= start,
        start < src.len() ==> st.offset == start,
        root_order(st.stack),
        run(src, start, st, doc_len).1,
        src.len() <= usize::MAX,
    ensures
        root_order(run(src, start, st, doc_len).0.stack),
        offsets(stack_pre(run(src, start, st, doc_len).0.stack)) == offsets(stack_pre(st.stack))
            + heading_lines_from(src, start),
    decreases src.len() - start,
{
    if 0 <= start < src.len() {
        let (raw, next) = next_line(src, start);
        if start < next <= src.len() {
            lemma_step_order(st, raw, doc_len);
            lemma_line_is_source(src, start);
            let st2 = step(st, raw, doc_len).0;
            lemma_run_order(src, next, st2, doc_len);
            let h = if heading_model(raw) is Some {
                seq![start]
            } else {
                seq![]
            };
            assert(heading_lines_from(src, start) == h + heading_lines_from(src, next));
            assert(offsets(stack_pre(st.stack)) + h + heading_lines_from(src, next) =~= offsets(
                stack_pre(st.stack),
            ) + heading_lines_from(src, start));
        } else {
            assert(heading_lines_from(src, start) =~= (if heading_model(raw) is Some {
                seq![start]
            } else {
                seq![]
            }));
            assert(false) by {
                lemma_next_line_advances(src, start);
            }
        }
    } else {
        assert(offsets(stack_pre(st.stack)) + heading_lines_from(src, start) =~= offsets(stack_pre(st.stack)));
    }
}

proof fn lemma_pre_close_spans(n: NodeModel, end: int)
    ensures
        pre(close_spans(n, end)) == pre(n),
        close_spans(n, end).children.len() == n.children.len(),
    decreases n,
{
    let r = close_spans(n, end);
    assert forall|i: int| 0 <= i < n.children.len() implies #[trigger] r.children[i] == close_spans(
        n.children[i],
        child_end(n, end, i),
    ) && pre(r.children[i]) == pre(n.children[i]) && head(r.children[i]) == head(n.children[i]) by {
        lemma_close_spans_child(n, end, i);
        lemma_pre_close_spans(n.children[i], child_end(n, end, i));
    }
    lemma_close_spans_child_len(n, end);
    lemma_pre_kids_close(n, end, n.children.len() as int);
}

proof fn lemma_close_spans_child_len(n: NodeModel, end: int)
    ensures
        close_spans(n, end).children.len() == n.children.len(),
{
    assert(close_spans(n, end).children == crate::parse::close_spans_seq(n.children, end));
}

proof fn lemma_pre_kids_close(n: NodeModel, end: int, i: int)
    requires
        0 <= i <= n.children.len(),
        close_spans(n, end).children.len() == n.children.len(),
        forall|j: int|
            0 <= j < n.children.len() ==> pre(#[trigger] close_spans(n, end).children[j]) == pre(
                n.children[j],
            ) && head(close_spans(n, end).children[j]) == head(n.children[j]),
    ensures
        pre_kids(close_spans(n, end), i) == pre_kids(n, i),
    decreases i,
{
    if i > 0 {
        lemma_pre_kids_close(n, end, i - 1);
    }
}

/// Strictly increasing.
pub open spec fn increasing(o: Seq<int>) -> bool {
    forall|i: int, j: int| 0 <= i < j < o.len() ==> #[trigger] o[i] < #[trigger] o[j]
}

proof fn lemma_next_line_len(s: Seq<char>, start: int)
    requires
        0 <= start < s.len(),
    ensures
        next_line(s, start).1 == s.len() || start + next_line(s, start).0.len() + 1 <= next_line(
            s,
            start,
        ).1,
{
    crate::text::lemma_find_from_bounds(s, start, seq!['\n']);
}

/// Whatever the line endings, the parser hands out heading offsets in
/// increasing order, each below its running offset.
proof fn lemma_run_increasing(src: Seq<char>, start: int, st: ParseState, doc_len: int)
    requires
        0 <= start,
        start < src.len() ==> 0 <= st.offset <= start,
        root_order(st.stack),
        run(src, start, st, doc_len).1,
        src.len() <= usize::MAX,
        increasing(offsets(stack_pre(st.stack))),
        forall|j: int| 0 <= j < offsets(stack_pre(st.stack)).len() ==> #[trigger] offsets(stack_pre(st.stack))[j] < st.offset,
    ensures
        root_order(run(src, start, st, doc_len).0.stack),
        increasing(offsets(stack_pre(run(src, start, st, doc_len).0.stack))),
    decreases src.len() - start,
{
    if 0 <= start < src.len() {
        let (raw, next) = next_line(src, start);
        lemma_next_line_advances(src, start);
        lemma_next_line_len(src, start);
        lemma_step_order(st, raw, doc_len);
        let st2 = step(st, raw, doc_len).0;
        let o = offsets(stack_pre(st.stack));
        let o2 = offsets(stack_pre(st2.stack));
        assert(increasing(o2) && forall|j: int| 0 <= j < o2.len() ==> #[trigger] o2[j] < st2.offset) by {
            if heading_model(raw) is Some {
                assert(o2 == o + seq![st.offset]);
                assert forall|i: int, j: int| 0 <= i < j < o2.len() implies #[trigger] o2[i] < #[trigger] o2[j] by {
                    assert(o2[i] == o[i]);
                    if j < o.len() {
                        assert(o2[j] == o[j]);
                    }
                }
                assert forall|j: int| 0 <= j < o2.len() implies #[trigger] o2[j] < st2.offset by {
                    if j < o.len() {
                        assert(o2[j] == o[j]);
                    }
                }
            } else {
                assert(o2 =~= o);
            }
        }
        lemma_run_increasing(src, next, st2, doc_len);
    }
}

/// The root the parser closes the final stack into: its preorder is the
/// stack's, and where the root's children never deepen on the stack they
/// never deepen in the tree.
proof fn lemma_final_pre(src: Seq<char>)
    requires
        parse_model(src).1,
        root_order(run(src, 0, init_state(src.len() as int), src.len() as int).0.stack),
    ensures
        offsets(pre(parse_model(src).0)) == offsets(stack_pre(run(src, 0, init_state(src.len() as int), src.len() as int).0.stack)),
        forall|i: int, j: int|
            0 <= i < j < parse_model(src).0.children.len() ==> (#[trigger] parse_model(src).0.children[j]).level
                <= (#[trigger] parse_model(src).0.children[i]).level,
{
    let doc_len = src.len() as int;
    let st0 = init_state(doc_len);
    let (st, ok) = run(src, 0, st0, doc_len);
    let n = top(st.stack);
    let nb = with_body(n, n.body + crate::parse::blocks_of(st.body_lines));
    lemma_stack_pre_top(st.stack, nb);
    lemma_root_order_top(st.stack, nb);
    let fl = flush_top(st.stack, st.body_lines);
    let stack = close_to(fl, 0);
    lemma_close_to_pre(fl, 0);
    lemma_close_to_len(fl, 0);
    lemma_close_to_shorter_all(fl);
    assert(stack.len() == 1);
    assert(stack.drop_last() =~= Seq::<NodeModel>::empty());
    assert(stack_pre(Seq::<NodeModel>::empty()) =~= Seq::<(int, int)>::empty());
    assert(stack.last() == stack[0]);
    assert(stack_pre(stack) =~= pre(stack[0]));
    lemma_pre_close_spans(stack[0], doc_len);
    let root = close_spans(stack[0], doc_len);
    assert forall|i: int, j: int| 0 <= i < j < root.children.len() implies (#[trigger] root.children[j]).level
        <= (#[trigger] root.children[i]).level by {
        lemma_close_spans_child(stack[0], doc_len, i);
        lemma_close_spans_child(stack[0], doc_len, j);
        assert(close_spans(stack[0].children[i], child_end(stack[0], doc_len, i)).level == stack[0].children[i].level);
        assert(close_spans(stack[0].children[j], child_end(stack[0], doc_len, j)).level == stack[0].children[j].level);
    }
}

proof fn lemma_init_pre(doc_len: int)
    ensures
        root_order(init_state(doc_len).stack),
        offsets(stack_pre(init_state(doc_len).stack)) == Seq::<int>::empty(),
{
    let st0 = init_state(doc_len);
    assert(stack_pre(st0.stack) =~= Seq::<(int, int)>::empty()) by {
        assert(st0.stack.len() == 1);
        assert(st0.stack.drop_last() =~= Seq::<NodeModel>::empty());
        assert(stack_pre(Seq::<NodeModel>::empty()) =~= Seq::<(int, int)>::empty());
        assert(st0.stack[0].children.len() == 0);
        assert(pre_kids(st0.stack[0], 0) =~= Seq::<(int, int)>::empty());
        assert(pre(st0.stack[0]) =~= Seq::<(int, int)>::empty());
    }
    assert(offsets(Seq::<(int, int)>::empty()) =~= Seq::<int>::empty());
}

/// On any source, line endings aside: the nodes below the root, listed in
/// preorder, have strictly increasing heading offsets, and the root's children
/// never deepen (each is at most as deep as the one before).
pub proof fn parse_headings_ordered(src: Seq<char>)
    requires
        parse_model(src).1,
        src.len() <= usize::MAX,
    ensures
        increasing(offsets(pre(parse_model(src).0))),
        forall|i: int, j: int|
            0 <= i < j < parse_model(src).0.children.len() ==> (#[trigger] parse_model(src).0.children[j]).level
                <= (#[trigger] parse_model(src).0.children[i]).level,
{
    let doc_len = src.len() as int;
    lemma_init_pre(doc_len);
    lemma_run_increasing(src, 0, init_state(doc_len), doc_len);
    lemma_final_pre(src);
}

/// Levels follow the heading markers: the root's children keep their marker
/// counts and never deepen (each is at most as deep as the one before); below
/// them each node sits one level under its parent, its level the smaller of
/// its marker count and its parent's level plus one (a deeper jump is clamped).
pub proof fn parse_levels_follow_markers(src: Seq<char>)
    requires
        parse_model(src).1,
        no_cr(src),
        src.len() <= usize::MAX,
    ensures
        parse_model(src).0.level == 0,
        levels_follow_markers(src, parse_model(src).0),
        levels_nest(parse_model(src).0),
        forall|i: int, j: int|
            0 <= i < j < parse_model(src).0.children.len() ==> (#[trigger] parse_model(src).0.children[j]).level
                <= (#[trigger] parse_model(src).0.children[i]).level,
{
    lemma_parse_follow(src);
    parse_levels_nest(src);
    parse_headings_ordered(src);
}

/// Every heading line of the source becomes exactly one node, in order: the
/// heading offsets of the nodes below the root, listed in preorder, are the
/// offsets of the source's heading lines. With `parse_heading_spans`, each
/// node carries its line's marker kind and title.
pub proof fn parse_headings_in_order(src: Seq<char>)
    requires
        parse_model(src).1,
        no_cr(src),
        src.len() <= usize::MAX,
    ensures
        offsets(pre(parse_model(src).0)) == heading_lines_from(src, 0),
        increasing(offsets(pre(parse_model(src).0))),
        forall|i: int, j: int|
            0 <= i < j < parse_model(src).0.children.len() ==> (#[trigger] parse_model(src).0.children[j]).level
                <= (#[trigger] parse_model(src).0.children[i]).level,
{
    let doc_len = src.len() as int;
    let st0 = init_state(doc_len);
    lemma_init_pre(doc_len);
    lemma_run_order(src, 0, st0, doc_len);
    lemma_final_pre(src);
    assert(offsets(stack_pre(st0.stack)) + heading_lines_from(src, 0) =~= heading_lines_from(src, 0));
    parse_headings_ordered(src);
}

proof fn lemma_next_line_advances(s: Seq<char>, start: int)
    requires
        0 <= start < s.len(),
    ensures
        start < next_line(s, start).1 <= s.len(),
{
    crate::text::lemma_find_from_bounds(s, start, seq!['\n']);
}

proof fn lemma_close_to_shorter_all(st: Seq<NodeModel>)
    requires
        st.len() >= 1,
    ensures
        close_to(st, 0).len() == 1,
    decreases st.len(),
{
    if st.len() > 1 {
        let done = st.last();
        let rest = st.drop_last();
        lemma_close_to_shorter_all(with_top(rest, with_children(rest.last(), rest.last().children.push(done))));
    }
}


// ---- where a subtree ends ---------------------------------------------------------------

/// The heading offset of the first node of `p` at level `lv` or shallower,
/// or `end` when there is none.
pub open spec fn first_at_or_above(p: Seq<(int, int)>, lv: int, end: int) -> int
    decreases p.len(),
{
    if p.len() == 0 {
        end
    } else if p[0].1 <= lv {
        p[0].0
    } else {
        first_at_or_above(p.drop_first(), lv, end)
    }
}

/// Children `i..` of `n` and their subtrees, in preorder.
pub open spec fn pre_from(n: NodeModel, i: int) -> Seq<(int, int)>
    decreases n.children.len() - i,
{
    if i < 0 || i >= n.children.len() {
        seq![]
    } else {
        seq![head(n.children[i])] + pre(n.children[i]) + pre_from(n, i + 1)
    }
}

/// Below `n`, every node's subtree span ends where the first later node in
/// preorder at its level or shallower begins, or at `end` if none does;
/// `after` is the preorder that follows `n`'s subtree.
pub open spec fn spans_reach(n: NodeModel, after: Seq<(int, int)>, end: int) -> bool
    decreases n,
{
    forall|i: int|
        0 <= i < n.children.len() ==> {
            &&& (#[trigger] n.children[i]).node_span.end == first_at_or_above(
                pre(n.children[i]) + pre_from(n, i + 1) + after,
                n.children[i].level as int,
                end,
            )
            &&& spans_reach(n.children[i], pre_from(n, i + 1) + after, end)
        }
}

/// Every node below `n` has its subtree span start at its heading.
pub open spec fn starts_agree(n: NodeModel) -> bool
    decreases n,
{
    forall|i: int|
        0 <= i < n.children.len() ==> (#[trigger] n.children[i]).node_span.start
            == n.children[i].heading_span.start && starts_agree(n.children[i])
}

proof fn lemma_starts_agree(src: Seq<char>, n: NodeModel)
    requires
        headings_match(src, n),
    ensures
        starts_agree(n),
    decreases n,
{
    assert forall|i: int| 0 <= i < n.children.len() implies (#[trigger] n.children[i]).node_span.start
        == n.children[i].heading_span.start && starts_agree(n.children[i]) by {
        assert(heading_at(src, n.children[i]));
        lemma_starts_agree(src, n.children[i]);
    }
}

proof fn lemma_first_skip(a: Seq<(int, int)>, b: Seq<(int, int)>, lv: int, end: int)
    requires
        forall|j: int| 0 <= j < a.len() ==> (#[trigger] a[j]).1 > lv,
    ensures
        first_at_or_above(a + b, lv, end) == first_at_or_above(b, lv, end),
    decreases a.len(),
{
    if a.len() > 0 {
        assert((a + b)[0] == a[0]);
        assert((a + b).drop_first() =~= a.drop_first() + b);
        assert forall|j: int| 0 <= j < a.drop_first().len() implies (#[trigger] a.drop_first()[j]).1 > lv by {
            assert(a.drop_first()[j] == a[j + 1]);
        }
        lemma_first_skip(a.drop_first(), b, lv, end);
    } else {
        assert(a + b =~= b);
    }
}

proof fn lemma_pre_deeper(n: NodeModel, lv: int)
    requires
        levels_nest(n),
        n.level >= lv,
    ensures
        forall|j: int| 0 <= j < pre(n).len() ==> (#[trigger] pre(n)[j]).1 > lv,
    decreases n, 1nat, 0int,
{
    lemma_pre_kids_deeper(n, lv, n.children.len() as int);
    assert(pre(n) == pre_kids(n, n.children.len() as int));
}

proof fn lemma_pre_kids_deeper(n: NodeModel, lv: int, i: int)
    requires
        levels_nest(n),
        n.level >= lv,
        0 <= i <= n.children.len(),
    ensures
        forall|j: int| 0 <= j < pre_kids(n, i).len() ==> (#[trigger] pre_kids(n, i)[j]).1 > lv,
    decreases n, 0nat, i,
{
    if i > 0 {
        let c = n.children[i - 1];
        lemma_pre_kids_deeper(n, lv, i - 1);
        assert(c.level > n.level);
        assert(levels_nest(c));
        lemma_pre_deeper(c, lv);
        let a = pre_kids(n, i - 1);
        let p = pre_kids(n, i);
        assert(p == a + seq![head(c)] + pre(c));
        assert forall|j: int| 0 <= j < p.len() implies (#[trigger] p[j]).1 > lv by {
            if j < a.len() {
                assert(p[j] == a[j]);
            } else if j == a.len() {
                assert(p[j] == head(c));
            } else {
                assert(p[j] == pre(c)[j - a.len() - 1]);
            }
        }
    }
}

proof fn lemma_reach(n: NodeModel, after: Seq<(int, int)>, end: int)
    requires
        spans_tile(n),
        levels_nest(n),
        starts_agree(n),
        forall|i: int, j: int|
            0 <= i < j < n.children.len() ==> (#[trigger] n.children[j]).level <= (#[trigger] n.children[i]).level,
        after.len() == 0 ==> n.node_span.end == end,
        after.len() > 0 ==> after[0].1 <= n.level && after[0].0 == n.node_span.end,
    ensures
        spans_reach(n, after, end),
    decreases n,
{
    assert forall|i: int| 0 <= i < n.children.len() implies {
        &&& (#[trigger] n.children[i]).node_span.end == first_at_or_above(
            pre(n.children[i]) + pre_from(n, i + 1) + after,
            n.children[i].level as int,
            end,
        )
        &&& spans_reach(n.children[i], pre_from(n, i + 1) + after, end)
    } by {
        let c = n.children[i];
        let aft = pre_from(n, i + 1) + after;
        assert(c.level > n.level);
        assert(levels_nest(c));
        assert(spans_tile(c));
        assert(starts_agree(c));
        if i + 1 < n.children.len() {
            let d = n.children[i + 1];
            assert(pre_from(n, i + 1) == seq![head(d)] + pre(d) + pre_from(n, i + 2));
            assert(aft[0] == head(d));
            assert(c.node_span.end == d.node_span.start);
            assert(d.level <= c.level);
        } else {
            assert(pre_from(n, i + 1) =~= Seq::<(int, int)>::empty());
            assert(aft =~= after);
            assert(c == n.children.last());
        }
        assert(aft.len() == 0 ==> c.node_span.end == end);
        assert(aft.len() > 0 ==> aft[0].1 <= c.level && aft[0].0 == c.node_span.end);
        lemma_pre_deeper(c, c.level as int);
        lemma_first_skip(pre(c), aft, c.level as int, end);
        assert(pre(c) + pre_from(n, i + 1) + after =~= pre(c) + aft);
        assert forall|a: int, b: int| 0 <= a < b < c.children.len() implies (#[trigger] c.children[b]).level
            <= (#[trigger] c.children[a]).level by {
            assert(c.children[a].level == c.level + 1);
            assert(c.children[b].level == c.level + 1);
        }
        lemma_reach(c, aft, end);
    }
}

/// The spans of a parsed tree: the root spans the whole document and has the
/// empty heading span `0..0`; every other node's heading span is exactly its
/// heading line (with the node's marker kind and title); and its subtree span
/// is the cut/paste range of that heading: it starts at the heading and ends
/// where the next heading in document order at the node's level or shallower
/// begins, or at the end of the document.
pub proof fn parse_spans_reach_next(src: Seq<char>)
    requires
        parse_model(src).1,
        no_cr(src),
        src.len() <= usize::MAX,
    ensures
        parse_model(src).0.node_span == (Span { start: 0, end: src.len() as usize }),
        parse_model(src).0.heading_span == (Span { start: 0, end: 0 }),
        headings_match(src, parse_model(src).0),
        starts_agree(parse_model(src).0),
        spans_reach(parse_model(src).0, seq![], src.len() as int),
{
    let root = parse_model(src).0;
    parse_spans_tile(src);
    parse_levels_nest(src);
    parse_heading_spans(src);
    parse_headings_in_order(src);
    lemma_starts_agree(src, root);
    lemma_reach(root, seq![], src.len() as int);
}


// ---- resolved titles ------------------------------------------------------------------------

/// The offsets a title list is keyed by.
pub open spec fn title_keys(l: Seq<(usize, Seq<char>)>) -> Seq<int> {
    l.map_values(|p: (usize, Seq<char>)| p.0 as int)
}

/// Below `n` (in context `ctx`), every node's heading offset maps in `m` to
/// its title as the views show it: resolved in its context, which is the
/// title itself when it holds no `{{`, and what the outline prints for it.
pub open spec fn titles_resolved(n: NodeModel, ctx: CtxModel, m: Map<usize, Seq<char>>) -> bool
    decreases n,
{
    forall|i: int|
        0 <= i < n.children.len() ==> {
            let c = #[trigger] n.children[i];
            let cctx = child_ctx(n, ctx, i);
            &&& m.contains_key(c.heading_span.start)
            &&& m[c.heading_span.start] == substitute(c.title, cctx)
            &&& c.title.len() > 0 ==> display_title(c.title, cctx) == m[c.heading_span.start]
            &&& (forall|j: int| 0 <= j ==> !occurs_at(c.title, j, open2())) ==> m[c.heading_span.start]
                == c.title
            &&& titles_resolved(c, cctx, m)
        }
}

proof fn lemma_title_keys_kids(n: NodeModel, ctx: CtxModel, i: int)
    requires
        0 <= i <= n.children.len(),
    ensures
        title_keys(titles_kids(n, ctx, i)) == offsets(pre_kids(n, i)),
    decreases n, 0nat, i,
{
    if i > 0 {
        let c = n.children[i - 1];
        let cctx = child_ctx(n, ctx, i - 1);
        lemma_title_keys_kids(n, ctx, i - 1);
        lemma_title_keys_kids(c, cctx, c.children.len() as int);
        assert(titles_of(c, cctx) == seq![(c.heading_span.start, substitute(c.title, cctx))] + titles_kids(
            c,
            cctx,
            c.children.len() as int,
        ));
        assert(title_keys(titles_kids(n, ctx, i)) =~= title_keys(titles_kids(n, ctx, i - 1)) + seq![
            c.heading_span.start as int,
        ] + title_keys(titles_kids(c, cctx, c.children.len() as int)));
        assert(offsets(pre_kids(n, i)) =~= offsets(pre_kids(n, i - 1)) + seq![head(c).0] + offsets(pre(c)));
    } else {
        assert(title_keys(titles_kids(n, ctx, i)) =~= Seq::<int>::empty());
        assert(offsets(pre_kids(n, i)) =~= Seq::<int>::empty());
    }
}

proof fn lemma_to_map_dom(l: Seq<(usize, Seq<char>)>, k: usize)
    ensures
        to_map(l).dom().contains(k) <==> exists|j: int| 0 <= j < l.len() && (#[trigger] l[j]).0 == k,
    decreases l.len(),
{
    if l.len() > 0 {
        lemma_to_map_dom(l.drop_last(), k);
        if exists|j: int| 0 <= j < l.drop_last().len() && (#[trigger] l.drop_last()[j]).0 == k {
            let j = choose|j: int| 0 <= j < l.drop_last().len() && (#[trigger] l.drop_last()[j]).0 == k;
            assert(l[j] == l.drop_last()[j]);
        }
        if exists|j: int| 0 <= j < l.len() && (#[trigger] l[j]).0 == k {
            let j = choose|j: int| 0 <= j < l.len() && (#[trigger] l[j]).0 == k;
            if j < l.len() - 1 {
                assert(l.drop_last()[j] == l[j]);
            }
        }
    }
}

/// With distinct keys, the map holds each pair of the list.
proof fn lemma_to_map_value(l: Seq<(usize, Seq<char>)>, j: int)
    requires
        0 <= j < l.len(),
        forall|a: int, b: int| 0 <= a < b < l.len() ==> (#[trigger] l[a]).0 != (#[trigger] l[b]).0,
    ensures
        to_map(l).contains_key(l[j].0),
        to_map(l)[l[j].0] == l[j].1,
    decreases l.len(),
{
    if j < l.len() - 1 {
        let d = l.drop_last();
        assert forall|a: int, b: int| 0 <= a < b < d.len() implies (#[trigger] d[a]).0 != (#[trigger] d[b]).0 by {
            assert(d[a] == l[a] && d[b] == l[b]);
        }
        assert(d[j] == l[j]);
        lemma_to_map_value(d, j);
        assert(l[j].0 != l.last().0);
    }
}

/// Every entry of the title list of child `i` lies in the title list of the
/// first `k` children, for `k > i`.
proof fn lemma_titles_kids_contains(n: NodeModel, ctx: CtxModel, i: int, k: int, j: int)
    requires
        0 <= i < k <= n.children.len(),
        0 <= j < titles_of(n.children[i], child_ctx(n, ctx, i)).len(),
    ensures
        titles_kids(n, ctx, k).contains(titles_of(n.children[i], child_ctx(n, ctx, i))[j]),
    decreases k,
{
    let t = titles_of(n.children[i], child_ctx(n, ctx, i));
    if k == i + 1 {
        let a = titles_kids(n, ctx, i);
        assert(titles_kids(n, ctx, k) == a + t);
        assert(titles_kids(n, ctx, k)[a.len() + j] == t[j]);
    } else {
        lemma_titles_kids_contains(n, ctx, i, k - 1, j);
        let a = titles_kids(n, ctx, k - 1);
        let x = t[j];
        let q = choose|q: int| 0 <= q < a.len() && a[q] == x;
        assert(titles_kids(n, ctx, k) == a + titles_of(n.children[k - 1], child_ctx(n, ctx, k - 1)));
        assert(titles_kids(n, ctx, k)[q] == x);
    }
}

proof fn lemma_titles_resolved(n: NodeModel, ctx: CtxModel, l: Seq<(usize, Seq<char>)>)
    requires
        forall|a: int, b: int| 0 <= a < b < l.len() ==> (#[trigger] l[a]).0 != (#[trigger] l[b]).0,
        forall|q: int|
            0 <= q < titles_kids(n, ctx, n.children.len() as int).len() ==> l.contains(
                #[trigger] titles_kids(n, ctx, n.children.len() as int)[q],
            ),
    ensures
        titles_resolved(n, ctx, to_map(l)),
    decreases n,
{
    let m = to_map(l);
    assert forall|i: int| 0 <= i < n.children.len() implies {
        let c = #[trigger] n.children[i];
        let cctx = child_ctx(n, ctx, i);
        &&& m.contains_key(c.heading_span.start)
        &&& m[c.heading_span.start] == substitute(c.title, cctx)
        &&& c.title.len() > 0 ==> display_title(c.title, cctx) == m[c.heading_span.start]
        &&& (forall|j: int| 0 <= j ==> !occurs_at(c.title, j, open2())) ==> m[c.heading_span.start]
            == c.title
        &&& titles_resolved(c, cctx, m)
    } by {
        let c = n.children[i];
        let cctx = child_ctx(n, ctx, i);
        let t = titles_of(c, cctx);
        let all = titles_kids(n, ctx, n.children.len() as int);
        assert(t[0] == (c.heading_span.start, substitute(c.title, cctx)));
        lemma_titles_kids_contains(n, ctx, i, n.children.len() as int, 0);
        let q0 = choose|q: int| 0 <= q < all.len() && all[q] == t[0];
        assert(l.contains(all[q0]));
        let p = choose|p: int| 0 <= p < l.len() && l[p] == t[0];
        lemma_to_map_value(l, p);
        if forall|j: int| 0 <= j ==> !occurs_at(c.title, j, open2()) {
            crate::interp::substitute_plain_text(c.title, cctx);
        }
        let ck = titles_kids(c, cctx, c.children.len() as int);
        assert forall|q: int| 0 <= q < ck.len() implies l.contains(#[trigger] ck[q]) by {
            assert(t[q + 1] == ck[q]);
            lemma_titles_kids_contains(n, ctx, i, n.children.len() as int, q + 1);
            let r = choose|r: int| 0 <= r < all.len() && all[r] == t[q + 1];
            assert(l.contains(all[r]));
        }
        lemma_titles_resolved(c, cctx, l);
    }
}

/// `resolve_titles` covers exactly the headings: its keys are the heading
/// offsets of the nodes below the root (the root has none), and each maps to
/// that node's title as the views show it (resolved; the title itself when it
/// holds no `{{`; what the outline prints).
pub proof fn resolved_titles_cover_headings(src: Seq<char>)
    requires
        parse_model(src).1,
        src.len() <= usize::MAX,
    ensures
        forall|k: usize|
            to_map(titles_list(parse_model(src).0)).dom().contains(k) <==> offsets(
                pre(parse_model(src).0),
            ).contains(k as int),
        titles_resolved(parse_model(src).0, base_ctx(parse_model(src).0), to_map(titles_list(parse_model(src).0))),
{
    let root = parse_model(src).0;
    let l = titles_list(root);
    parse_headings_ordered(src);
    lemma_title_keys_kids(root, base_ctx(root), root.children.len() as int);
    assert(title_keys(l) == offsets(pre(root)));
    let o = offsets(pre(root));
    assert forall|a: int, b: int| 0 <= a < b < l.len() implies (#[trigger] l[a]).0 != (#[trigger] l[b]).0 by {
        assert(title_keys(l)[a] == l[a].0 as int);
        assert(title_keys(l)[b] == l[b].0 as int);
        assert(o[a] < o[b]);
    }
    assert forall|k: usize| to_map(l).dom().contains(k) <==> o.contains(k as int) by {
        lemma_to_map_dom(l, k);
        if o.contains(k as int) {
            let j = choose|j: int| 0 <= j < o.len() && o[j] == k as int;
            assert(title_keys(l)[j] == l[j].0 as int);
        }
        if exists|j: int| 0 <= j < l.len() && (#[trigger] l[j]).0 == k {
            let j = choose|j: int| 0 <= j < l.len() && (#[trigger] l[j]).0 == k;
            assert(title_keys(l)[j] == l[j].0 as int);
            assert(o[j] == k as int);
        }
    }
    assert forall|q: int| 0 <= q < l.len() implies l.contains(#[trigger] l[q]) by {}
    lemma_titles_resolved(root, base_ctx(root), l);
}

} // verus!
