//! The shape of a parsed tree: how heading levels nest, and how node spans
//! tile the source so that a subtree's span is its cut/paste range.

use vstd::prelude::*;
use crate::{NodeModel, Span};
use crate::parse::{
    ParseState, clamp_level, close_spans, close_spans_seq, close_to, flush_top, heading_model,
    heading_ok, init_state, lemma_run_len_nonneg, new_node, parse_model, run, run_len, step, top,
    with_body, with_children, with_meta, with_top,
};

verus! {

/// Every child sits one level below its parent; under the root (level 0) a
/// child may start at any level of 1 or more.
pub open spec fn levels_nest(n: NodeModel) -> bool
    decreases n,
{
    forall|i: int|
        0 <= i < n.children.len() ==> {
            &&& #[trigger] n.children[i].level > n.level
            &&& n.level > 0 ==> n.children[i].level == n.level + 1
            &&& levels_nest(n.children[i])
        }
}

/// Sibling spans abut (each ends where the next begins), the last child ends
/// where its parent ends, and the same holds all the way down.
pub open spec fn spans_tile(n: NodeModel) -> bool
    decreases n,
{
    &&& forall|i: int, j: int|
        0 <= i && j == i + 1 && j < n.children.len() ==> (#[trigger] n.children[i]).node_span.end
            == (#[trigger] n.children[j]).node_span.start
    &&& n.children.len() > 0 ==> n.children.last().node_span.end == n.node_span.end
    &&& forall|i: int| 0 <= i < n.children.len() ==> spans_tile(#[trigger] n.children[i])
}

/// The parser's open-node stack: the root first (level 0, spanning from 0,
/// with the empty heading span `0..0`),
/// each open heading one level below the one before it (the first at any
/// level of 1 or more), every closed subtree already nested.
pub open spec fn stack_ok(st: Seq<NodeModel>) -> bool {
    &&& st.len() >= 1
    &&& st[0].level == 0
    &&& st[0].node_span.start == 0
    &&& st[0].heading_span == Span { start: 0, end: 0 }
    &&& forall|i: int| 1 <= i < st.len() ==> #[trigger] st[i].level >= 1
    &&& forall|i: int| 2 <= i < st.len() ==> #[trigger] st[i].level == st[i - 1].level + 1
    &&& forall|i: int| 0 <= i < st.len() ==> levels_nest(#[trigger] st[i])
}

proof fn lemma_nest_push(p: NodeModel, d: NodeModel)
    requires
        levels_nest(p),
        levels_nest(d),
        d.level > p.level,
        p.level > 0 ==> d.level == p.level + 1,
    ensures
        levels_nest(with_children(p, p.children.push(d))),
{
    let q = with_children(p, p.children.push(d));
    assert forall|i: int| 0 <= i < q.children.len() implies {
        &&& #[trigger] q.children[i].level > q.level
        &&& q.level > 0 ==> q.children[i].level == q.level + 1
        &&& levels_nest(q.children[i])
    } by {
        if i < p.children.len() {
            assert(q.children[i] == p.children[i]);
        }
    }
}

/// Closing to `level` keeps the stack well formed; what stays open is the
/// root or a node below `level`, and when something was closed the new top
/// sits at least at `level - 1`.
pub(crate) proof fn lemma_close_to(st: Seq<NodeModel>, level: u8)
    requires
        stack_ok(st),
    ensures
        stack_ok(close_to(st, level)),
        close_to(st, level).len() <= st.len(),
        close_to(st, level).len() == 1 || close_to(st, level).last().level < level,
        close_to(st, level).len() == st.len() ==> close_to(st, level) == st,
        1 < close_to(st, level).len() < st.len() ==> level <= close_to(st, level).last().level + 1,
    decreases st.len(),
{
    if st.len() > 1 && st.last().level >= level {
        let done = st.last();
        let rest = st.drop_last();
        let p = rest.last();
        let st2 = with_top(rest, with_children(p, p.children.push(done)));
        assert(levels_nest(done));
        assert(levels_nest(p));
        if st.len() > 2 {
            assert(done.level == st[st.len() - 2].level + 1);
        }
        lemma_nest_push(p, done);
        assert forall|i: int| 0 <= i < st2.len() implies levels_nest(#[trigger] st2[i]) by {
            if i < st2.len() - 1 {
                assert(st2[i] == st[i]);
            }
        }
        assert forall|i: int| 1 <= i < st2.len() implies #[trigger] st2[i].level >= 1 by {
            assert(st2[i].level == st[i].level);
        }
        assert forall|i: int| 2 <= i < st2.len() implies #[trigger] st2[i].level == st2[i - 1].level + 1 by {
            assert(st2[i].level == st[i].level);
            assert(st2[i - 1].level == st[i - 1].level);
        }
        assert(st2[0].level == 0 && st2[0].node_span.start == 0 && st2[0].heading_span == st[0].heading_span) by {
            assert(st2[0].level == st[0].level);
        }
        lemma_close_to(st2, level);
    }
}

pub(crate) proof fn lemma_with_top_ok(st: Seq<NodeModel>, n: NodeModel)
    requires
        stack_ok(st),
        n.level == top(st).level,
        n.children == top(st).children,
        n.node_span == top(st).node_span,
        n.heading_span == top(st).heading_span,
    ensures
        stack_ok(with_top(st, n)),
{
    let st2 = with_top(st, n);
    assert forall|i: int| 0 <= i < st2.len() implies levels_nest(#[trigger] st2[i]) by {
        if i < st2.len() - 1 {
            assert(st2[i] == st[i]);
        } else {
            assert(levels_nest(st[i]));
        }
    }
    assert forall|i: int| 1 <= i < st2.len() implies #[trigger] st2[i].level >= 1 by {
        assert(st2[i].level == st[i].level);
    }
    assert forall|i: int| 2 <= i < st2.len() implies #[trigger] st2[i].level == st2[i - 1].level + 1 by {
        assert(st2[i].level == st[i].level);
        assert(st2[i - 1].level == st[i - 1].level);
    }
}

pub(crate) proof fn lemma_step(st: ParseState, raw: Seq<char>, doc_len: int)
    requires
        stack_ok(st.stack),
        step(st, raw, doc_len).1,
    ensures
        stack_ok(step(st, raw, doc_len).0.stack),
{
    let n = top(st.stack);
    match heading_model(raw) {
        Some((count, vis, title)) => {
            let stack1 = flush_top(st.stack, st.body_lines);
            lemma_with_top_ok(st.stack, with_body(n, n.body + crate::parse::blocks_of(st.body_lines)));
            assert(heading_ok(raw));
            lemma_run_len_nonneg(raw, 1, raw[0]);
            assert(1 <= count < 256);
            let level = clamp_level(stack1, count);
            assert(level >= 1);
            let stack2 = close_to(stack1, level);
            lemma_close_to(stack1, level);
            if stack2.len() > 1 {
                if stack2.len() == stack1.len() {
                    assert(level <= top(stack1).level + 1);
                }
                assert(level == stack2.last().level + 1);
            }
            let s3 = stack2.push(new_node(level, vis, title, st.offset, st.offset + raw.len(), doc_len));
            assert(levels_nest(new_node(level, vis, title, st.offset, st.offset + raw.len(), doc_len)));
            assert forall|i: int| 0 <= i < s3.len() implies levels_nest(#[trigger] s3[i]) by {
                if i < s3.len() - 1 {
                    assert(s3[i] == stack2[i]);
                }
            }
            assert forall|i: int| 1 <= i < s3.len() implies #[trigger] s3[i].level >= 1 by {
                if i < s3.len() - 1 {
                    assert(s3[i] == stack2[i]);
                }
            }
            assert forall|i: int| 2 <= i < s3.len() implies #[trigger] s3[i].level == s3[i - 1].level + 1 by {
                if i < s3.len() - 1 {
                    assert(s3[i] == stack2[i]);
                }
                assert(s3[i - 1] == stack2[i - 1]);
            }
            assert(s3[0] == stack2[0]);
            assert(stack_ok(s3));
        },
        None => {
            if st.in_meta && st.multiline && crate::parse::indented(raw) {
                let (k, v) = n.meta.last();
                let v2 = if v.len() > 0 {
                    v + seq!['\n'] + crate::text::trim(raw)
                } else {
                    crate::text::trim(raw)
                };
                lemma_with_top_ok(st.stack, with_meta(n, n.meta.update(n.meta.len() - 1, (k, v2))));
            } else if st.in_meta && crate::text::trim(raw).len() == 0 {
            } else if st.in_meta && crate::parse::meta_line_model(raw) is Some {
                let (k, v) = crate::parse::meta_line_model(raw)->0;
                lemma_with_top_ok(st.stack, with_meta(n, n.meta.push((k, v))));
            }
        },
    }
}

pub(crate) proof fn lemma_run(s: Seq<char>, start: int, st: ParseState, doc_len: int)
    requires
        stack_ok(st.stack),
        run(s, start, st, doc_len).1,
    ensures
        stack_ok(run(s, start, st, doc_len).0.stack),
    decreases s.len() - start,
{
    if 0 <= start < s.len() {
        let (raw, next) = crate::parse::next_line(s, start);
        if start < next <= s.len() {
            lemma_step(st, raw, doc_len);
            lemma_run(s, next, step(st, raw, doc_len).0, doc_len);
        }
    }
}

proof fn lemma_close_all(st: Seq<NodeModel>)
    requires
        stack_ok(st),
    ensures
        close_to(st, 0).len() == 1,
        levels_nest(close_to(st, 0)[0]),
        close_to(st, 0)[0].level == 0,
        close_to(st, 0)[0].node_span.start == 0,
        close_to(st, 0)[0].heading_span == (Span { start: 0, end: 0 }),
{
    lemma_close_to(st, 0);
}

pub(crate) proof fn lemma_close_spans_levels(n: NodeModel, end: int)
    requires
        levels_nest(n),
    ensures
        levels_nest(close_spans(n, end)),
        close_spans(n, end).level == n.level,
    decreases n,
{
    let r = close_spans(n, end);
    let cs = close_spans_seq(n.children, end);
    assert forall|i: int| 0 <= i < r.children.len() implies {
        &&& #[trigger] r.children[i].level > r.level
        &&& r.level > 0 ==> r.children[i].level == r.level + 1
        &&& levels_nest(r.children[i])
    } by {
        let e = if i + 1 < n.children.len() {
            n.children[i + 1].node_span.start as int
        } else {
            end
        };
        assert(r.children[i] == close_spans(n.children[i], e));
        lemma_close_spans_levels(n.children[i], e);
    }
}

/// The end `close_spans` gives child `i` of `n` closed at `end`.
pub(crate) open spec fn child_end(n: NodeModel, end: int, i: int) -> int {
    if i + 1 < n.children.len() {
        n.children[i + 1].node_span.start as int
    } else {
        end
    }
}

pub(crate) proof fn lemma_close_spans_child(n: NodeModel, end: int, i: int)
    requires
        0 <= i < n.children.len(),
    ensures
        close_spans(n, end).children.len() == n.children.len(),
        close_spans(n, end).children[i] == close_spans(n.children[i], child_end(n, end, i)),
{
    assert(close_spans(n, end).children == close_spans_seq(n.children, end));
}

proof fn lemma_tile_intro(r: NodeModel, n: NodeModel, end: int)
    requires
        r.children.len() == n.children.len(),
        r.node_span.end == end,
        forall|i: int|
            0 <= i < r.children.len() ==> spans_tile(#[trigger] r.children[i])
                && r.children[i].node_span.start == n.children[i].node_span.start
                && r.children[i].node_span.end == child_end(n, end, i),
    ensures
        spans_tile(r),
{
    assert forall|i: int, j: int| 0 <= i && j == i + 1 && j < r.children.len() implies (
    #[trigger] r.children[i]).node_span.end == (#[trigger] r.children[j]).node_span.start by {
        assert(r.children[j].node_span.start == n.children[j].node_span.start);
    }
    if r.children.len() > 0 {
        assert(r.children.last() == r.children[r.children.len() - 1]);
    }
}

pub(crate) proof fn lemma_close_spans_tile(n: NodeModel, end: int)
    requires
        0 <= end <= usize::MAX,
    ensures
        spans_tile(close_spans(n, end)),
        close_spans(n, end).node_span == (Span { start: n.node_span.start, end: end as usize }),
    decreases n,
{
    let r = close_spans(n, end);
    assert(r.children.len() == n.children.len());
    assert forall|i: int| 0 <= i < r.children.len() implies spans_tile(#[trigger] r.children[i])
        && r.children[i].node_span.start == n.children[i].node_span.start
        && r.children[i].node_span.end == child_end(n, end, i) by {
        lemma_close_spans_child(n, end, i);
        lemma_close_spans_tile(n.children[i], child_end(n, end, i));
    }
    lemma_tile_intro(r, n, end);
}

/// Heading levels nest: below the root a child's level is exactly its
/// parent's plus one (an illegal jump is clamped to parent + 1), and the root's
/// children have level 1 or more.
pub proof fn parse_levels_nest(src: Seq<char>)
    requires
        parse_model(src).1,
    ensures
        levels_nest(parse_model(src).0),
        parse_model(src).0.level == 0,
{
    let doc_len = src.len() as int;
    let st0 = init_state(doc_len);
    assert(stack_ok(st0.stack)) by {
        assert(levels_nest(st0.stack[0]));
    }
    let (st, ok) = run(src, 0, st0, doc_len);
    lemma_run(src, 0, st0, doc_len);
    let n = top(st.stack);
    lemma_with_top_ok(st.stack, with_body(n, n.body + crate::parse::blocks_of(st.body_lines)));
    let stack = close_to(flush_top(st.stack, st.body_lines), 0);
    lemma_close_all(flush_top(st.stack, st.body_lines));
    lemma_close_spans_levels(stack[0], doc_len);
}

/// Node spans tile the source: the root spans the whole document (its heading
/// span is the empty `0..0`), siblings abut, and each last child ends where its
/// parent ends.
pub proof fn parse_spans_tile(src: Seq<char>)
    requires
        parse_model(src).1,
        src.len() <= usize::MAX,
    ensures
        spans_tile(parse_model(src).0),
        parse_model(src).0.node_span == (Span { start: 0, end: src.len() as usize }),
        parse_model(src).0.heading_span == (Span { start: 0, end: 0 }),
{
    let doc_len = src.len() as int;
    let st0 = init_state(doc_len);
    assert(stack_ok(st0.stack)) by {
        assert(levels_nest(st0.stack[0]));
    }
    let (st, ok) = run(src, 0, st0, doc_len);
    lemma_run(src, 0, st0, doc_len);
    let n = top(st.stack);
    lemma_with_top_ok(st.stack, with_body(n, n.body + crate::parse::blocks_of(st.body_lines)));
    let stack = close_to(flush_top(st.stack, st.body_lines), 0);
    lemma_close_all(flush_top(st.stack, st.body_lines));
    lemma_close_spans_tile(stack[0], doc_len);
}


// ---- heading spans --------------------------------------------------------------------------

/// No carriage return anywhere: line offsets then count every char.
pub open spec fn no_cr(src: Seq<char>) -> bool {
    forall|i: int| 0 <= i < src.len() ==> src[i] != '\r'
}

/// `s` is exactly one line of `src`: it starts at the document's start or
/// just after a `\n`, ends at the next `\n` or the document's end, and holds
/// no `\n`.
pub open spec fn line_span(src: Seq<char>, s: Span) -> bool {
    &&& s.start <= s.end <= src.len()
    &&& s.start == 0 || src[s.start - 1] == '\n'
    &&& s.end == src.len() || src[s.end as int] == '\n'
    &&& forall|j: int| s.start <= j < s.end ==> src[j] != '\n'
}

/// The marker count of the heading line under `n`'s heading span.
pub open spec fn marker_count(src: Seq<char>, n: NodeModel) -> int {
    let h = heading_model(src.subrange(n.heading_span.start as int, n.heading_span.end as int))->0;
    h.0
}

/// `n`'s subtree span starts at its heading, and its heading span is a whole
/// heading line of `src` with `n`'s marker and title, and a marker count at
/// least `n`'s level (a deeper count is clamped).
pub open spec fn heading_at(src: Seq<char>, n: NodeModel) -> bool {
    &&& n.node_span.start == n.heading_span.start
    &&& line_span(src, n.heading_span)
    &&& heading_model(src.subrange(n.heading_span.start as int, n.heading_span.end as int)) matches Some(
        (count, vis, title),
    )
    &&& vis == n.visibility
    &&& title == n.title
    &&& 1 <= n.level <= count
}

/// Every node below `n` sits on its own heading line of `src`.
pub open spec fn headings_match(src: Seq<char>, n: NodeModel) -> bool
    decreases n,
{
    forall|i: int|
        0 <= i < n.children.len() ==> heading_at(src, #[trigger] n.children[i]) && headings_match(
            src,
            n.children[i],
        )
}

pub open spec fn stack_headed(src: Seq<char>, st: Seq<NodeModel>) -> bool {
    &&& forall|i: int| 1 <= i < st.len() ==> heading_at(src, #[trigger] st[i])
    &&& forall|i: int| 0 <= i < st.len() ==> headings_match(src, #[trigger] st[i])
    &&& st.len() >= 1 ==> forall|i: int|
        0 <= i < st[0].children.len() ==> (#[trigger] st[0].children[i]).level == marker_count(
            src,
            st[0].children[i],
        )
    &&& st.len() >= 2 ==> st[1].level == marker_count(src, st[1])
}

proof fn lemma_headed_push(src: Seq<char>, p: NodeModel, d: NodeModel)
    requires
        headings_match(src, p),
        headings_match(src, d),
        heading_at(src, d),
    ensures
        headings_match(src, with_children(p, p.children.push(d))),
{
    let q = with_children(p, p.children.push(d));
    assert forall|i: int| 0 <= i < q.children.len() implies heading_at(src, #[trigger] q.children[i])
        && headings_match(src, q.children[i]) by {
        if i < p.children.len() {
            assert(q.children[i] == p.children[i]);
        }
    }
}

pub(crate) proof fn lemma_close_to_headed(src: Seq<char>, st: Seq<NodeModel>, level: u8)
    requires
        st.len() >= 1,
        stack_headed(src, st),
    ensures
        stack_headed(src, close_to(st, level)),
    decreases st.len(),
{
    if st.len() > 1 && st.last().level >= level {
        let done = st.last();
        let rest = st.drop_last();
        let p = rest.last();
        let st2 = with_top(rest, with_children(p, p.children.push(done)));
        assert(headings_match(src, done));
        assert(heading_at(src, done));
        assert(headings_match(src, p));
        lemma_headed_push(src, p, done);
        assert forall|i: int| 0 <= i < st2.len() implies headings_match(src, #[trigger] st2[i]) by {
            if i < st2.len() - 1 {
                assert(st2[i] == st[i]);
            }
        }
        assert forall|i: int| 1 <= i < st2.len() implies heading_at(src, #[trigger] st2[i]) by {
            assert(st2[i].heading_span == st[i].heading_span);
            assert(st2[i].node_span == st[i].node_span);
            assert(st2[i].title == st[i].title);
            assert(st2[i].visibility == st[i].visibility);
            assert(st2[i].level == st[i].level);
            assert(heading_at(src, st[i]));
        }
        if st.len() == 2 {
            assert forall|i: int| 0 <= i < st2[0].children.len() implies (#[trigger] st2[0].children[i]).level
                == marker_count(src, st2[0].children[i]) by {
                if i < st[0].children.len() {
                    assert(st2[0].children[i] == st[0].children[i]);
                } else {
                    assert(st2[0].children[i] == st[1]);
                }
            }
        } else {
            assert(st2[0] == st[0]);
            assert(st2[1].level == st[1].level && st2[1].heading_span == st[1].heading_span);
        }
        lemma_close_to_headed(src, st2, level);
    }
}

pub(crate) proof fn lemma_with_top_headed(src: Seq<char>, st: Seq<NodeModel>, n: NodeModel)
    requires
        st.len() >= 1,
        stack_headed(src, st),
        n.level == top(st).level,
        n.children == top(st).children,
        n.heading_span == top(st).heading_span,
        n.node_span == top(st).node_span,
        n.title == top(st).title,
        n.visibility == top(st).visibility,
    ensures
        stack_headed(src, with_top(st, n)),
{
    let st2 = with_top(st, n);
    assert forall|i: int| 0 <= i < st2.len() implies headings_match(src, #[trigger] st2[i]) by {
        if i < st2.len() - 1 {
            assert(st2[i] == st[i]);
        } else {
            assert(headings_match(src, st[i]));
        }
    }
    assert forall|i: int| 1 <= i < st2.len() implies heading_at(src, #[trigger] st2[i]) by {
        assert(heading_at(src, st[i]));
        assert(st2[i].heading_span == st[i].heading_span);
        assert(st2[i].node_span == st[i].node_span);
    }
    assert(st2[0].children == st[0].children);
    if st.len() >= 2 {
        assert(st2[1].level == st[1].level && st2[1].heading_span == st[1].heading_span);
    }
}

pub(crate) proof fn lemma_line_is_source(src: Seq<char>, start: int)
    requires
        no_cr(src),
        0 <= start < src.len(),
    ensures
        ({
            let (raw, next) = crate::parse::next_line(src, start);
            &&& start + raw.len() <= src.len()
            &&& raw == src.subrange(start, start + raw.len())
            &&& next < src.len() ==> next == start + raw.len() + 1
            &&& next < src.len() ==> src[next - 1] == '\n'
            &&& start + raw.len() == src.len() || src[start + raw.len()] == '\n'
            &&& forall|j: int| start <= j < start + raw.len() ==> src[j] != '\n'
        }),
{
    crate::text::lemma_find_from_bounds(src, start, seq!['\n']);
    match crate::text::find_from(src, start, seq!['\n']) {
        Some(p) => {
            let l = src.subrange(start, p);
            if l.len() > 0 {
                assert(l.last() == src[p - 1]);
            }
            assert(src.subrange(p, p + 1)[0] == src[p]);
            assert forall|j: int| start <= j < p implies src[j] != '\n' by {
                if src[j] == '\n' {
                    assert(src.subrange(j, j + 1) =~= seq!['\n']);
                    assert(crate::text::occurs_at(src, j, seq!['\n']));
                }
            }
        },
        None => {
            assert forall|j: int| start <= j < src.len() implies src[j] != '\n' by {
                if src[j] == '\n' {
                    assert(src.subrange(j, j + 1) =~= seq!['\n']);
                    assert(crate::text::occurs_at(src, j, seq!['\n']));
                }
            }
        },
    }
}

proof fn lemma_step_headed(src: Seq<char>, st: ParseState, start: int, doc_len: int)
    requires
        no_cr(src),
        0 <= start < src.len(),
        start == 0 || src[start - 1] == '\n',
        st.offset == start,
        st.stack.len() >= 1,
        stack_headed(src, st.stack),
        step(st, crate::parse::next_line(src, start).0, doc_len).1,
        src.len() <= usize::MAX,
    ensures
        ({
            let (raw, next) = crate::parse::next_line(src, start);
            &&& stack_headed(src, step(st, raw, doc_len).0.stack)
            &&& step(st, raw, doc_len).0.stack.len() >= 1
            &&& next < src.len() ==> step(st, raw, doc_len).0.offset == next
        }),
{
    let (raw, next) = crate::parse::next_line(src, start);
    lemma_line_is_source(src, start);
    let n = top(st.stack);
    match heading_model(raw) {
        Some((count, vis, title)) => {
            let stack1 = flush_top(st.stack, st.body_lines);
            lemma_with_top_headed(src, st.stack, with_body(n, n.body + crate::parse::blocks_of(st.body_lines)));
            assert(heading_ok(raw));
            lemma_run_len_nonneg(raw, 1, raw[0]);
            assert(1 <= count < 256);
            let level = clamp_level(stack1, count);
            assert(1 <= level <= count);
            let stack2 = close_to(stack1, level);
            lemma_close_to_headed(src, stack1, level);
            lemma_close_to_len(stack1, level);
            let nn = new_node(level, vis, title, st.offset, st.offset + raw.len(), doc_len);
            assert(src.subrange(nn.heading_span.start as int, nn.heading_span.end as int) == raw);
            assert(line_span(src, nn.heading_span));
            assert(heading_at(src, nn));
            assert(marker_count(src, nn) == count);
            if stack2.len() == 1 {
                if stack1.len() > 1 && count > top(stack1).level + 1 {
                    assert(close_to(stack1, level) == stack1);
                }
                assert(level == count);
            }
            assert(headings_match(src, nn));
            let s3 = stack2.push(nn);
            assert forall|i: int| 0 <= i < s3.len() implies headings_match(src, #[trigger] s3[i]) by {
                if i < s3.len() - 1 {
                    assert(s3[i] == stack2[i]);
                }
            }
            assert forall|i: int| 1 <= i < s3.len() implies heading_at(src, #[trigger] s3[i]) by {
                if i < s3.len() - 1 {
                    assert(s3[i] == stack2[i]);
                }
            }
            assert(s3[0] == stack2[0]);
            if stack2.len() >= 2 {
                assert(s3[1] == stack2[1]);
            }
        },
        None => {
            if st.in_meta && st.multiline && crate::parse::indented(raw) {
                let (k, v) = n.meta.last();
                let v2 = if v.len() > 0 {
                    v + seq!['\n'] + crate::text::trim(raw)
                } else {
                    crate::text::trim(raw)
                };
                lemma_with_top_headed(src, st.stack, with_meta(n, n.meta.update(n.meta.len() - 1, (k, v2))));
            } else if st.in_meta && crate::text::trim(raw).len() == 0 {
            } else if st.in_meta && crate::parse::meta_line_model(raw) is Some {
                let (k, v) = crate::parse::meta_line_model(raw)->0;
                lemma_with_top_headed(src, st.stack, with_meta(n, n.meta.push((k, v))));
            }
        },
    }
}

pub(crate) proof fn lemma_close_to_len(st: Seq<NodeModel>, level: u8)
    requires
        st.len() >= 1,
    ensures
        close_to(st, level).len() >= 1,
    decreases st.len(),
{
    if st.len() > 1 && st.last().level >= level {
        let done = st.last();
        let rest = st.drop_last();
        lemma_close_to_len(with_top(rest, with_children(rest.last(), rest.last().children.push(done))), level);
    }
}

pub(crate) proof fn lemma_run_headed(src: Seq<char>, start: int, st: ParseState, doc_len: int)
    requires
        no_cr(src),
        0 <= start,
        start < src.len() ==> st.offset == start,
        start < src.len() ==> start == 0 || src[start - 1] == '\n',
        st.stack.len() >= 1,
        stack_headed(src, st.stack),
        run(src, start, st, doc_len).1,
        src.len() <= usize::MAX,
    ensures
        stack_headed(src, run(src, start, st, doc_len).0.stack),
        run(src, start, st, doc_len).0.stack.len() >= 1,
    decreases src.len() - start,
{
    if 0 <= start < src.len() {
        let (raw, next) = crate::parse::next_line(src, start);
        if start < next <= src.len() {
            lemma_step_headed(src, st, start, doc_len);
            lemma_line_is_source(src, start);
            lemma_run_headed(src, next, step(st, raw, doc_len).0, doc_len);
        }
    }
}

pub(crate) proof fn lemma_close_spans_headed(src: Seq<char>, n: NodeModel, end: int)
    requires
        headings_match(src, n),
    ensures
        headings_match(src, close_spans(n, end)),
        close_spans(n, end).heading_span == n.heading_span,
        close_spans(n, end).node_span.start == n.node_span.start,
        close_spans(n, end).title == n.title,
        close_spans(n, end).visibility == n.visibility,
        close_spans(n, end).level == n.level,
    decreases n,
{
    let r = close_spans(n, end);
    assert forall|i: int| 0 <= i < r.children.len() implies heading_at(src, #[trigger] r.children[i])
        && headings_match(src, r.children[i]) by {
        lemma_close_spans_child(n, end, i);
        lemma_close_spans_headed(src, n.children[i], child_end(n, end, i));
    }
}

/// Every heading's span is exactly its own line of the source (from the
/// document's start or just after a `\n`, to the next `\n` or the end), and
/// its subtree span starts there: the text under `heading_span` is a heading
/// line with the node's marker kind and title, and a marker count of at least
/// the node's level (a deeper jump is clamped).
/// Offsets count chars and assume `\n` line endings, so the source holds no
/// `\r`.
pub proof fn parse_heading_spans(src: Seq<char>)
    requires
        parse_model(src).1,
        no_cr(src),
        src.len() <= usize::MAX,
    ensures
        headings_match(src, parse_model(src).0),
{
    let doc_len = src.len() as int;
    let st0 = init_state(doc_len);
    assert(stack_headed(src, st0.stack)) by {
        assert(headings_match(src, st0.stack[0]));
    }
    let (st, ok) = run(src, 0, st0, doc_len);
    lemma_run_headed(src, 0, st0, doc_len);
    let n = top(st.stack);
    lemma_with_top_headed(src, st.stack, with_body(n, n.body + crate::parse::blocks_of(st.body_lines)));
    let stack = close_to(flush_top(st.stack, st.body_lines), 0);
    lemma_close_to_headed(src, flush_top(st.stack, st.body_lines), 0);
    lemma_close_to_len(flush_top(st.stack, st.body_lines), 0);
    lemma_close_spans_headed(src, stack[0], doc_len);
}


/// Below `n`, each node's level follows its heading's marker count: under the
/// root (level 0) a node keeps its count; deeper down its level is the count
/// or its parent's level plus one, whichever is smaller.
pub open spec fn levels_follow_markers(src: Seq<char>, n: NodeModel) -> bool
    decreases n,
{
    forall|i: int|
        0 <= i < n.children.len() ==> {
            &&& (#[trigger] n.children[i]).level == if n.level == 0 {
                marker_count(src, n.children[i])
            } else if marker_count(src, n.children[i]) < n.level + 1 {
                marker_count(src, n.children[i])
            } else {
                n.level + 1
            }
            &&& levels_follow_markers(src, n.children[i])
        }
}

proof fn lemma_deep_follow(src: Seq<char>, n: NodeModel)
    requires
        n.level > 0,
        levels_nest(n),
        headings_match(src, n),
    ensures
        levels_follow_markers(src, n),
    decreases n,
{
    assert forall|i: int| 0 <= i < n.children.len() implies {
        &&& (#[trigger] n.children[i]).level == if n.level == 0 {
            marker_count(src, n.children[i])
        } else if marker_count(src, n.children[i]) < n.level + 1 {
            marker_count(src, n.children[i])
        } else {
            n.level + 1
        }
        &&& levels_follow_markers(src, n.children[i])
    } by {
        let c = n.children[i];
        assert(heading_at(src, c));
        assert(c.level <= marker_count(src, c));
        lemma_deep_follow(src, c);
    }
}

/// Under `no_cr`, the parsed tree's levels follow the heading markers.
pub(crate) proof fn lemma_parse_follow(src: Seq<char>)
    requires
        parse_model(src).1,
        no_cr(src),
        src.len() <= usize::MAX,
    ensures
        levels_follow_markers(src, parse_model(src).0),
        parse_model(src).0.level == 0,
{
    let doc_len = src.len() as int;
    let st0 = init_state(doc_len);
    assert(stack_headed(src, st0.stack)) by {
        assert(headings_match(src, st0.stack[0]));
    }
    assert(stack_ok(st0.stack)) by {
        assert(levels_nest(st0.stack[0]));
    }
    let (st, ok) = run(src, 0, st0, doc_len);
    lemma_run_headed(src, 0, st0, doc_len);
    lemma_run(src, 0, st0, doc_len);
    let n = top(st.stack);
    let nb = with_body(n, n.body + crate::parse::blocks_of(st.body_lines));
    lemma_with_top_headed(src, st.stack, nb);
    lemma_with_top_ok(st.stack, nb);
    let fl = flush_top(st.stack, st.body_lines);
    let stack = close_to(fl, 0);
    lemma_close_to_headed(src, fl, 0);
    lemma_close_all(fl);
    let r0 = stack[0];
    let root = parse_model(src).0;
    assert(root == close_spans(r0, doc_len));
    parse_levels_nest(src);
    parse_heading_spans(src);
    assert forall|i: int| 0 <= i < root.children.len() implies {
        &&& (#[trigger] root.children[i]).level == if root.level == 0 {
            marker_count(src, root.children[i])
        } else if marker_count(src, root.children[i]) < root.level + 1 {
            marker_count(src, root.children[i])
        } else {
            root.level + 1
        }
        &&& levels_follow_markers(src, root.children[i])
    } by {
        lemma_close_spans_child(r0, doc_len, i);
        let c = r0.children[i];
        lemma_close_spans_levels(c, child_end(r0, doc_len, i));
        lemma_close_spans_headed(src, c, child_end(r0, doc_len, i));
        assert(c.level == marker_count(src, c));
        assert(root.children[i].level > 0);
        lemma_deep_follow(src, root.children[i]);
    }
}

} // verus!
