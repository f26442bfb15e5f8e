//! Line-oriented block scanner: a `.ink` document into a [`Node`] tree.
//!
//! The model is a state machine over the document's lines ([`step`]), run
//! from the first line to the last ([`run`]), then folded into the root and
//! given its subtree spans ([`parse_model`]). Its boolean component is false
//! exactly on the documents the parser refuses (and [`parse`] panics on): a
//! heading marker run of 256 or more characters, or a heading below a
//! level-255 heading.

use vstd::prelude::*;
use crate::{
    Block, BlockModel, Node, NodeModel, Span, Visibility, block_model, blocks_model, lines_model,
    lemma_blocks_model_push, lemma_meta_model_push, lemma_nodes_model_drop_last,
    lemma_nodes_model_push, meta_model, node_model, nodes_model,
};
use crate::inline::{scan, scan_inline};
use crate::text::{
    chars_to_string, find, find_from, occurs_at, is_alphanumeric, is_whitespace, is_ws, join_lines, join_nl,
    lemma_find_from_bounds, slice_range, spec_is_alphanumeric, trim, trimmed,
};

verus! {

/// `str::lines` from `start`: the next line (without its `\n`, and without a
/// `\r` just before that `\n`) and the index where the following line begins.
pub open spec fn next_line(s: Seq<char>, start: int) -> (Seq<char>, int) {
    match find_from(s, start, seq!['\n']) {
        Some(p) => {
            let l = s.subrange(start, p);
            if l.len() > 0 && l.last() == '\r' {
                (l.drop_last(), p + 1)
            } else {
                (l, p + 1)
            }
        },
        None => (s.subrange(start, s.len() as int), s.len() as int),
    }
}

/// The visibility that a heading marker char sets.
pub open spec fn marker_visibility(c: char) -> Option<Visibility> {
    if c == '#' {
        Some(Visibility::Visible)
    } else if c == '~' {
        Some(Visibility::Scene)
    } else if c == '%' {
        Some(Visibility::Excluded)
    } else {
        None
    }
}

/// How many chars from index `i` on equal `c`.
pub open spec fn run_len(line: Seq<char>, i: int, c: char) -> int
    decreases line.len() - i,
{
    if 0 <= i < line.len() && line[i] == c {
        1 + run_len(line, i + 1, c)
    } else {
        0
    }
}

pub proof fn lemma_run_len_nonneg(line: Seq<char>, i: int, c: char)
    ensures
        run_len(line, i, c) >= 0,
    decreases line.len() - i,
{
    if 0 <= i < line.len() && line[i] == c {
        lemma_run_len_nonneg(line, i + 1, c);
    }
}

/// Levels are `u8` marker counts: a run of 256 or more markers at the start
/// of a line does not fit one.
pub open spec fn heading_ok(line: Seq<char>) -> bool {
    line.len() > 0 && marker_visibility(line[0]) is Some ==> run_len(line, 0, line[0]) < 256
}

/// `# Title` / `~~ Scene` / `%% Cut` -> (marker count, visibility, trimmed
/// title). None if not a heading: the marker run must be followed by a space.
pub open spec fn heading_model(line: Seq<char>) -> Option<(int, Visibility, Seq<char>)> {
    if line.len() == 0 {
        None
    } else {
        match marker_visibility(line[0]) {
            None => None,
            Some(vis) => {
                let count = run_len(line, 0, line[0]);
                let after = line.subrange(count, line.len() as int);
                if after.len() > 0 && after[0] == ' ' {
                    Some((count, vis, trim(after.drop_first())))
                } else {
                    None
                }
            },
        }
    }
}

/// A non-blank line that begins with a space or a tab.
pub open spec fn indented(line: Seq<char>) -> bool {
    trim(line).len() > 0 && line.len() > 0 && (line[0] == ' ' || line[0] == '\t')
}

/// A char allowed in a metadata key.
pub open spec fn key_char(c: char) -> bool {
    spec_is_alphanumeric(c) || c == '_' || c == '-'
}

/// `key: value` where key is a single token (split at the first `:`, both
/// sides trimmed). None otherwise.
pub open spec fn meta_line_model(line: Seq<char>) -> Option<(Seq<char>, Seq<char>)> {
    match find_from(line, 0, seq![':']) {
        None => None,
        Some(p) => {
            let k = trim(line.subrange(0, p));
            if k.len() == 0 || !(forall|j: int| 0 <= j < k.len() ==> key_char(#[trigger] k[j])) {
                None
            } else {
                Some((k, trim(line.subrange(p + 1, line.len() as int))))
            }
        },
    }
}

/// The paragraph block of the pending lines, if any.
pub open spec fn para_block(para: Seq<Seq<char>>) -> Seq<BlockModel> {
    if para.len() == 0 {
        seq![]
    } else {
        seq![BlockModel::Para(scan(join_nl(para)))]
    }
}

/// Body lines from index `k` on into blocks, with paragraph lines `para`
/// pending: `/` lines become comments, blank-separated runs paragraphs.
pub open spec fn blocks_from(lines: Seq<Seq<char>>, k: int, para: Seq<Seq<char>>) -> Seq<BlockModel>
    decreases lines.len() - k,
{
    if k < 0 || k >= lines.len() {
        para_block(para)
    } else {
        let line = lines[k];
        if line.len() > 0 && line[0] == '/' {
            para_block(para) + seq![BlockModel::LineComment(trim(line.drop_first()))] + blocks_from(
                lines,
                k + 1,
                seq![],
            )
        } else if trim(line).len() == 0 {
            para_block(para) + blocks_from(lines, k + 1, seq![])
        } else {
            blocks_from(lines, k + 1, para.push(line))
        }
    }
}

pub open spec fn blocks_of(lines: Seq<Seq<char>>) -> Seq<BlockModel> {
    blocks_from(lines, 0, seq![])
}

/// The parser's state between lines.
pub struct ParseState {
    /// Open nodes, root first; the last is the one lines attach to.
    pub stack: Seq<NodeModel>,
    /// Body lines buffered for the top node.
    pub body_lines: Seq<Seq<char>>,
    /// In a metadata zone (front matter, or right after a heading).
    pub in_meta: bool,
    /// The top node's last metadata value is open for indented continuation lines.
    pub multiline: bool,
    /// Char offset of the start of the next line.
    pub offset: int,
}

pub open spec fn top(st: Seq<NodeModel>) -> NodeModel {
    st.last()
}

pub open spec fn with_top(st: Seq<NodeModel>, n: NodeModel) -> Seq<NodeModel> {
    st.update(st.len() - 1, n)
}

pub open spec fn with_body(n: NodeModel, body: Seq<BlockModel>) -> NodeModel {
    NodeModel {
        level: n.level,
        visibility: n.visibility,
        title: n.title,
        meta: n.meta,
        body: body,
        children: n.children,
        heading_span: n.heading_span,
        node_span: n.node_span,
    }
}

pub open spec fn with_meta(n: NodeModel, meta: Seq<(Seq<char>, Seq<char>)>) -> NodeModel {
    NodeModel {
        level: n.level,
        visibility: n.visibility,
        title: n.title,
        meta: meta,
        body: n.body,
        children: n.children,
        heading_span: n.heading_span,
        node_span: n.node_span,
    }
}

pub open spec fn with_children(n: NodeModel, children: Seq<NodeModel>) -> NodeModel {
    NodeModel {
        level: n.level,
        visibility: n.visibility,
        title: n.title,
        meta: n.meta,
        body: n.body,
        children: children,
        heading_span: n.heading_span,
        node_span: n.node_span,
    }
}

pub open spec fn with_span(n: NodeModel, node_span: Span) -> NodeModel {
    NodeModel {
        level: n.level,
        visibility: n.visibility,
        title: n.title,
        meta: n.meta,
        body: n.body,
        children: n.children,
        heading_span: n.heading_span,
        node_span: node_span,
    }
}

/// Pop nodes of level `>= level` off the stack, each into its parent's
/// children, never popping the root.
pub open spec fn close_to(st: Seq<NodeModel>, level: u8) -> Seq<NodeModel>
    decreases st.len(),
{
    if st.len() > 1 && st.last().level >= level {
        let done = st.last();
        let rest = st.drop_last();
        close_to(with_top(rest, with_children(rest.last(), rest.last().children.push(done))), level)
    } else {
        st
    }
}

/// Drain the buffered body lines into the top node.
pub open spec fn flush_top(st: Seq<NodeModel>, lines: Seq<Seq<char>>) -> Seq<NodeModel> {
    with_top(st, with_body(top(st), top(st).body + blocks_of(lines)))
}

/// The level a heading of `count` markers takes: clamped to parent + 1 below a
/// real heading, never against the root.
pub open spec fn clamp_level(st: Seq<NodeModel>, count: int) -> u8 {
    if st.len() > 1 && count > top(st).level + 1 {
        (top(st).level + 1) as u8
    } else {
        count as u8
    }
}

pub open spec fn new_node(
    level: u8,
    vis: Visibility,
    title: Seq<char>,
    start: int,
    end: int,
    doc_len: int,
) -> NodeModel {
    NodeModel {
        level,
        visibility: vis,
        title,
        meta: seq![],
        body: seq![],
        children: seq![],
        heading_span: Span { start: start as usize, end: end as usize },
        node_span: Span { start: start as usize, end: doc_len as usize },
    }
}

/// One line through the state machine, and whether the parser accepts it.
pub open spec fn step(st: ParseState, raw: Seq<char>, doc_len: int) -> (ParseState, bool) {
    let line_start = st.offset;
    let line_end = st.offset + raw.len();
    let offset = line_end + 1;
    match heading_model(raw) {
        Some((count, vis, title)) => {
            let stack1 = flush_top(st.stack, st.body_lines);
            let ok = heading_ok(raw) && !(stack1.len() > 1 && top(stack1).level == 255);
            let level = clamp_level(stack1, count);
            let stack2 = close_to(stack1, level);
            (
                ParseState {
                    stack: stack2.push(new_node(level, vis, title, line_start, line_end, doc_len)),
                    body_lines: seq![],
                    in_meta: true,
                    multiline: false,
                    offset,
                },
                ok,
            )
        },
        None => {
            let ok = heading_ok(raw);
            let n = top(st.stack);
            if st.in_meta && st.multiline && indented(raw) {
                let (k, v) = n.meta.last();
                let v2 = if v.len() > 0 {
                    v + seq!['\n'] + trim(raw)
                } else {
                    trim(raw)
                };
                (
                    ParseState {
                        stack: with_top(
                            st.stack,
                            with_meta(n, n.meta.update(n.meta.len() - 1, (k, v2))),
                        ),
                        offset,
                        ..st
                    },
                    ok,
                )
            } else if st.in_meta && trim(raw).len() == 0 {
                (ParseState { in_meta: false, multiline: false, offset, ..st }, ok)
            } else if st.in_meta && meta_line_model(raw) is Some {
                let (k, v) = meta_line_model(raw)->0;
                (
                    ParseState {
                        stack: with_top(st.stack, with_meta(n, n.meta.push((k, v)))),
                        multiline: v.len() == 0,
                        offset,
                        ..st
                    },
                    ok,
                )
            } else {
                (
                    ParseState {
                        body_lines: st.body_lines.push(raw),
                        in_meta: false,
                        multiline: false,
                        offset,
                        ..st
                    },
                    ok,
                )
            }
        },
    }
}

/// The state after every line from index `start` of `s` on.
pub open spec fn run(s: Seq<char>, start: int, st: ParseState, doc_len: int) -> (ParseState, bool)
    decreases s.len() - start,
{
    if start < 0 || start >= s.len() {
        (st, true)
    } else {
        let (raw, next) = next_line(s, start);
        let (st2, ok) = step(st, raw, doc_len);
        if start < next <= s.len() {
            let r = run(s, next, st2, doc_len);
            (r.0, ok && r.1)
        } else {
            (st, true)
        }
    }
}

pub open spec fn root_node(doc_len: int) -> NodeModel {
    NodeModel {
        level: 0,
        visibility: Visibility::Visible,
        title: seq![],
        meta: seq![],
        body: seq![],
        children: seq![],
        heading_span: Span { start: 0, end: 0 },
        node_span: Span { start: 0, end: doc_len as usize },
    }
}

pub open spec fn init_state(doc_len: int) -> ParseState {
    ParseState {
        stack: seq![root_node(doc_len)],
        body_lines: seq![],
        in_meta: true,
        multiline: false,
        offset: 0,
    }
}

/// Each node's subtree span ends where its next sibling begins, or (for a
/// last child) at its parent's end.
pub open spec fn close_spans(n: NodeModel, end: int) -> NodeModel
    decreases n, 0nat,
{
    with_children(
        with_span(n, Span { start: n.node_span.start, end: end as usize }),
        close_spans_seq(n.children, end),
    )
}

pub open spec fn close_spans_seq(cs: Seq<NodeModel>, end: int) -> Seq<NodeModel>
    decreases cs, 1nat,
{
    Seq::new(
        cs.len(),
        |i: int|
            if 0 <= i < cs.len() {
                close_spans(
                    cs[i],
                    if i + 1 < cs.len() {
                        cs[i + 1].node_span.start as int
                    } else {
                        end
                    },
                )
            } else {
                arbitrary()
            },
    )
}

/// The model of `parse(src)`: the tree, and whether the parser accepts `src`
/// (rather than panicking on it).
pub open spec fn parse_model(src: Seq<char>) -> (NodeModel, bool) {
    let doc_len = src.len() as int;
    let (st, ok) = run(src, 0, init_state(doc_len), doc_len);
    let stack = close_to(flush_top(st.stack, st.body_lines), 0);
    (close_spans(stack[0], doc_len), ok)
}


/// The next line of `s` from `start` (`str::lines`), and where the one after begins.
fn next_line_exec(s: &[char], start: usize) -> (r: (Vec<char>, usize))
    requires
        start < s@.len(),
    ensures
        (r.0@, r.1 as int) == next_line(s@, start as int),
        start < r.1 <= s@.len(),
        r.0@.len() + start + 1 <= r.1 || (r.1 == s@.len() && r.0@.len() + start == r.1),
{
    let nl = vec!['\n'];
    assert(nl@ =~= seq!['\n']);
    proof {
        lemma_find_from_bounds(s@, start as int, seq!['\n']);
    }
    match find(s, start, nl.as_slice()) {
        Some(p) => {
            assert(occurs_at(s@, p as int, seq!['\n']));
            assert(p + 1 <= s.len());
            let mut l = slice_range(s, start, p);
            if l.len() > 0 && l[l.len() - 1] == '\r' {
                l.pop();
                assert(l@ =~= s@.subrange(start as int, p as int).drop_last());
            }
            (l, p + 1)
        },
        None => (slice_range(s, start, s.len()), s.len()),
    }
}

/// `# Title` / `~~ Scene` / `%% Cut` -> (level, visibility, title). None if not
/// a heading.
fn heading(line: &[char]) -> (r: (bool, Option<(u8, Visibility, Vec<char>)>))
    ensures
        r.0 == heading_ok(line@),
        r.0 ==> match heading_model(line@) {
            None => r.1 is None,
            Some((count, vis, title)) => r.1 matches Some(h) && h.0 as int == count && h.1 == vis
                && h.2@ == title,
        },
{
    if line.len() == 0 {
        return (true, None);
    }
    let first = line[0];
    let visibility = if first == '#' {
        Visibility::Visible
    } else if first == '~' {
        Visibility::Scene
    } else if first == '%' {
        Visibility::Excluded
    } else {
        return (true, None);
    };
    let mut j: usize = 0;
    while j < line.len() && line[j] == first
        invariant
            j <= line@.len(),
            j < 256,
            line@.len() > 0,
            first == line@[0],
            marker_visibility(first) is Some,
            run_len(line@, 0, first) == j + run_len(line@, j as int, first),
        decreases line@.len() - j,
    {
        j += 1;
        if j == 256 {
            proof {
                lemma_run_len_nonneg(line@, j as int, first);
                assert(run_len(line@, 0, first) == j + run_len(line@, j as int, first));
            }
            return (false, None);
        }
    }
    let count = j as u8;
    if j < line.len() && line[j] == ' ' {
        let title = trimmed(slice_range(line, j + 1, line.len()).as_slice());
        let ghost after = line@.subrange(j as int, line@.len() as int);
        assert(after.drop_first() =~= line@.subrange(j + 1, line@.len() as int));
        (true, Some((count, visibility, title)))
    } else {
        (true, None)
    }
}

/// A non-blank line that begins with whitespace (space or tab).
fn is_indented(line: &[char]) -> (r: bool)
    ensures
        r == indented(line@),
{
    let t = trimmed(line);
    t.len() > 0 && line.len() > 0 && (line[0] == ' ' || line[0] == '\t')
}

/// `key: value` where key is a single token. None otherwise.
fn meta_line(line: &[char]) -> (r: Option<(Vec<char>, Vec<char>)>)
    ensures
        match meta_line_model(line@) {
            None => r is None,
            Some((k, v)) => r matches Some(p) && p.0@ == k && p.1@ == v,
        },
{
    let colon = vec![':'];
    assert(colon@ =~= seq![':']);
    let p = match find(line, 0, colon.as_slice()) {
        Some(p) => p,
        None => return None,
    };
    proof {
        lemma_find_from_bounds(line@, 0, seq![':']);
    }
    assert(occurs_at(line@, p as int, seq![':']));
    assert(p + 1 <= line.len());
    let k = trimmed(slice_range(line, 0, p).as_slice());
    if k.len() == 0 {
        return None;
    }
    let mut j: usize = 0;
    while j < k.len()
        invariant
            j <= k@.len(),
            forall|i: int| 0 <= i < j ==> key_char(#[trigger] k@[i]),
            k@ == trim(line@.subrange(0, p as int)),
            find_from(line@, 0, seq![':']) == Some(p as int),
        decreases k@.len() - j,
    {
        let c = k[j];
        if !(is_alphanumeric(c) || c == '_' || c == '-') {
            assert(!key_char(k@[j as int]));
            return None;
        }
        j += 1;
    }
    let v = trimmed(slice_range(line, p + 1, line.len()).as_slice());
    Some((k, v))
}

/// Pushes the paragraph block of the pending lines, if any.
fn push_para(body: &mut Vec<Block>, para: &Vec<Vec<char>>)
    ensures
        blocks_model(final(body)@) == blocks_model(old(body)@) + para_block(lines_model(para@)),
{
    if para.len() == 0 {
        assert(blocks_model(body@) =~= blocks_model(old(body)@) + para_block(lines_model(para@)));
        return;
    }
    let text = join_lines(para);
    let b = Block::Para(scan_inline(text.as_slice()));
    proof {
        lemma_blocks_model_push(body@, b);
    }
    body.push(b);
    assert(blocks_model(body@) =~= blocks_model(old(body)@) + para_block(lines_model(para@)));
}

/// Drain buffered body lines into blocks appended to `body`: `/` lines become
/// comments, blank-separated runs become paragraphs.
fn flush_body(body: &mut Vec<Block>, lines: &Vec<Vec<char>>)
    ensures
        blocks_model(final(body)@) == blocks_model(old(body)@) + blocks_of(lines_model(lines@)),
{
    let ghost ls = lines_model(lines@);
    let mut para: Vec<Vec<char>> = Vec::new();
    let mut k: usize = 0;
    assert(lines_model(para@) =~= seq![]);
    while k < lines.len()
        invariant
            k <= lines@.len(),
            ls == lines_model(lines@),
            blocks_model(body@) + blocks_from(ls, k as int, lines_model(para@))
                == blocks_model(old(body)@) + blocks_of(ls),
        decreases lines@.len() - k,
    {
        let line = &lines[k];
        assert(ls[k as int] == line@);
        if line.len() > 0 && line[0] == '/' {
            push_para(body, &para);
            para = Vec::new();
            let c = trimmed(slice_range(line.as_slice(), 1, line.len()).as_slice());
            assert(line@.drop_first() =~= line@.subrange(1, line@.len() as int));
            let b = Block::LineComment(chars_to_string(c.as_slice()));
            proof {
                lemma_blocks_model_push(body@, b);
            }
            body.push(b);
            assert(lines_model(para@) =~= seq![]);
        } else {
            let t = trimmed(line.as_slice());
            if t.len() == 0 {
                push_para(body, &para);
                para = Vec::new();
                assert(lines_model(para@) =~= seq![]);
            } else {
                let ghost p0 = para@;
                para.push(line.clone());
                assert(lines_model(para@) =~= lines_model(p0).push(line@));
            }
        }
        k += 1;
    }
    push_para(body, &para);
}


/// Fill in each node's `node_span.end`: a node runs until its next sibling
/// begins, or (for a last child) until its parent's end.
fn close_spans_exec(node: Node, end: usize) -> (r: Node)
    ensures
        node_model(&r) == close_spans(node_model(&node), end as int),
    decreases node,
{
    let ghost n0 = node;
    let Node { level, visibility, title, meta, body, children, heading_span, node_span } = node;
    let ghost orig = children@;
    assert(orig == n0.children@);
    let mut children = children;
    let mut rev: Vec<Node> = Vec::new();
    let mut next_start = end;
    let ghost cm = nodes_model(orig);
    while children.len() > 0
        invariant
            children@ == orig.subrange(0, children@.len() as int),
            cm == nodes_model(orig),
            orig == n0.children@,
            n0 == node,
            rev@.len() + children@.len() == orig.len(),
            next_start as int == if children@.len() == orig.len() {
                end as int
            } else {
                cm[children@.len() as int].node_span.start as int
            },
            forall|j: int|
                #![trigger rev@[j]]
                0 <= j < rev@.len() ==> node_model(&rev@[j]) == close_spans_seq(cm, end as int)[orig.len()
                    - 1 - j],
        decreases children@.len(),
    {
        let c = children.pop().unwrap();
        let ghost k = children@.len() as int;
        assert(c == orig[k]);
        assert(node_model(&c) == cm[k]);
        assert(decreases_to!(n0 => n0.children));
        assert(decreases_to!(n0.children => n0.children@));
        assert(decreases_to!(n0.children@ => n0.children@[k]));
        assert(decreases_to!(node => c));
        let start = c.node_span.start;
        let closed = close_spans_exec(c, next_start);
        next_start = start;
        rev.push(closed);
    }
    let mut out: Vec<Node> = Vec::new();
    while rev.len() > 0
        invariant
            rev@.len() + out@.len() == orig.len(),
            cm == nodes_model(orig),
            forall|j: int|
                #![trigger rev@[j]]
                0 <= j < rev@.len() ==> node_model(&rev@[j]) == close_spans_seq(cm, end as int)[orig.len()
                    - 1 - j],
            forall|j: int|
                #![trigger out@[j]]
                0 <= j < out@.len() ==> node_model(&out@[j]) == close_spans_seq(cm, end as int)[j],
        decreases rev@.len(),
    {
        let x = rev.pop().unwrap();
        out.push(x);
    }
    assert(nodes_model(out@) =~= close_spans_seq(cm, end as int));
    Node {
        level,
        visibility,
        title,
        meta,
        body,
        children: out,
        heading_span,
        node_span: Span { start: node_span.start, end },
    }
}


/// Pop nodes of level `>= level` off the stack into their parents' children.
fn close_stack(stack: &mut Vec<Node>, level: u8)
    requires
        old(stack)@.len() >= 1,
    ensures
        nodes_model(final(stack)@) == close_to(nodes_model(old(stack)@), level),
        final(stack)@.len() >= 1,
        level == 0 ==> final(stack)@.len() == 1,
{
    while stack.len() > 1 && stack[stack.len() - 1].level >= level
        invariant
            stack@.len() >= 1,
            close_to(nodes_model(stack@), level) == close_to(nodes_model(old(stack)@), level),
        decreases stack@.len(),
    {
        let ghost s0 = stack@;
        let done = stack.pop().unwrap();
        let mut parent = stack.pop().unwrap();
        let ghost rest = s0.drop_last();
        proof {
            lemma_nodes_model_drop_last(s0);
            lemma_nodes_model_drop_last(rest);
            lemma_nodes_model_push(parent.children@, done);
        }
        let ghost p0 = parent;
        parent.children.push(done);
        let ghost s1 = stack@;
        proof {
            lemma_nodes_model_push(s1, parent);
        }
        stack.push(parent);
        assert(node_model(&parent) == with_children(node_model(&p0), node_model(&p0).children.push(
            node_model(&done),
        )));
        assert(nodes_model(stack@) =~= with_top(
            nodes_model(s0).drop_last(),
            with_children(
                nodes_model(s0).drop_last().last(),
                nodes_model(s0).drop_last().last().children.push(nodes_model(s0).last()),
            ),
        ));
    }
}

/// Drain the buffered body lines into the top node.
fn flush_top_exec(stack: &mut Vec<Node>, lines: &Vec<Vec<char>>)
    requires
        old(stack)@.len() >= 1,
    ensures
        nodes_model(final(stack)@) == flush_top(nodes_model(old(stack)@), lines_model(lines@)),
        final(stack)@.len() == old(stack)@.len(),
{
    let ghost s0 = stack@;
    let mut t = stack.pop().unwrap();
    proof {
        lemma_nodes_model_drop_last(s0);
    }
    let ghost t0 = t;
    flush_body(&mut t.body, lines);
    let ghost s1 = stack@;
    proof {
        lemma_nodes_model_push(s1, t);
    }
    stack.push(t);
    assert(nodes_model(stack@) =~= flush_top(nodes_model(s0), lines_model(lines@)));
}

/// The model of the exec parser state.
pub open spec fn state_model(
    stack: Seq<Node>,
    body_lines: Seq<Vec<char>>,
    in_meta: bool,
    multiline: bool,
    offset: usize,
) -> ParseState {
    ParseState {
        stack: nodes_model(stack),
        body_lines: lines_model(body_lines),
        in_meta,
        multiline,
        offset: offset as int,
    }
}

/// The parser's step on a heading line; false where the parser refuses it
/// (a heading below a level-255 heading).
fn step_heading(
    stack: &mut Vec<Node>,
    body_lines: &mut Vec<Vec<char>>,
    count: u8,
    vis: Visibility,
    title: Vec<char>,
    line_start: usize,
    line_end: usize,
    doc_len: usize,
) -> (ok: bool)
    requires
        old(stack)@.len() >= 1,
    ensures
        ok == !(old(stack)@.len() > 1 && nodes_model(old(stack)@).last().level == 255),
        ok ==> nodes_model(final(stack)@) == ({
            let stack1 = flush_top(nodes_model(old(stack)@), lines_model(old(body_lines)@));
            let level = clamp_level(stack1, count as int);
            close_to(stack1, level).push(
                new_node(level, vis, title@, line_start as int, line_end as int, doc_len as int),
            )
        }),
        ok ==> final(body_lines)@ == Seq::<Vec<char>>::empty(),
        ok ==> final(stack)@.len() >= 2,
{
    proof {
        lemma_nodes_model_drop_last(stack@);
    }
    if stack.len() > 1 && stack[stack.len() - 1].level == 255 {
        return false;
    }
    flush_top_exec(stack, body_lines);
    let parent = stack[stack.len() - 1].level;
    proof {
        lemma_nodes_model_drop_last(stack@);
    }
    let level = if stack.len() > 1 && count > parent + 1 {
        parent + 1
    } else {
        count
    };
    close_stack(stack, level);
    let n = Node {
        level,
        visibility: vis,
        title: chars_to_string(title.as_slice()),
        meta: Vec::new(),
        body: Vec::new(),
        children: Vec::new(),
        heading_span: Span { start: line_start, end: line_end },
        node_span: Span { start: line_start, end: doc_len },
    };
    assert(meta_model(n.meta@) =~= seq![]);
    assert(blocks_model(n.body@) =~= seq![]);
    assert(nodes_model(n.children@) =~= seq![]);
    let ghost s1 = stack@;
    proof {
        lemma_nodes_model_push(s1, n);
    }
    stack.push(n);
    body_lines.clear();
    true
}

/// Extend the top node's last metadata value with an indented continuation line.
fn extend_meta(stack: &mut Vec<Node>, raw: &[char])
    requires
        old(stack)@.len() >= 1,
        nodes_model(old(stack)@).last().meta.len() > 0,
    ensures
        final(stack)@.len() == old(stack)@.len(),
        nodes_model(final(stack)@) == ({
            let n = top(nodes_model(old(stack)@));
            let (k, v) = n.meta.last();
            let v2 = if v.len() > 0 {
                v + seq!['\n'] + trim(raw@)
            } else {
                trim(raw@)
            };
            with_top(nodes_model(old(stack)@), with_meta(n, n.meta.update(n.meta.len() - 1, (k, v2))))
        }),
        nodes_model(final(stack)@).last().meta.len() > 0,
{
    let ghost s0 = stack@;
    let mut t = stack.pop().unwrap();
    proof {
        lemma_nodes_model_drop_last(s0);
    }
    let ghost m0 = t.meta@;
    let (k, v) = t.meta.pop().unwrap();
    assert(meta_model(m0).last() == (k@, v@));
    let mut vc = crate::text::str_chars(v.as_str());
    if vc.len() > 0 {
        vc.push('\n');
    }
    let tr = trimmed(raw);
    crate::text::push_all(&mut vc, tr.as_slice());
    let v2 = chars_to_string(vc.as_slice());
    assert(v2@ =~= if v@.len() > 0 {
        v@ + seq!['\n'] + trim(raw@)
    } else {
        trim(raw@)
    });
    let ghost m1 = t.meta@;
    proof {
        lemma_meta_model_push(m1, (k, v2));
    }
    t.meta.push((k, v2));
    assert(meta_model(t.meta@) =~= meta_model(m0).update(m0.len() - 1, (k@, v2@)));
    let ghost s1 = stack@;
    proof {
        lemma_nodes_model_push(s1, t);
    }
    stack.push(t);
    assert(nodes_model(stack@) =~= with_top(
        nodes_model(s0),
        with_meta(
            top(nodes_model(s0)),
            meta_model(m0).update(m0.len() - 1, (k@, v2@)),
        ),
    ));
}

/// Push a metadata pair onto the top node.
fn push_meta(stack: &mut Vec<Node>, k: Vec<char>, v: Vec<char>)
    requires
        old(stack)@.len() >= 1,
    ensures
        final(stack)@.len() == old(stack)@.len(),
        nodes_model(final(stack)@) == with_top(
            nodes_model(old(stack)@),
            with_meta(top(nodes_model(old(stack)@)), top(nodes_model(old(stack)@)).meta.push((k@, v@))),
        ),
{
    let ghost s0 = stack@;
    let mut t = stack.pop().unwrap();
    proof {
        lemma_nodes_model_drop_last(s0);
    }
    let ghost m0 = t.meta@;
    let pair = (chars_to_string(k.as_slice()), chars_to_string(v.as_slice()));
    proof {
        lemma_meta_model_push(m0, pair);
    }
    t.meta.push(pair);
    let ghost s1 = stack@;
    proof {
        lemma_nodes_model_push(s1, t);
    }
    stack.push(t);
    assert(nodes_model(stack@) =~= with_top(
        nodes_model(s0),
        with_meta(top(nodes_model(s0)), top(nodes_model(s0)).meta.push((k@, v@))),
    ));
}


/// One line through the parser.
fn step_exec(
    stack: &mut Vec<Node>,
    body_lines: &mut Vec<Vec<char>>,
    in_meta: &mut bool,
    multiline: &mut bool,
    offset: &mut usize,
    raw: Vec<char>,
    doc_len: usize,
) -> (ok: bool)
    requires
        old(stack)@.len() >= 1,
        *old(multiline) ==> *old(in_meta) && nodes_model(old(stack)@).last().meta.len() > 0,
        *old(offset) + raw@.len() + 1 <= usize::MAX,
    ensures
        ok == step(
            state_model(old(stack)@, old(body_lines)@, *old(in_meta), *old(multiline), *old(offset)),
            raw@,
            doc_len as int,
        ).1,
        ok ==> state_model(final(stack)@, final(body_lines)@, *final(in_meta), *final(multiline), *final(offset))
            == step(
            state_model(old(stack)@, old(body_lines)@, *old(in_meta), *old(multiline), *old(offset)),
            raw@,
            doc_len as int,
        ).0,
        ok ==> final(stack)@.len() >= 1,
        ok ==> (*final(multiline) ==> *final(in_meta) && nodes_model(final(stack)@).last().meta.len() > 0),
        *final(offset) == *old(offset) + raw@.len() + 1,
{
    let line_start = *offset;
    let line_end = *offset + raw.len();
    *offset = line_end + 1;
    proof {
        lemma_nodes_model_drop_last(stack@);
    }
    match heading(raw.as_slice()) {
        (false, _) => false,
        (true, Some((count, vis, title))) => {
            if !step_heading(stack, body_lines, count, vis, title, line_start, line_end, doc_len) {
                return false;
            }
            assert(lines_model(body_lines@) =~= seq![]);
            *in_meta = true;
            *multiline = false;
            true
        },
        (true, None) => {
            if *in_meta && *multiline && is_indented(raw.as_slice()) {
                extend_meta(stack, raw.as_slice());
                return true;
            }
            if *in_meta {
                let t = trimmed(raw.as_slice());
                if t.len() == 0 {
                    *in_meta = false;
                    *multiline = false;
                    return true;
                }
                match meta_line(raw.as_slice()) {
                    Some((k, v)) => {
                        let empty = v.len() == 0;
                        push_meta(stack, k, v);
                        proof {
                            lemma_nodes_model_drop_last(stack@);
                        }
                        *multiline = empty;
                        return true;
                    },
                    None => {},
                }
            }
            let ghost b0 = body_lines@;
            body_lines.push(raw);
            assert(lines_model(body_lines@) =~= lines_model(b0).push(raw@));
            *in_meta = false;
            *multiline = false;
            true
        },
    }
}

/// Parse a `.ink` document into a root [`Node`] (level 0).
///
/// Spans are **char** offsets. Line offsets assume `\n` endings; a `\r` before
/// a `\n` is dropped from the line and not counted.
pub fn parse(src: &str) -> (root: Node)
    requires
        parse_model(src@).1,
        src@.len() < usize::MAX,
    ensures
        root@ == parse_model(src@).0,
{
    try_parse(src).unwrap()
}

/// [`parse`] on any input: `None` exactly where `parse` would panic
/// (a marker run of 256 or more, or a heading nested below a level-255 heading).
pub fn try_parse(src: &str) -> (r: Option<Node>)
    requires
        src@.len() < usize::MAX,
    ensures
        r is Some == parse_model(src@).1,
        r matches Some(root) ==> root@ == parse_model(src@).0,
{
    let s = crate::text::str_chars(src);
    let doc_len = s.len();
    let root = Node {
        level: 0,
        visibility: Visibility::Visible,
        title: String::new(),
        meta: Vec::new(),
        body: Vec::new(),
        children: Vec::new(),
        heading_span: Span { start: 0, end: 0 },
        node_span: Span { start: 0, end: doc_len },
    };
    assert(meta_model(root.meta@) =~= seq![]);
    assert(blocks_model(root.body@) =~= seq![]);
    assert(nodes_model(root.children@) =~= seq![]);
    let mut stack: Vec<Node> = Vec::new();
    stack.push(root);
    let mut body_lines: Vec<Vec<char>> = Vec::new();
    let mut in_meta = true;
    let mut multiline = false;
    let mut offset: usize = 0;
    let mut start: usize = 0;
    let ghost n = doc_len as int;
    let ghost total = run(s@, 0, init_state(n), n);
    assert(nodes_model(stack@) =~= seq![root_node(n)]);
    assert(lines_model(body_lines@) =~= seq![]);
    while start < s.len()
        invariant
            s@ == src@,
            n == s@.len(),
            doc_len as int == n,
            n < usize::MAX,
            start <= n,
            start < n ==> offset <= start,
            offset <= start + 1,
            stack@.len() >= 1,
            multiline ==> in_meta && nodes_model(stack@).last().meta.len() > 0,
            total == run(s@, 0, init_state(n), n),
            run(s@, start as int, state_model(stack@, body_lines@, in_meta, multiline, offset), n).1 ==> run(s@, start as int, state_model(stack@, body_lines@, in_meta, multiline, offset), n).0
                == total.0,
            total.1 == run(s@, start as int, state_model(stack@, body_lines@, in_meta, multiline, offset), n).1,
        decreases n - start,
    {
        let (raw, next) = next_line_exec(s.as_slice(), start);
        if !step_exec(
            &mut stack,
            &mut body_lines,
            &mut in_meta,
            &mut multiline,
            &mut offset,
            raw,
            doc_len,
        ) {
            return None;
        }
        start = next;
    }
    flush_top_exec(&mut stack, &body_lines);
    close_stack(&mut stack, 0);
    let root = stack.pop().unwrap();
    proof {
        lemma_nodes_model_drop_last(stack@.push(root));
    }
    Some(close_spans_exec(root, doc_len))
}

} // verus!
