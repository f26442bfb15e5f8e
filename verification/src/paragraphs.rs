//! How a body's lines become blocks: a blank line ends a paragraph and
//! separates what comes before it from what comes after; a `/` line is a
//! comment that also ends a paragraph; and a run of other lines is one
//! paragraph of those lines joined by `\n`.

use vstd::prelude::*;
use crate::BlockModel;
use crate::inline::scan;
use crate::parse::{blocks_from, blocks_of, para_block};
use crate::text::{join_nl, trim};

verus! {

/// A line that ends a paragraph without starting a block of its own.
pub open spec fn blank_line(line: Seq<char>) -> bool {
    trim(line).len() == 0
}

/// A line that becomes a comment block.
pub open spec fn comment_line(line: Seq<char>) -> bool {
    line.len() > 0 && line[0] == '/'
}

/// A line that belongs to a paragraph.
pub open spec fn prose_line(line: Seq<char>) -> bool {
    !blank_line(line) && !comment_line(line)
}

/// The blocks a separating line contributes itself.
pub open spec fn separator_blocks(b: Seq<char>) -> Seq<BlockModel> {
    if comment_line(b) {
        seq![BlockModel::LineComment(trim(b.drop_first()))]
    } else {
        seq![]
    }
}

proof fn lemma_trim_end_keeps_first(s: Seq<char>)
    requires
        s.len() > 0,
        !crate::text::is_ws(s[0]),
    ensures
        trim(s).len() > 0,
    decreases s.len(),
{
    assert(crate::text::trim_start(s) == s);
    lemma_trim_end_nonempty(s);
}

proof fn lemma_trim_end_nonempty(s: Seq<char>)
    requires
        s.len() > 0,
        !crate::text::is_ws(s[0]),
    ensures
        crate::text::trim_end(s).len() > 0,
    decreases s.len(),
{
    if s.len() > 1 && crate::text::is_ws(s.last()) {
        assert(s.drop_last()[0] == s[0]);
        lemma_trim_end_nonempty(s.drop_last());
    }
}

proof fn lemma_shift(p: Seq<Seq<char>>, l2: Seq<Seq<char>>, j: int, para: Seq<Seq<char>>)
    requires
        0 <= j <= l2.len(),
    ensures
        blocks_from(p + l2, p.len() + j, para) == blocks_from(l2, j, para),
    decreases l2.len() - j,
{
    let full = p + l2;
    if j < l2.len() {
        assert(full[p.len() + j] == l2[j]);
        lemma_shift(p, l2, j + 1, seq![]);
        lemma_shift(p, l2, j + 1, para.push(l2[j]));
    }
}

proof fn lemma_split_from(
    l1: Seq<Seq<char>>,
    b: Seq<char>,
    l2: Seq<Seq<char>>,
    k: int,
    para: Seq<Seq<char>>,
)
    requires
        !prose_line(b),
        0 <= k <= l1.len(),
    ensures
        blocks_from(l1 + seq![b] + l2, k, para) == blocks_from(l1, k, para) + separator_blocks(b)
            + blocks_of(l2),
    decreases l1.len() - k,
{
    let full = l1 + seq![b] + l2;
    let pre = l1 + seq![b];
    assert(full =~= pre + l2);
    lemma_shift(pre, l2, 0, seq![]);
    assert(blocks_from(full, l1.len() + 1int, Seq::<Seq<char>>::empty()) == blocks_of(l2));
    if k == l1.len() {
        assert(full[k] == b);
        if comment_line(b) {
            assert(blocks_from(full, k, para) =~= para_block(para) + separator_blocks(b) + blocks_of(l2));
        } else {
            assert(blocks_from(full, k, para) =~= para_block(para) + separator_blocks(b) + blocks_of(l2));
        }
    } else {
        let line = l1[k];
        assert(full[k] == line);
        lemma_split_from(l1, b, l2, k + 1, seq![]);
        lemma_split_from(l1, b, l2, k + 1, para.push(line));
        if comment_line(line) {
            assert(blocks_from(full, k, para) =~= blocks_from(l1, k, para) + separator_blocks(b) + blocks_of(l2));
        } else if blank_line(line) {
            assert(blocks_from(full, k, para) =~= blocks_from(l1, k, para) + separator_blocks(b) + blocks_of(l2));
        }
    }
}

proof fn lemma_run_from(l: Seq<Seq<char>>, k: int, para: Seq<Seq<char>>)
    requires
        0 <= k <= l.len(),
        forall|j: int| 0 <= j < l.len() ==> prose_line(#[trigger] l[j]),
    ensures
        blocks_from(l, k, para) == para_block(para + l.subrange(k, l.len() as int)),
    decreases l.len() - k,
{
    if k < l.len() {
        assert(prose_line(l[k]));
        lemma_run_from(l, k + 1, para.push(l[k]));
        assert(para.push(l[k]) + l.subrange(k + 1, l.len() as int) =~= para + l.subrange(k, l.len() as int));
    } else {
        assert(para + l.subrange(k, l.len() as int) =~= para);
    }
}

/// A blank line always ends a paragraph, and a `/` line is a comment that
/// ends one too: the blocks of a body split at such a line are the blocks
/// before it, the comment (if it is one), then the blocks after it.
pub proof fn blocks_split_at_separator(l1: Seq<Seq<char>>, b: Seq<char>, l2: Seq<Seq<char>>)
    requires
        !prose_line(b),
    ensures
        blocks_of(l1 + seq![b] + l2) == blocks_of(l1) + separator_blocks(b) + blocks_of(l2),
        blank_line(b) ==> blocks_of(l1 + seq![b] + l2) == blocks_of(l1) + blocks_of(l2),
{
    lemma_split_from(l1, b, l2, 0, seq![]);
    if blank_line(b) {
        assert(!comment_line(b)) by {
            if comment_line(b) {
                lemma_trim_end_keeps_first(b);
            }
        }
        assert(blocks_of(l1) + separator_blocks(b) + blocks_of(l2) =~= blocks_of(l1) + blocks_of(l2));
    }
}

/// A non-empty run of prose lines is exactly one paragraph: the inline scan
/// of those lines joined by `\n`.
pub proof fn blocks_of_prose_run(l: Seq<Seq<char>>)
    requires
        l.len() > 0,
        forall|j: int| 0 <= j < l.len() ==> prose_line(#[trigger] l[j]),
    ensures
        blocks_of(l) == seq![BlockModel::Para(scan(join_nl(l)))],
{
    lemma_run_from(l, 0, seq![]);
    assert(Seq::<Seq<char>>::empty() + l.subrange(0, l.len() as int) =~= l);
}

} // verus!
