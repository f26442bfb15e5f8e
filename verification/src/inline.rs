//! The inline scanner: a paragraph's characters into [`Inline`] spans.
//!
//! The model is [`scan`]: a left-to-right scan that, at each position, tries in
//! order a backslash escape, a CriticMarkup span, a wikilink, bold, italic, and
//! otherwise keeps the character as plain text. Every text scans; a `{` not
//! followed by `+`, `-`, `/` or `~` (and a span's closing `}`) is literal.

use vstd::prelude::*;
use crate::{Inline, InlineModel, inline_model, inlines_model};
use crate::text::{
    chars_to_string, find, find_from, is_whitespace, is_ws, lemma_find_from_bounds, matches_at,
    occurs_at, slice_range, trim, trimmed,
};

verus! {

/// Chars that a backslash escapes into a literal (markers + backslash itself).
pub open spec fn escapable(c: char) -> bool {
    c == '*' || c == '{' || c == '}' || c == '#' || c == '~' || c == '/' || c == '\\' || c == '['
        || c == ']'
}

pub fn is_escapable(c: char) -> (r: bool)
    ensures
        r == escapable(c),
{
    c == '*' || c == '{' || c == '}' || c == '#' || c == '~' || c == '/' || c == '\\' || c == '['
        || c == ']'
}

/// Left-flanking opener: the char at `at` exists and is not whitespace.
pub open spec fn opens(t: Seq<char>, at: int) -> bool {
    0 <= at < t.len() && !is_ws(t[at])
}

/// The first occurrence of `delim` at or after `search` that closes a span
/// opened at `from`: its preceding char is not whitespace nor a backslash and
/// it leaves non-empty content.
pub open spec fn closing_from(t: Seq<char>, from: int, search: int, delim: Seq<char>) -> Option<int>
    decreases t.len() + 1 - search,
{
    if search < 0 || delim.len() == 0 {
        None
    } else {
        match find_from(t, search, delim) {
            None => None,
            Some(pos) => {
                proof {
                    lemma_find_from_bounds(t, search, delim);
                }
                if pos > from && !is_ws(t[pos - 1]) && t[pos - 1] != '\\' {
                    Some(pos)
                } else {
                    closing_from(t, from, pos + delim.len(), delim)
                }
            },
        }
    }
}

pub open spec fn find_closing(t: Seq<char>, from: int, delim: Seq<char>) -> Option<int> {
    closing_from(t, from, from, delim)
}

/// Pending plain text `t[ps..e]`, if any.
pub open spec fn plain(t: Seq<char>, ps: int, e: int) -> Seq<InlineModel> {
    if e > ps {
        seq![InlineModel::Text(t.subrange(ps, e))]
    } else {
        seq![]
    }
}

pub open spec fn lbrackets() -> Seq<char> {
    seq!['[', '[']
}

pub open spec fn rbrackets() -> Seq<char> {
    seq![']', ']']
}

pub open spec fn stars() -> Seq<char> {
    seq!['*', '*']
}

/// The model of the inline scanner on `t`: its spans.
pub open spec fn scan(t: Seq<char>) -> Seq<InlineModel>
    decreases t.len(), t.len() + 1, 0nat,
{
    scan_from(t, 0, 0)
}

/// One CriticMarkup span starting at the `{` at `start`: the span and the
/// index after its `}`, if it is one. Any other char after `{` leaves the `{`
/// literal.
pub open spec fn critic(t: Seq<char>, start: int) -> Option<(InlineModel, int)>
    decreases t.len(), t.len() - start, 0nat,
{
    if !(0 <= start && start + 1 < t.len()) {
        None
    } else {
        match find_from(t, start + 2, seq!['}']) {
            None => None,
            Some(close) => {
                proof {
                    lemma_find_from_bounds(t, start + 2, seq!['}']);
                }
                let content = t.subrange(start + 2, close);
                let kind = t[start + 1];
                if kind == '+' {
                    Some((InlineModel::Insert(scan(content)), close + 1))
                } else if kind == '-' {
                    Some((InlineModel::Delete(scan(content)), close + 1))
                } else if kind == '/' {
                    Some((InlineModel::Comment(content), close + 1))
                } else if kind == '~' {
                    match find_from(content, 0, seq!['~']) {
                        None => None,
                        Some(q) => {
                            proof {
                                lemma_find_from_bounds(content, 0, seq!['~']);
                            }
                            Some(
                                (
                                    InlineModel::Sub {
                                        old: scan(content.subrange(0, q)),
                                        new: scan(content.subrange(q + 1, content.len() as int)),
                                    },
                                    close + 1,
                                ),
                            )
                        },
                    }
                } else {
                    None
                }
            },
        }
    }
}

/// The markup token that starts at `i`, if any: the span and the index just
/// after it. Tried in order: backslash escape, CriticMarkup, wikilink, bold,
/// italic.
pub open spec fn token(t: Seq<char>, i: int) -> Option<(InlineModel, int)>
    decreases t.len(), t.len() - i, 1nat,
{
    if i < 0 || i >= t.len() {
        None
    } else if t[i] == '\\' && i + 1 < t.len() && escapable(t[i + 1]) {
        Some((InlineModel::Text(seq![t[i + 1]]), i + 2))
    } else {
        let c = if t[i] == '{' && i + 1 < t.len() {
            critic(t, i)
        } else {
            None
        };
        if c is Some {
            c
        } else if occurs_at(t, i, lbrackets()) && find_from(t, i + 2, rbrackets()) is Some
            && 0 <= i + 2 <= find_from(t, i + 2, rbrackets())->0 <= t.len() && trim(
            t.subrange(i + 2, find_from(t, i + 2, rbrackets())->0),
        ).len() > 0 {
            let end = find_from(t, i + 2, rbrackets())->0;
            Some((InlineModel::Link(trim(t.subrange(i + 2, end))), end + 2))
        } else if occurs_at(t, i, stars()) && opens(t, i + 2) && find_closing(t, i + 2, stars()) is Some {
            let end = find_closing(t, i + 2, stars())->0;
            proof {
                lemma_closing_bounds(t, i + 2, i + 2, stars());
            }
            Some((InlineModel::Bold(scan(t.subrange(i + 2, end))), end + 2))
        } else if t[i] == '*' && opens(t, i + 1) && find_closing(t, i + 1, seq!['*']) is Some {
            let end = find_closing(t, i + 1, seq!['*'])->0;
            proof {
                lemma_closing_bounds(t, i + 1, i + 1, seq!['*']);
            }
            Some((InlineModel::Italic(scan(t.subrange(i + 1, end))), end + 1))
        } else {
            None
        }
    }
}

/// The scan from position `i`, with plain text pending since `ps`.
pub open spec fn scan_from(t: Seq<char>, i: int, ps: int) -> Seq<InlineModel>
    decreases t.len(), t.len() - i, 2nat,
{
    if i < 0 || i >= t.len() {
        plain(t, ps, t.len() as int)
    } else {
        match token(t, i) {
            Some((x, end)) => {
                if i < end <= t.len() {
                    plain(t, ps, i) + seq![x] + scan_from(t, end, end)
                } else {
                    seq![]
                }
            },
            None => scan_from(t, i + 1, ps),
        }
    }
}

pub proof fn lemma_closing_bounds(t: Seq<char>, from: int, search: int, delim: Seq<char>)
    requires
        0 <= from <= search,
    ensures
        closing_from(t, from, search, delim) matches Some(p) ==> from < p && search <= p && p
            + delim.len() <= t.len() && occurs_at(t, p, delim),
    decreases t.len() + 1 - search,
{
    if search < 0 || delim.len() == 0 {
    } else {
        lemma_find_from_bounds(t, search, delim);
        match find_from(t, search, delim) {
            None => {},
            Some(pos) => {
                if pos > from && !is_ws(t[pos - 1]) && t[pos - 1] != '\\' {
                } else {
                    lemma_closing_bounds(t, from, pos + delim.len(), delim);
                }
            },
        }
    }
}


pub proof fn lemma_inlines_push(s: Seq<Inline>, x: Inline)
    ensures
        inlines_model(s.push(x)) == inlines_model(s).push(inline_model(&x)),
{
    assert(inlines_model(s.push(x)) =~= inlines_model(s).push(inline_model(&x)));
}

fn text_inline(t: &[char], lo: usize, hi: usize) -> (r: Inline)
    requires
        lo <= hi <= t@.len(),
    ensures
        inline_model(&r) == InlineModel::Text(t@.subrange(lo as int, hi as int)),
{
    let v = slice_range(t, lo, hi);
    Inline::Text(chars_to_string(v.as_slice()))
}

/// Pushes the pending plain text `t[ps..e]`, if any.
fn push_plain(out: &mut Vec<Inline>, t: &[char], ps: usize, e: usize)
    requires
        ps <= t@.len(),
        e <= t@.len(),
    ensures
        inlines_model(final(out)@) == inlines_model(old(out)@) + plain(t@, ps as int, e as int),
{
    if e > ps {
        let x = text_inline(t, ps, e);
        proof {
            lemma_inlines_push(old(out)@, x);
        }
        out.push(x);
        assert(inlines_model(out@) =~= inlines_model(old(out)@) + plain(t@, ps as int, e as int));
    } else {
        assert(inlines_model(out@) =~= inlines_model(old(out)@) + plain(t@, ps as int, e as int));
    }
}

fn opens_at(t: &[char], at: usize) -> (r: bool)
    ensures
        r == opens(t@, at as int),
{
    at < t.len() && !is_whitespace(t[at])
}

fn find_closing_exec(t: &[char], from: usize, delim: &[char]) -> (r: Option<usize>)
    requires
        delim@.len() > 0,
    ensures
        r matches Some(p) ==> find_closing(t@, from as int, delim@) == Some(p as int),
        r is None ==> find_closing(t@, from as int, delim@) is None,
{
    let mut search = from;
    loop
        invariant
            from <= search,
            delim@.len() > 0,
            closing_from(t@, from as int, from as int, delim@) == closing_from(
                t@,
                from as int,
                search as int,
                delim@,
            ),
        decreases t@.len() + 1 - search,
    {
        let pos = match find(t, search, delim) {
            Some(p) => p,
            None => return None,
        };
        proof {
            lemma_find_from_bounds(t@, search as int, delim@);
        }
        assert(occurs_at(t@, pos as int, delim@));
        assert(pos + delim@.len() <= t.len());
        if pos > from && !is_whitespace(t[pos - 1]) && t[pos - 1] != '\\' {
            return Some(pos);
        }
        search = pos + delim.len();
    }
}

/// One CriticMarkup span starting at the `{` at `start`.
fn critic_exec(t: &[char], start: usize) -> (r: Option<(Inline, usize)>)
    requires
        start + 1 < t.len(),
    ensures
        r matches Some(p) ==> critic(t@, start as int) == Some(
            (inline_model(&p.0), p.1 as int),
        ) && start < p.1 <= t@.len(),
        r is None ==> critic(t@, start as int) is None,
    decreases t@.len(), t@.len() - start, 0nat,
{
    let kind = t[start + 1];
    let brace = vec!['}'];
    assert(brace@ =~= seq!['}']);
    let close = match find(t, start + 2, brace.as_slice()) {
        Some(c) => c,
        None => {
            return None;
        },
    };
    proof {
        lemma_find_from_bounds(t@, start + 2, seq!['}']);
    }
    let content = slice_range(t, start + 2, close);
    if kind == '+' {
        Some((Inline::Insert(scan_inline(content.as_slice())), close + 1))
    } else if kind == '-' {
        Some((Inline::Delete(scan_inline(content.as_slice())), close + 1))
    } else if kind == '/' {
        Some((Inline::Comment(chars_to_string(content.as_slice())), close + 1))
    } else if kind == '~' {
        let tilde = vec!['~'];
        assert(tilde@ =~= seq!['~']);
        match find(content.as_slice(), 0, tilde.as_slice()) {
            None => None,
            Some(q) => {
                proof {
                    lemma_find_from_bounds(content@, 0, seq!['~']);
                }
                let o = slice_range(content.as_slice(), 0, q);
                let n = slice_range(content.as_slice(), q + 1, content.len());
                let so = scan_inline(o.as_slice());
                let sn = scan_inline(n.as_slice());
                Some((Inline::Sub { old: so, new: sn }, close + 1))
            },
        }
    } else {
        None
    }
}

/// The markup token that starts at `i`, if any.
fn token_exec(t: &[char], i: usize) -> (r: Option<(Inline, usize)>)
    requires
        i < t@.len(),
    ensures
        r matches Some(p) ==> token(t@, i as int) == Some((inline_model(&p.0), p.1 as int))
            && i < p.1 <= t@.len(),
        r is None ==> token(t@, i as int) is None,
    decreases t@.len(), t@.len() - i, 1nat,
{
    let n = t.len();
    if t[i] == '\\' && i + 1 < n && is_escapable(t[i + 1]) {
        let x = text_inline(t, i + 1, i + 2);
        assert(t@.subrange(i + 1, i + 2) =~= seq![t@[i + 1]]);
        return Some((x, i + 2));
    }
    if t[i] == '{' && i + 1 < n {
        match critic_exec(t, i) {
            Some(p) => {
                return Some(p);
            },
            None => {},
        }
    }
    let lb = vec!['[', '['];
    assert(lb@ =~= lbrackets());
    if matches_at(t, i, lb.as_slice()) {
        let rb = vec![']', ']'];
        assert(rb@ =~= rbrackets());
        match find(t, i + 2, rb.as_slice()) {
            Some(end) => {
                proof {
                    lemma_find_from_bounds(t@, i + 2, rbrackets());
                }
                let raw = slice_range(t, i + 2, end);
                let target = trimmed(raw.as_slice());
                if target.len() > 0 {
                    return Some((Inline::Link(chars_to_string(target.as_slice())), end + 2));
                }
            },
            None => {},
        }
    }
    let st = vec!['*', '*'];
    assert(st@ =~= stars());
    if matches_at(t, i, st.as_slice()) && opens_at(t, i + 2) {
        match find_closing_exec(t, i + 2, st.as_slice()) {
            Some(end) => {
                proof {
                    lemma_closing_bounds(t@, i + 2, i + 2, stars());
                }
                let inner = slice_range(t, i + 2, end);
                return Some((Inline::Bold(scan_inline(inner.as_slice())), end + 2));
            },
            None => {},
        }
    }
    let one = vec!['*'];
    assert(one@ =~= seq!['*']);
    if t[i] == '*' && opens_at(t, i + 1) {
        match find_closing_exec(t, i + 1, one.as_slice()) {
            Some(end) => {
                proof {
                    lemma_closing_bounds(t@, i + 1, i + 1, seq!['*']);
                }
                let inner = slice_range(t, i + 1, end);
                return Some((Inline::Italic(scan_inline(inner.as_slice())), end + 1));
            },
            None => {},
        }
    }
    None
}

/// Scan a paragraph's text into inline spans.
pub fn scan_inline(t: &[char]) -> (r: Vec<Inline>)
    ensures
        inlines_model(r@) == scan(t@),
    decreases t@.len(), t@.len() + 1, 0nat,
{
    let n = t.len();
    let mut out: Vec<Inline> = Vec::new();
    let mut i: usize = 0;
    let mut ps: usize = 0;
    assert(inlines_model(out@) =~= seq![]);
    while i < n
        invariant
            n == t@.len(),
            ps <= i <= n,
            inlines_model(out@) + scan_from(t@, i as int, ps as int) == scan(t@),
        decreases n - i,
    {
        match token_exec(t, i) {
            Some((x, end)) => {
                push_plain(&mut out, t, ps, i);
                proof {
                    lemma_inlines_push(out@, x);
                }
                out.push(x);
                i = end;
                ps = end;
                assert(inlines_model(out@) + scan_from(t@, i as int, ps as int) =~= scan(t@));
            },
            None => {
                i = i + 1;
            },
        }
    }
    push_plain(&mut out, t, ps, n);
    assert(inlines_model(out@) =~= scan(t@));
    out
}

} // verus!
