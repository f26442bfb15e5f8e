//! The edit view writes a paragraph back as it was written: printing the
//! scanned spans in source form gives the paragraph's text again, unless the
//! text holds a backslash escape or a wikilink target padded with whitespace
//! (the two places where scanning drops chars).

use vstd::prelude::*;
use crate::InlineModel;
use crate::inline::{
    critic, find_closing, lbrackets, lemma_closing_bounds, opens, plain, rbrackets, scan,
    scan_from, stars, token,
};
use crate::render::{inline_source, source_inlines};
use crate::text::{find_from, is_ws, lemma_find_from_bounds, occurs_at, trim};

verus! {

/// No backslash, and no whitespace just inside a `[[` or just before a `]]`.
pub open spec fn plain_markup(t: Seq<char>) -> bool {
    &&& forall|j: int| 0 <= j < t.len() ==> t[j] != '\\'
    &&& forall|j: int| occurs_at(t, j, lbrackets()) && j + 2 < t.len() ==> !is_ws(#[trigger] t[j + 2])
    &&& forall|j: int| occurs_at(t, j, rbrackets()) && j > 0 ==> !is_ws(#[trigger] t[j - 1])
}

proof fn lemma_plain_markup_sub(t: Seq<char>, a: int, b: int)
    requires
        plain_markup(t),
        0 <= a <= b <= t.len(),
    ensures
        plain_markup(t.subrange(a, b)),
{
    let u = t.subrange(a, b);
    assert forall|j: int| 0 <= j < u.len() implies u[j] != '\\' by {
        assert(u[j] == t[a + j]);
    }
    assert forall|j: int| occurs_at(u, j, lbrackets()) && j + 2 < u.len() implies !is_ws(#[trigger] u[j + 2]) by {
        assert(u.subrange(j, j + 2) =~= t.subrange(a + j, a + j + 2));
        assert(occurs_at(t, a + j, lbrackets()));
        assert(u[j + 2] == t[a + j + 2]);
    }
    assert forall|j: int| occurs_at(u, j, rbrackets()) && j > 0 implies !is_ws(#[trigger] u[j - 1]) by {
        assert(u.subrange(j, j + 2) =~= t.subrange(a + j, a + j + 2));
        assert(occurs_at(t, a + j, rbrackets()));
        assert(u[j - 1] == t[a + j - 1]);
    }
}

proof fn lemma_source_concat(a: Seq<InlineModel>, b: Seq<InlineModel>)
    ensures
        source_inlines(a + b) == source_inlines(a) + source_inlines(b),
    decreases b.len(),
{
    if b.len() == 0 {
        assert(a + b =~= a);
    } else {
        assert((a + b).drop_last() =~= a + b.drop_last());
        lemma_source_concat(a, b.drop_last());
    }
}

proof fn lemma_source_plain(t: Seq<char>, ps: int, e: int)
    requires
        0 <= ps <= e <= t.len(),
    ensures
        source_inlines(plain(t, ps, e)) == t.subrange(ps, e),
{
    if e > ps {
        let x = InlineModel::Text(t.subrange(ps, e));
        lemma_source_one(x);
        assert(plain(t, ps, e) == seq![x]);
    } else {
        assert(t.subrange(ps, e) =~= Seq::<char>::empty());
    }
}

proof fn lemma_source_one(x: InlineModel)
    ensures
        source_inlines(seq![x]) == inline_source(x),
{
    assert(seq![x].drop_last() =~= Seq::<InlineModel>::empty());
    assert(source_inlines(Seq::<InlineModel>::empty()) =~= Seq::<char>::empty());
    assert(seq![x].last() == x);
    assert(Seq::<char>::empty() + inline_source(x) =~= inline_source(x));
}

/// Scanning then printing in source form gives the text back.
pub proof fn source_of_scan(t: Seq<char>)
    requires
        plain_markup(t),
    ensures
        source_inlines(scan(t)) == t,
    decreases t.len(), t.len() + 1, 0nat,
{
    lemma_source_scan_from(t, 0, 0);
    assert(t.subrange(0, t.len() as int) =~= t);
}

proof fn lemma_source_scan_from(t: Seq<char>, i: int, ps: int)
    requires
        plain_markup(t),
        0 <= ps <= i <= t.len(),
    ensures
        source_inlines(scan_from(t, i, ps)) == t.subrange(ps, t.len() as int),
    decreases t.len(), t.len() - i, 2nat,
{
    if i >= t.len() {
        lemma_source_plain(t, ps, t.len() as int);
    } else {
        let k = token(t, i);
        match k {
            Some((x, end)) => {
                lemma_token_source(t, i);
                {
                    lemma_source_scan_from(t, end, end);
                    let r = scan_from(t, end, end);
                    lemma_source_concat(plain(t, ps, i), seq![x]);
                    lemma_source_concat(plain(t, ps, i) + seq![x], r);
                    lemma_source_plain(t, ps, i);
                    lemma_source_one(x);
                    assert(t.subrange(ps, i) + t.subrange(i, end) + t.subrange(end, t.len() as int)
                        =~= t.subrange(ps, t.len() as int));
                }
            },
            None => {
                lemma_source_scan_from(t, i + 1, ps);
            },
        }
    }
}

proof fn lemma_trim_plain(s: Seq<char>)
    requires
        s.len() > 0,
        !is_ws(s[0]),
        !is_ws(s.last()),
    ensures
        trim(s) == s,
{
    assert(crate::text::trim_start(s) == s);
    assert(crate::text::trim_end(s) == s);
}

/// A token's source form is the text it was scanned from.
proof fn lemma_token_source(t: Seq<char>, i: int)
    requires
        plain_markup(t),
        0 <= i < t.len(),
        token(t, i) is Some,
    ensures
        ({
            let (x, end) = token(t, i)->0;
            i < end <= t.len() && inline_source(x) == t.subrange(i, end)
        }),
    decreases t.len(), t.len() - i, 1nat,
{
    let (x, end) = token(t, i)->0;
    {
        assert(t[i] != '\\');
        let c = if t[i] == '{' && i + 1 < t.len() {
            critic(t, i)
        } else {
            None
        };
        if c is Some {
            lemma_critic_source(t, i);
        } else if occurs_at(t, i, lbrackets()) && find_from(t, i + 2, rbrackets()) is Some
            && 0 <= i + 2 <= find_from(t, i + 2, rbrackets())->0 <= t.len() && trim(
            t.subrange(i + 2, find_from(t, i + 2, rbrackets())->0),
        ).len() > 0 {
            let e = find_from(t, i + 2, rbrackets())->0;
            lemma_find_from_bounds(t, i + 2, rbrackets());
            let target = t.subrange(i + 2, e);
            assert(target.len() > 0);
            assert(target[0] == t[i + 2]);
            assert(target.last() == t[e - 1]);
            lemma_trim_plain(target);
            assert(t.subrange(i, i + 2) =~= lbrackets());
            assert(t.subrange(e, e + 2) =~= rbrackets());
            assert(inline_source(x) =~= t.subrange(i, end));
        } else if occurs_at(t, i, stars()) && opens(t, i + 2) && find_closing(t, i + 2, stars()) is Some {
            let e = find_closing(t, i + 2, stars())->0;
            lemma_closing_bounds(t, i + 2, i + 2, stars());
            let inner = t.subrange(i + 2, e);
            lemma_plain_markup_sub(t, i + 2, e);
            source_of_scan(inner);
            assert(t.subrange(i, i + 2) =~= stars());
            assert(t.subrange(e, e + 2) =~= stars());
            assert(inline_source(x) =~= t.subrange(i, end));
        } else if t[i] == '*' && opens(t, i + 1) && find_closing(t, i + 1, seq!['*']) is Some {
            let e = find_closing(t, i + 1, seq!['*'])->0;
            lemma_closing_bounds(t, i + 1, i + 1, seq!['*']);
            let inner = t.subrange(i + 1, e);
            lemma_plain_markup_sub(t, i + 1, e);
            source_of_scan(inner);
            assert(t.subrange(e, e + 1) =~= seq!['*']);
            assert(inline_source(x) =~= t.subrange(i, end));
        }
    }
}

proof fn lemma_critic_source(t: Seq<char>, start: int)
    requires
        plain_markup(t),
        0 <= start && start + 1 < t.len(),
        t[start] == '{',
        critic(t, start) is Some,
    ensures
        ({
            let (x, end) = critic(t, start)->0;
            start < end <= t.len() && inline_source(x) == t.subrange(start, end)
        }),
    decreases t.len(), t.len() - start, 0nat,
{
    let close = find_from(t, start + 2, seq!['}'])->0;
    lemma_find_from_bounds(t, start + 2, seq!['}']);
    assert(occurs_at(t, close, seq!['}']));
    assert(t.subrange(close, close + 1)[0] == t[close]);
    assert(t[close] == '}');
    let content = t.subrange(start + 2, close);
    let kind = t[start + 1];
    lemma_plain_markup_sub(t, start + 2, close);
    let (x, end) = critic(t, start)->0;
    if kind == '+' || kind == '-' {
        source_of_scan(content);
        assert(inline_source(x) =~= t.subrange(start, end));
    } else if kind == '/' {
        assert(inline_source(x) =~= t.subrange(start, end));
    } else if kind == '~' {
        let q = find_from(content, 0, seq!['~'])->0;
        lemma_find_from_bounds(content, 0, seq!['~']);
        assert(content.subrange(q, q + 1) =~= seq!['~']);
        let o = content.subrange(0, q);
        let n = content.subrange(q + 1, content.len() as int);
        lemma_plain_markup_sub(content, 0, q);
        lemma_plain_markup_sub(content, q + 1, content.len() as int);
        source_of_scan(o);
        source_of_scan(n);
        assert(content =~= o + seq!['~'] + n);
        assert(inline_source(x) =~= t.subrange(start, end));
    }
}

} // verus!
