//! `{{ … }}` interpolation: metadata lookups and integer arithmetic over a
//! heading's position among its siblings.

use vstd::prelude::*;
use crate::text::{
    chars_to_string, find, find_from, lemma_find_from_bounds, occurs_at, push_all, slice_range,
    trim, trimmed,
};

verus! {

/// The resolution context of a node: its 1-based position among its
/// non-excluded siblings (`number`, 0 for an excluded node), their count
/// (`total`), and the metadata cascade (front matter, then every ancestor's
/// and the node's own `key: value` pairs; a later pair wins).
pub struct Ctx {
    pub number: i64,
    pub total: i64,
    pub vars: Vec<(Vec<char>, Vec<char>)>,
}

pub struct CtxModel {
    pub number: i64,
    pub total: i64,
    pub vars: Seq<(Seq<char>, Seq<char>)>,
}

pub open spec fn pairs_model(v: Seq<(Vec<char>, Vec<char>)>) -> Seq<(Seq<char>, Seq<char>)> {
    v.map_values(|p: (Vec<char>, Vec<char>)| (p.0@, p.1@))
}

impl Ctx {
    pub open spec fn view(&self) -> CtxModel {
        CtxModel { number: self.number, total: self.total, vars: pairs_model(self.vars@) }
    }
}

/// The value of the last pair with key `k`: a map built by inserting the
/// pairs in order.
pub open spec fn lookup(vars: Seq<(Seq<char>, Seq<char>)>, k: Seq<char>) -> Option<Seq<char>>
    decreases vars.len(),
{
    if vars.len() == 0 {
        None
    } else if vars.last().0 == k {
        Some(vars.last().1)
    } else {
        lookup(vars.drop_last(), k)
    }
}

pub fn eq_chars(a: &[char], b: &[char]) -> (r: bool)
    ensures
        r == (a@ == b@),
{
    if a.len() != b.len() {
        return false;
    }
    let mut i: usize = 0;
    while i < a.len()
        invariant
            i <= a@.len(),
            a@.len() == b@.len(),
            forall|j: int| 0 <= j < i ==> a@[j] == b@[j],
        decreases a@.len() - i,
    {
        if a[i] != b[i] {
            return false;
        }
        i += 1;
    }
    assert(a@ =~= b@);
    true
}

/// Look `k` up in the cascade: the value of its last pair.
pub fn lookup_exec(vars: &Vec<(Vec<char>, Vec<char>)>, k: &[char]) -> (r: Option<Vec<char>>)
    ensures
        match lookup(pairs_model(vars@), k@) {
            None => r is None,
            Some(v) => r matches Some(x) && x@ == v,
        },
{
    let mut i = vars.len();
    assert(pairs_model(vars@).take(i as int) =~= pairs_model(vars@));
    while i > 0
        invariant
            i <= vars@.len(),
            lookup(pairs_model(vars@), k@) == lookup(pairs_model(vars@).take(i as int), k@),
        decreases i,
    {
        let ghost pm = pairs_model(vars@).take(i as int);
        assert(pm.drop_last() =~= pairs_model(vars@).take(i - 1));
        if eq_chars(vars[i - 1].0.as_slice(), k) {
            return Some(vars[i - 1].1.clone());
        }
        i -= 1;
    }
    None
}

// ---- integers --------------------------------------------------------------

pub open spec fn is_digit(c: char) -> bool {
    '0' <= c && c <= '9'
}

pub open spec fn digit_value(c: char) -> int {
    c as int - '0' as int
}

/// The value of a string of decimal digits.
pub open spec fn digits_value(s: Seq<char>) -> int
    decreases s.len(),
{
    if s.len() == 0 {
        0
    } else {
        digits_value(s.drop_last()) * 10 + digit_value(s.last())
    }
}

pub open spec fn all_digits(s: Seq<char>) -> bool {
    forall|j: int| 0 <= j < s.len() ==> is_digit(#[trigger] s[j])
}

/// `str::parse::<i64>`: an optional sign, then one or more digits, in range.
pub open spec fn parse_i64(s: Seq<char>) -> Option<i64> {
    if s.len() == 0 {
        None
    } else {
        let neg = s[0] == '-';
        let digits = if s[0] == '-' || s[0] == '+' {
            s.drop_first()
        } else {
            s
        };
        if digits.len() == 0 || !all_digits(digits) {
            None
        } else {
            let v = if neg {
                -digits_value(digits)
            } else {
                digits_value(digits)
            };
            if i64::MIN <= v <= i64::MAX {
                Some(v as i64)
            } else {
                None
            }
        }
    }
}

proof fn lemma_digits_value_nonneg(s: Seq<char>)
    requires
        all_digits(s),
    ensures
        digits_value(s) >= 0,
    decreases s.len(),
{
    if s.len() > 0 {
        assert(all_digits(s.drop_last())) by {
            assert forall|j: int| 0 <= j < s.drop_last().len() implies is_digit(
                #[trigger] s.drop_last()[j],
            ) by {
                assert(s.drop_last()[j] == s[j]);
            }
        }
        lemma_digits_value_nonneg(s.drop_last());
        assert(is_digit(s[s.len() - 1]));
    }
}

proof fn lemma_digits_value_prefix(s: Seq<char>, k: int)
    requires
        all_digits(s),
        0 <= k <= s.len(),
    ensures
        digits_value(s.take(k)) <= digits_value(s),
    decreases s.len() - k,
{
    if k < s.len() {
        lemma_digits_value_prefix(s, k + 1);
        assert(s.take(k + 1).drop_last() =~= s.take(k));
        assert(all_digits(s.take(k))) by {
            assert forall|j: int| 0 <= j < s.take(k).len() implies is_digit(
                #[trigger] s.take(k)[j],
            ) by {
                assert(s.take(k)[j] == s[j]);
            }
        }
        lemma_digits_value_nonneg(s.take(k));
        assert(is_digit(s[k]));
        assert(s.take(k + 1).last() == s[k]);
    } else {
        assert(s.take(k) =~= s);
    }
}

/// `str::parse::<i64>` on characters.
pub fn parse_i64_exec(s: &[char]) -> (r: Option<i64>)
    ensures
        r == parse_i64(s@),
{
    if s.len() == 0 {
        return None;
    }
    let neg = s[0] == '-';
    let skip: usize = if s[0] == '-' || s[0] == '+' {
        1
    } else {
        0
    };
    let ghost digits = if s@[0] == '-' || s@[0] == '+' {
        s@.drop_first()
    } else {
        s@
    };
    assert(digits =~= s@.subrange(skip as int, s@.len() as int));
    if s.len() == skip {
        return None;
    }
    let mut acc: u64 = 0;
    let mut i = skip;
    let limit: u64 = 9223372036854775808;
    while i < s.len()
        invariant
            skip <= i <= s@.len(),
            digits == s@.subrange(skip as int, s@.len() as int),
            s@.len() > 0,
            neg == (s@[0] == '-'),
            digits == if s@[0] == '-' || s@[0] == '+' {
                s@.drop_first()
            } else {
                s@
            },
            digits.len() > 0,
            all_digits(digits.take(i - skip)),
            acc as int == digits_value(digits.take(i - skip)),
            acc <= limit,
            limit == 9223372036854775808u64,
        decreases s@.len() - i,
    {
        let c = s[i];
        assert(digits[i - skip] == c);
        if !('0' <= c && c <= '9') {
            assert(!is_digit(digits[i - skip]));
            return None;
        }
        let d = (c as u32 - '0' as u32) as u64;
        assert(digits.take(i + 1 - skip).drop_last() =~= digits.take(i - skip));
        assert(all_digits(digits.take(i + 1 - skip))) by {
            assert forall|j: int| 0 <= j < digits.take(i + 1 - skip).len() implies is_digit(
                #[trigger] digits.take(i + 1 - skip)[j],
            ) by {
                if j < i - skip {
                    assert(digits.take(i + 1 - skip)[j] == digits.take(i - skip)[j]);
                }
            }
        }
        if acc > (limit - d) / 10 {
            proof {
                assert(acc * 10 + d > limit) by (nonlinear_arith)
                    requires
                        acc > (limit - d) / 10,
                        d <= 9,
                        limit == 9223372036854775808u64,
                ;
                if all_digits(digits) {
                    lemma_digits_value_prefix(digits, i + 1 - skip);
                }
                assert(digits.take(i + 1 - skip).last() == c);
            }
            return None;
        }
        acc = acc * 10 + d;
        assert(digits.take(i + 1 - skip).last() == c);
        i += 1;
    }
    assert(digits.take(s@.len() - skip) =~= digits);
    if neg {
        if acc == limit {
            Some(-9223372036854775807i64 - 1)
        } else {
            Some(-(acc as i64))
        }
    } else {
        if acc == limit {
            None
        } else {
            Some(acc as i64)
        }
    }
}

pub open spec fn digit_char(d: int) -> char {
    if d == 0 {
        '0'
    } else if d == 1 {
        '1'
    } else if d == 2 {
        '2'
    } else if d == 3 {
        '3'
    } else if d == 4 {
        '4'
    } else if d == 5 {
        '5'
    } else if d == 6 {
        '6'
    } else if d == 7 {
        '7'
    } else if d == 8 {
        '8'
    } else {
        '9'
    }
}

/// Decimal digits of a natural number.
pub open spec fn nat_str(n: nat) -> Seq<char>
    decreases n,
{
    if n < 10 {
        seq![digit_char(n as int)]
    } else {
        nat_str(n / 10) + seq![digit_char((n % 10) as int)]
    }
}

/// `i64::to_string`.
pub open spec fn i64_str(v: i64) -> Seq<char> {
    if v < 0 {
        seq!['-'] + nat_str((-v) as nat)
    } else {
        nat_str(v as nat)
    }
}

fn digit_char_exec(d: u64) -> (c: char)
    requires
        d < 10,
    ensures
        c == digit_char(d as int),
{
    if d == 0 {
        '0'
    } else if d == 1 {
        '1'
    } else if d == 2 {
        '2'
    } else if d == 3 {
        '3'
    } else if d == 4 {
        '4'
    } else if d == 5 {
        '5'
    } else if d == 6 {
        '6'
    } else if d == 7 {
        '7'
    } else if d == 8 {
        '8'
    } else {
        '9'
    }
}

pub fn nat_digits(n: u64) -> (r: Vec<char>)
    ensures
        r@ == nat_str(n as nat),
    decreases n,
{
    if n < 10 {
        let mut r = Vec::new();
        r.push(digit_char_exec(n));
        assert(r@ =~= nat_str(n as nat));
        r
    } else {
        let mut r = nat_digits(n / 10);
        r.push(digit_char_exec(n % 10));
        assert(r@ =~= nat_str(n as nat));
        r
    }
}

/// `i64::to_string` on characters.
pub fn i64_to_chars(v: i64) -> (r: Vec<char>)
    ensures
        r@ == i64_str(v),
{
    if v < 0 {
        let mag: u64 = if v == i64::MIN {
            9223372036854775808u64
        } else {
            (-v) as u64
        };
        let d = nat_digits(mag);
        let mut r = Vec::new();
        r.push('-');
        push_all(&mut r, d.as_slice());
        assert(r@ =~= i64_str(v));
        r
    } else {
        nat_digits(v as u64)
    }
}

// ---- the expression evaluator ---------------------------------------------

pub open spec fn is_ascii_ws(c: char) -> bool {
    c == ' ' || c == '\t' || c == '\n' || c == '\x0C' || c == '\r'
}

pub open spec fn is_alpha(c: char) -> bool {
    ('a' <= c && c <= 'z') || ('A' <= c && c <= 'Z')
}

pub open spec fn is_ident_char(c: char) -> bool {
    is_alpha(c) || is_digit(c) || c == '_'
}

/// Past any ASCII whitespace from `i`.
pub open spec fn skip_ws(b: Seq<char>, i: int) -> int
    decreases b.len() - i,
{
    if 0 <= i < b.len() && is_ascii_ws(b[i]) {
        skip_ws(b, i + 1)
    } else {
        i
    }
}

/// Past the run of chars satisfying `digit` (digits) or identifier chars from `i`.
pub open spec fn skip_digits(b: Seq<char>, i: int) -> int
    decreases b.len() - i,
{
    if 0 <= i < b.len() && is_digit(b[i]) {
        skip_digits(b, i + 1)
    } else {
        i
    }
}

pub open spec fn skip_ident(b: Seq<char>, i: int) -> int
    decreases b.len() - i,
{
    if 0 <= i < b.len() && is_ident_char(b[i]) {
        skip_ident(b, i + 1)
    } else {
        i
    }
}

pub proof fn lemma_skip_bounds(b: Seq<char>, i: int)
    requires
        0 <= i <= b.len(),
    ensures
        i <= skip_ws(b, i) <= b.len(),
        i <= skip_digits(b, i) <= b.len(),
        i <= skip_ident(b, i) <= b.len(),
    decreases b.len() - i,
{
    if i < b.len() {
        lemma_skip_bounds(b, i + 1);
    }
}

pub open spec fn checked_neg(v: i64) -> Option<i64> {
    if v == i64::MIN {
        None
    } else {
        Some((-v) as i64)
    }
}

/// The value of a named variable: `number`, `total`, or an integer-valued
/// metadata value.
pub open spec fn var_value(name: Seq<char>, ctx: CtxModel) -> Option<i64> {
    if name == seq!['n', 'u', 'm', 'b', 'e', 'r'] {
        Some(ctx.number)
    } else if name == seq!['t', 'o', 't', 'a', 'l'] {
        Some(ctx.total)
    } else {
        match lookup(ctx.vars, name) {
            None => None,
            Some(v) => parse_i64(trim(v)),
        }
    }
}

/// `factor := '-' factor | '(' expr ')' | digits | identifier`, after
/// whitespace. The value and the position after it.
pub open spec fn p_factor(b: Seq<char>, i: int, ctx: CtxModel) -> Option<(i64, int)>
    decreases b.len() - i, 0nat,
{
    if i < 0 || i > b.len() {
        None
    } else {
        let j = skip_ws(b, i);
        proof {
            lemma_skip_bounds(b, i);
        }
        if j >= b.len() {
            None
        } else if b[j] == '-' {
            match p_factor(b, j + 1, ctx) {
                None => None,
                Some((v, k)) => match checked_neg(v) {
                    None => None,
                    Some(w) => Some((w, k)),
                },
            }
        } else if b[j] == '(' {
            match p_expr(b, j + 1, ctx) {
                None => None,
                Some((v, k)) => {
                    if 0 <= k <= b.len() {
                        let m = skip_ws(b, k);
                        proof {
                            lemma_skip_bounds(b, k);
                        }
                        if m < b.len() && b[m] == ')' {
                            Some((v, m + 1))
                        } else {
                            None
                        }
                    } else {
                        None
                    }
                },
            }
        } else if is_digit(b[j]) {
            let e = skip_digits(b, j);
            proof {
                lemma_skip_bounds(b, j);
            }
            match parse_i64(b.subrange(j, e)) {
                None => None,
                Some(v) => Some((v, e)),
            }
        } else if is_alpha(b[j]) || b[j] == '_' {
            let e = skip_ident(b, j);
            proof {
                lemma_skip_bounds(b, j);
            }
            match var_value(b.subrange(j, e), ctx) {
                None => None,
                Some(v) => Some((v, e)),
            }
        } else {
            None
        }
    }
}

/// `term := factor (('*' | '/') factor)*`.
pub open spec fn p_term(b: Seq<char>, i: int, ctx: CtxModel) -> Option<(i64, int)>
    decreases b.len() - i, 1nat,
{
    match p_factor(b, i, ctx) {
        None => None,
        Some((v, k)) => if i < k <= b.len() {
            p_term_rest(b, k, v, ctx)
        } else {
            None
        },
    }
}

pub open spec fn p_term_rest(b: Seq<char>, i: int, v: i64, ctx: CtxModel) -> Option<(i64, int)>
    decreases b.len() - i, 0nat,
{
    if i < 0 || i > b.len() {
        None
    } else {
        let j = skip_ws(b, i);
        proof {
            lemma_skip_bounds(b, i);
        }
        if j < b.len() && (b[j] == '*' || b[j] == '/') {
            match p_factor(b, j + 1, ctx) {
                None => None,
                Some((w, k)) => {
                    let r = if b[j] == '*' {
                        v.checked_mul(w)
                    } else {
                        v.checked_div(w)
                    };
                    match r {
                        None => None,
                        Some(x) => if j < k <= b.len() {
                            p_term_rest(b, k, x, ctx)
                        } else {
                            None
                        },
                    }
                },
            }
        } else {
            Some((v, j))
        }
    }
}

/// `expr := term (('+' | '-') term)*`.
pub open spec fn p_expr(b: Seq<char>, i: int, ctx: CtxModel) -> Option<(i64, int)>
    decreases b.len() - i, 2nat,
{
    match p_term(b, i, ctx) {
        None => None,
        Some((v, k)) => if i < k <= b.len() {
            p_expr_rest(b, k, v, ctx)
        } else {
            None
        },
    }
}

pub open spec fn p_expr_rest(b: Seq<char>, i: int, v: i64, ctx: CtxModel) -> Option<(i64, int)>
    decreases b.len() - i, 1nat,
{
    if i < 0 || i > b.len() {
        None
    } else {
        let j = skip_ws(b, i);
        proof {
            lemma_skip_bounds(b, i);
        }
        if j < b.len() && (b[j] == '+' || b[j] == '-') {
            match p_term(b, j + 1, ctx) {
                None => None,
                Some((w, k)) => {
                    let r = if b[j] == '+' {
                        v.checked_add(w)
                    } else {
                        v.checked_sub(w)
                    };
                    match r {
                        None => None,
                        Some(x) => if j < k <= b.len() {
                            p_expr_rest(b, k, x, ctx)
                        } else {
                            None
                        },
                    }
                },
            }
        } else {
            Some((v, j))
        }
    }
}

pub open spec fn number_key() -> Seq<char> {
    seq!['n', 'u', 'm', 'b', 'e', 'r']
}

pub open spec fn total_key() -> Seq<char> {
    seq!['t', 'o', 't', 'a', 'l']
}

/// Evaluate an interpolation expression: a bare metadata key yields its value
/// (the built-ins `number`/`total` win over metadata of the same name);
/// anything else is integer arithmetic that must consume the whole expression.
pub open spec fn eval(expr: Seq<char>, ctx: CtxModel) -> Option<Seq<char>> {
    let key = trim(expr);
    if key != number_key() && key != total_key() && lookup(ctx.vars, key) is Some {
        lookup(ctx.vars, key)
    } else {
        match p_expr(expr, 0, ctx) {
            None => None,
            Some((v, k)) => if 0 <= k <= expr.len() && skip_ws(expr, k) == expr.len() {
                Some(i64_str(v))
            } else {
                None
            },
        }
    }
}

pub open spec fn open2() -> Seq<char> {
    seq!['{', '{']
}

pub open spec fn close2() -> Seq<char> {
    seq!['}', '}']
}

/// Resolve `{{ … }}` interpolations in `text`. An unresolved expression is
/// left verbatim; a `\{{` renders a literal `{{`.
pub open spec fn substitute(text: Seq<char>, ctx: CtxModel) -> Seq<char>
    decreases text.len(),
{
    match find_from(text, 0, open2()) {
        None => text,
        Some(pos) => {
            proof {
                lemma_find_from_bounds(text, 0, open2());
            }
            if pos > 0 && text[pos - 1] == '\\' {
                text.subrange(0, pos - 1) + open2() + substitute(
                    text.subrange(pos + 2, text.len() as int),
                    ctx,
                )
            } else {
                let after = text.subrange(pos + 2, text.len() as int);
                match find_from(after, 0, close2()) {
                    Some(end) => {
                        proof {
                            lemma_find_from_bounds(after, 0, close2());
                        }
                        let expr = after.subrange(0, end);
                        text.subrange(0, pos) + match eval(expr, ctx) {
                            Some(v) => v,
                            None => open2() + expr + close2(),
                        } + substitute(after.subrange(end + 2, after.len() as int), ctx)
                    },
                    None => text.subrange(0, pos) + open2() + after,
                }
            }
        },
    }
}


/// Recursive-descent evaluator for the integer arithmetic subset: positions
/// into `b`, values in `i64`, every operation checked.
pub struct ExprParser<'a> {
    pub b: &'a [char],
    pub ctx: &'a Ctx,
}

impl<'a> ExprParser<'a> {
    /// Past any ASCII whitespace from `i`.
    pub fn ws(&self, i: usize) -> (j: usize)
        requires
            i <= self.b@.len(),
        ensures
            j == skip_ws(self.b@, i as int),
            i <= j <= self.b@.len(),
    {
        let mut j = i;
        proof {
            lemma_skip_bounds(self.b@, i as int);
        }
        while j < self.b.len() && (self.b[j] == ' ' || self.b[j] == '\t' || self.b[j] == '\n'
            || self.b[j] == '\x0C' || self.b[j] == '\r')
            invariant
                i <= j <= self.b@.len(),
                skip_ws(self.b@, i as int) == skip_ws(self.b@, j as int),
            decreases self.b@.len() - j,
        {
            j += 1;
        }
        j
    }

    fn skip_digits_exec(&self, i: usize) -> (j: usize)
        requires
            i <= self.b@.len(),
        ensures
            j == skip_digits(self.b@, i as int),
            i <= j <= self.b@.len(),
    {
        let mut j = i;
        while j < self.b.len() && ('0' <= self.b[j] && self.b[j] <= '9')
            invariant
                i <= j <= self.b@.len(),
                skip_digits(self.b@, i as int) == skip_digits(self.b@, j as int),
            decreases self.b@.len() - j,
        {
            j += 1;
        }
        j
    }

    fn skip_ident_exec(&self, i: usize) -> (j: usize)
        requires
            i <= self.b@.len(),
        ensures
            j == skip_ident(self.b@, i as int),
            i <= j <= self.b@.len(),
    {
        let mut j = i;
        while j < self.b.len() && (('a' <= self.b[j] && self.b[j] <= 'z') || ('A' <= self.b[j]
            && self.b[j] <= 'Z') || ('0' <= self.b[j] && self.b[j] <= '9') || self.b[j] == '_')
            invariant
                i <= j <= self.b@.len(),
                skip_ident(self.b@, i as int) == skip_ident(self.b@, j as int),
            decreases self.b@.len() - j,
        {
            j += 1;
        }
        j
    }

    fn var_value_exec(&self, name: &[char]) -> (r: Option<i64>)
        ensures
            r == var_value(name@, self.ctx@),
    {
        let number = vec!['n', 'u', 'm', 'b', 'e', 'r'];
        let total = vec!['t', 'o', 't', 'a', 'l'];
        assert(number@ =~= number_key());
        assert(total@ =~= total_key());
        if eq_chars(name, number.as_slice()) {
            return Some(self.ctx.number);
        }
        if eq_chars(name, total.as_slice()) {
            return Some(self.ctx.total);
        }
        match lookup_exec(&self.ctx.vars, name) {
            None => None,
            Some(v) => {
                let t = trimmed(v.as_slice());
                parse_i64_exec(t.as_slice())
            },
        }
    }

    pub fn factor(&self, i: usize) -> (r: Option<(i64, usize)>)
        requires
            i <= self.b@.len(),
        ensures
            match p_factor(self.b@, i as int, self.ctx@) {
                None => r is None,
                Some((v, k)) => r matches Some(p) && p.0 == v && p.1 as int == k && i < k <= self.b@.len(),
            },
        decreases self.b@.len() - i, 0nat,
    {
        let j = self.ws(i);
        if j >= self.b.len() {
            return None;
        }
        let c = self.b[j];
        if c == '-' {
            match self.factor(j + 1) {
                None => None,
                Some((v, k)) => if v == i64::MIN {
                    None
                } else {
                    Some((-v, k))
                },
            }
        } else if c == '(' {
            match self.expr(j + 1) {
                None => None,
                Some((v, k)) => {
                    let m = self.ws(k);
                    if m < self.b.len() && self.b[m] == ')' {
                        Some((v, m + 1))
                    } else {
                        None
                    }
                },
            }
        } else if '0' <= c && c <= '9' {
            let e = self.skip_digits_exec(j);
            let digits = slice_range(self.b, j, e);
            match parse_i64_exec(digits.as_slice()) {
                None => None,
                Some(v) => {
                    proof {
                        lemma_skip_bounds(self.b@, j + 1);
                    }
                    Some((v, e))
                },
            }
        } else if ('a' <= c && c <= 'z') || ('A' <= c && c <= 'Z') || c == '_' {
            let e = self.skip_ident_exec(j);
            let name = slice_range(self.b, j, e);
            match self.var_value_exec(name.as_slice()) {
                None => None,
                Some(v) => {
                    proof {
                        lemma_skip_bounds(self.b@, j + 1);
                    }
                    Some((v, e))
                },
            }
        } else {
            None
        }
    }

    pub fn term(&self, i: usize) -> (r: Option<(i64, usize)>)
        requires
            i <= self.b@.len(),
        ensures
            match p_term(self.b@, i as int, self.ctx@) {
                None => r is None,
                Some((v, k)) => r matches Some(p) && p.0 == v && p.1 as int == k && i < k <= self.b@.len(),
            },
        decreases self.b@.len() - i, 1nat,
    {
        let (mut v, mut k) = match self.factor(i) {
            None => return None,
            Some(p) => p,
        };
        loop
            invariant
                i < k <= self.b@.len(),
                p_term(self.b@, i as int, self.ctx@) == p_term_rest(self.b@, k as int, v, self.ctx@),
            decreases self.b@.len() - k,
        {
            let j = self.ws(k);
            if j < self.b.len() && (self.b[j] == '*' || self.b[j] == '/') {
                let (w, k2) = match self.factor(j + 1) {
                    None => return None,
                    Some(p) => p,
                };
                let x = if self.b[j] == '*' {
                    v.checked_mul(w)
                } else {
                    v.checked_div(w)
                };
                match x {
                    None => return None,
                    Some(x) => {
                        v = x;
                        k = k2;
                    },
                }
            } else {
                return Some((v, j));
            }
        }
    }

    pub fn expr(&self, i: usize) -> (r: Option<(i64, usize)>)
        requires
            i <= self.b@.len(),
        ensures
            match p_expr(self.b@, i as int, self.ctx@) {
                None => r is None,
                Some((v, k)) => r matches Some(p) && p.0 == v && p.1 as int == k && i < k <= self.b@.len(),
            },
        decreases self.b@.len() - i, 2nat,
    {
        let (mut v, mut k) = match self.term(i) {
            None => return None,
            Some(p) => p,
        };
        loop
            invariant
                i < k <= self.b@.len(),
                p_expr(self.b@, i as int, self.ctx@) == p_expr_rest(self.b@, k as int, v, self.ctx@),
            decreases self.b@.len() - k,
        {
            let j = self.ws(k);
            if j < self.b.len() && (self.b[j] == '+' || self.b[j] == '-') {
                let (w, k2) = match self.term(j + 1) {
                    None => return None,
                    Some(p) => p,
                };
                let x = if self.b[j] == '+' {
                    v.checked_add(w)
                } else {
                    v.checked_sub(w)
                };
                match x {
                    None => return None,
                    Some(x) => {
                        v = x;
                        k = k2;
                    },
                }
            } else {
                return Some((v, j));
            }
        }
    }
}

/// Evaluate an interpolation expression. `Some` on success; `None` when a
/// variable is unknown or the expression is malformed.
pub fn eval_exec(expr: &[char], ctx: &Ctx) -> (r: Option<Vec<char>>)
    ensures
        match eval(expr@, ctx@) {
            None => r is None,
            Some(v) => r matches Some(x) && x@ == v,
        },
{
    let key = trimmed(expr);
    let number = vec!['n', 'u', 'm', 'b', 'e', 'r'];
    let total = vec!['t', 'o', 't', 'a', 'l'];
    assert(number@ =~= number_key());
    assert(total@ =~= total_key());
    if !eq_chars(key.as_slice(), number.as_slice()) && !eq_chars(key.as_slice(), total.as_slice()) {
        match lookup_exec(&ctx.vars, key.as_slice()) {
            Some(v) => return Some(v),
            None => {},
        }
    }
    let p = ExprParser { b: expr, ctx };
    match p.expr(0) {
        None => None,
        Some((v, k)) => {
            let j = p.ws(k);
            if j == expr.len() {
                Some(i64_to_chars(v))
            } else {
                None
            }
        },
    }
}

/// Resolve `{{ … }}` interpolations in `text`.
pub fn substitute_exec(text: &[char], ctx: &Ctx) -> (r: Vec<char>)
    ensures
        r@ == substitute(text@, ctx@),
{
    let open = vec!['{', '{'];
    let close = vec!['}', '}'];
    assert(open@ =~= open2());
    assert(close@ =~= close2());
    let mut out: Vec<char> = Vec::new();
    let mut rest = slice_range(text, 0, text.len());
    assert(rest@ =~= text@);
    loop
        invariant
            open@ == open2(),
            close@ == close2(),
            out@ + substitute(rest@, ctx@) == substitute(text@, ctx@),
        decreases rest@.len(),
    {
        let pos = match find(rest.as_slice(), 0, open.as_slice()) {
            None => {
                push_all(&mut out, rest.as_slice());
                return out;
            },
            Some(p) => p,
        };
        proof {
            lemma_find_from_bounds(rest@, 0, open2());
        }
        assert(occurs_at(rest@, pos as int, open2()));
        assert(pos + 2 <= rest.len());
        let ghost r0 = rest@;
        if pos > 0 && rest[pos - 1] == '\\' {
            let head = slice_range(rest.as_slice(), 0, pos - 1);
            push_all(&mut out, head.as_slice());
            push_all(&mut out, open.as_slice());
            rest = slice_range(rest.as_slice(), pos + 2, rest.len());
            assert(out@ + substitute(rest@, ctx@) =~= substitute(text@, ctx@));
        } else {
            let head = slice_range(rest.as_slice(), 0, pos);
            push_all(&mut out, head.as_slice());
            let after = slice_range(rest.as_slice(), pos + 2, rest.len());
            match find(after.as_slice(), 0, close.as_slice()) {
                Some(end) => {
                    proof {
                        lemma_find_from_bounds(after@, 0, close2());
                    }
                    assert(occurs_at(after@, end as int, close2()));
                    assert(end + 2 <= after.len());
                    let e = slice_range(after.as_slice(), 0, end);
                    match eval_exec(e.as_slice(), ctx) {
                        Some(v) => push_all(&mut out, v.as_slice()),
                        None => {
                            push_all(&mut out, open.as_slice());
                            push_all(&mut out, e.as_slice());
                            push_all(&mut out, close.as_slice());
                        },
                    }
                    rest = slice_range(after.as_slice(), end + 2, after.len());
                    assert(out@ + substitute(rest@, ctx@) =~= substitute(text@, ctx@));
                },
                None => {
                    push_all(&mut out, open.as_slice());
                    push_all(&mut out, after.as_slice());
                    assert(out@ =~= substitute(text@, ctx@));
                    return out;
                },
            }
        }
    }
}


/// Text without a `{{` passes through interpolation unchanged.
pub proof fn substitute_plain_text(text: Seq<char>, ctx: CtxModel)
    requires
        forall|i: int| 0 <= i ==> !occurs_at(text, i, open2()),
    ensures
        substitute(text, ctx) == text,
{
    lemma_find_from_bounds(text, 0, open2());
}

proof fn lemma_open_at_head(text: Seq<char>)
    requires
        text.len() >= 2,
        text[0] == '{',
        text[1] == '{',
    ensures
        find_from(text, 0, open2()) == Some(0int),
{
    assert(text.subrange(0, 2) =~= open2());
}

proof fn lemma_find_first(s: Seq<char>, from: int, p: int, pat: Seq<char>)
    requires
        0 <= from <= p,
        occurs_at(s, p, pat),
        forall|q: int| from <= q < p ==> !occurs_at(s, q, pat),
    ensures
        find_from(s, from, pat) == Some(p),
    decreases p - from,
{
    if from < p {
        lemma_find_first(s, from + 1, p, pat);
    }
}

proof fn lemma_no_close_at(expr: Seq<char>, rest: Seq<char>, q: int)
    requires
        forall|i: int| 0 <= i ==> !occurs_at(expr, i, close2()),
        !(expr.len() > 0 && expr.last() == '}'),
        0 <= q < expr.len(),
    ensures
        !occurs_at(expr + close2() + rest, q, close2()),
{
    let after = expr + close2() + rest;
    if occurs_at(after, q, close2()) {
        let w = after.subrange(q, q + 2);
        assert(w[0] == '}' && w[1] == '}');
        assert(after[q] == '}');
        assert(after[q + 1] == '}');
        if q + 2 <= expr.len() {
            assert(expr.subrange(q, q + 2) =~= close2());
            assert(occurs_at(expr, q, close2()));
        } else {
            assert(expr[q] == '}');
        }
    }
}

proof fn lemma_close_after(expr: Seq<char>, rest: Seq<char>)
    requires
        forall|i: int| 0 <= i ==> !occurs_at(expr, i, close2()),
        !(expr.len() > 0 && expr.last() == '}'),
    ensures
        find_from(expr + close2() + rest, 0, close2()) == Some(expr.len() as int),
{
    let after = expr + close2() + rest;
    assert(after.subrange(expr.len() as int, expr.len() + 2int) =~= close2());
    assert forall|q: int| 0 <= q < expr.len() implies !occurs_at(after, q, close2()) by {
        lemma_no_close_at(expr, rest, q);
    }
    lemma_find_first(after, 0, expr.len() as int, close2());
}

/// An expression that does not evaluate stays verbatim, braces included: a
/// `{{…}}` at the head of the text (its `}}` the first one after it) that
/// neither names a variable nor parses as arithmetic is kept as written, and
/// interpolation carries on after it.
pub proof fn substitute_keeps_unresolved(expr: Seq<char>, rest: Seq<char>, ctx: CtxModel)
    requires
        eval(expr, ctx) is None,
        forall|i: int| 0 <= i ==> !occurs_at(expr, i, close2()),
        !(expr.len() > 0 && expr.last() == '}'),
    ensures
        substitute(open2() + expr + close2() + rest, ctx) == open2() + expr + close2() + substitute(rest, ctx),
{
    let text = open2() + expr + close2() + rest;
    lemma_open_at_head(text);
    let after = text.subrange(2, text.len() as int);
    assert(after =~= expr + close2() + rest);
    lemma_close_after(expr, rest);
    assert(after.subrange(0, expr.len() as int) =~= expr);
    assert(after.subrange(expr.len() + 2int, after.len() as int) =~= rest);
    assert(text.subrange(0, 0) =~= Seq::<char>::empty());
    assert(substitute(text, ctx) =~= open2() + expr + close2() + substitute(rest, ctx));
}


/// Inner variables shadow outer ones: looking a key up in `outer + inner`
/// finds the inner value when there is one, else the outer.
pub proof fn lookup_inner_first(outer: Seq<(Seq<char>, Seq<char>)>, inner: Seq<(Seq<char>, Seq<char>)>, k: Seq<char>)
    ensures
        lookup(outer + inner, k) == match lookup(inner, k) {
            Some(v) => Some(v),
            None => lookup(outer, k),
        },
    decreases inner.len(),
{
    if inner.len() == 0 {
        assert(outer + inner =~= outer);
    } else {
        assert((outer + inner).drop_last() =~= outer + inner.drop_last());
        lookup_inner_first(outer, inner.drop_last(), k);
    }
}


proof fn lemma_builtin_evaluates(b: Seq<char>, ctx: CtxModel, v: i64)
    requires
        b == number_key() || b == total_key(),
        v == (if b == number_key() { ctx.number } else { ctx.total }),
    ensures
        eval(b, ctx) == Some(i64_str(v)),
{
    let n = b.len() as int;
    assert(crate::text::trim_start(b) == b);
    assert(crate::text::trim_end(b) == b);
    assert(trim(b) == b);
    assert(skip_ws(b, 0) == 0);
    assert(skip_ws(b, n) == n);
    assert(skip_ident(b, n) == n);
    assert(skip_ident(b, n - 1) == n);
    assert(skip_ident(b, n - 2) == n);
    assert(skip_ident(b, n - 3) == n);
    assert(skip_ident(b, n - 4) == n);
    if n == 6 {
        assert(skip_ident(b, n - 5) == n);
        assert(skip_ident(b, n - 6) == n);
    } else {
        assert(skip_ident(b, n - 5) == n);
    }
    assert(b.subrange(0, n) =~= b);
    assert(var_value(b, ctx) == Some(v));
    assert(p_factor(b, 0, ctx) == Some((v, n)));
    assert(p_term_rest(b, n, v, ctx) == Some((v, n)));
    assert(p_term(b, 0, ctx) == Some((v, n)));
    assert(p_expr_rest(b, n, v, ctx) == Some((v, n)));
    assert(p_expr(b, 0, ctx) == Some((v, n)));
}

/// Built-ins win: `{{number}}` and `{{total}}` evaluate to the sibling
/// position and count whatever metadata keys of those names are in scope.
pub proof fn builtins_win(ctx: CtxModel)
    ensures
        eval(number_key(), ctx) == Some(i64_str(ctx.number)),
        eval(total_key(), ctx) == Some(i64_str(ctx.total)),
{
    lemma_builtin_evaluates(number_key(), ctx, ctx.number);
    lemma_builtin_evaluates(total_key(), ctx, ctx.total);
}

} // verus!
