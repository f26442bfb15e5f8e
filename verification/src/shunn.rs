//! Shunn Proper Manuscript Format: the manuscript model (title-page fields and
//! a stream of blocks) and its title-page helpers.

use vstd::prelude::*;
use crate::text::{chars_to_string, is_whitespace, is_ws, slice_range, spec_to_uppercase, str_chars, uppercase};

verus! {

/// One block of a Shunn manuscript, in reading order.
#[derive(Debug, Clone, PartialEq)]
pub enum ShunnBlock {
    /// A chapter start: a new page with the (centered) title.
    Chapter(String),
    /// A visible heading below chapter level: a centered subhead.
    Subhead(String),
    /// A scene break within a chapter: a centered `#`.
    SceneBreak,
    /// A body paragraph (prose, already resolved).
    Para(String),
}

/// The title-page fields + block stream for a Shunn manuscript.
#[derive(Debug, Clone, PartialEq)]
pub struct ShunnManuscript {
    pub title: String,
    /// Contact block, top-left on the first page.
    pub contact: Vec<String>,
    /// Publish-under name, centered under the title.
    pub byline: String,
    /// Running-header surname (last word of the author's name).
    pub surname: String,
    /// Running-header keyword (a short form of the title).
    pub keyword: String,
    /// Whole-manuscript word count, already rounded per Shunn.
    pub words: usize,
    pub blocks: Vec<ShunnBlock>,
}

/// The rounding step: 100 below 10 000 words, 1 000 at or above.
pub open spec fn wordcount_step(n: int) -> int {
    if n < 10_000 {
        100
    } else {
        1_000
    }
}

/// Round a word count the Shunn way: to the nearest 100 below 10 000, and to
/// the nearest 1 000 at or above it (a half rounds up). 0 stays 0.
pub fn round_wordcount(n: usize) -> (r: usize)
    requires
        n + wordcount_step(n as int) / 2 <= usize::MAX,
    ensures
        r == ((n + wordcount_step(n as int) / 2) / wordcount_step(n as int)) * wordcount_step(
            n as int,
        ),
        r % (wordcount_step(n as int) as usize) == 0,
        n - wordcount_step(n as int) / 2 <= r <= n + wordcount_step(n as int) / 2,
{
    let step: usize = if n < 10_000 {
        100
    } else {
        1_000
    };
    let q = (n + step / 2) / step;
    proof {
        let ni = n as int;
        let si = step as int;
        let qi = q as int;
        assert(qi == (ni + si / 2) / si);
        assert(qi * si <= ni + si / 2 && ni + si / 2 < qi * si + si) by (nonlinear_arith)
            requires
                qi == (ni + si / 2) / si,
                si > 0,
                ni >= 0,
        ;
        assert((qi * si) % si == 0) by (nonlinear_arith)
            requires
                si > 0,
        ;
    }
    let r = q * step;
    r
}

/// The whitespace-separated words of `s`, from index `i` (`split_whitespace`).
pub open spec fn words_from(s: Seq<char>, i: int) -> Seq<Seq<char>>
    decreases s.len() - i, 1nat,
{
    if i < 0 || i >= s.len() {
        seq![]
    } else if is_ws(s[i]) {
        words_from(s, i + 1)
    } else {
        let e = word_end(s, i);
        if i < e <= s.len() {
            seq![s.subrange(i, e)] + words_from(s, e)
        } else {
            seq![]
        }
    }
}

/// The end of the run of non-whitespace chars that starts at `i`.
pub open spec fn word_end(s: Seq<char>, i: int) -> int
    decreases s.len() - i, 0nat,
{
    if 0 <= i < s.len() && !is_ws(s[i]) {
        word_end(s, i + 1)
    } else {
        i
    }
}

pub open spec fn words_of(s: Seq<char>) -> Seq<Seq<char>> {
    words_from(s, 0)
}

proof fn lemma_word_end(s: Seq<char>, i: int)
    requires
        0 <= i <= s.len(),
    ensures
        i <= word_end(s, i) <= s.len(),
    decreases s.len() - i,
{
    if i < s.len() && !is_ws(s[i]) {
        lemma_word_end(s, i + 1);
    }
}

/// `split_whitespace`, collected.
pub fn split_words(s: &[char]) -> (r: Vec<Vec<char>>)
    ensures
        r@.map_values(|w: Vec<char>| w@) == words_of(s@),
{
    let mut out: Vec<Vec<char>> = Vec::new();
    let mut i: usize = 0;
    assert(out@.map_values(|w: Vec<char>| w@) =~= seq![]);
    while i < s.len()
        invariant
            i <= s@.len(),
            out@.map_values(|w: Vec<char>| w@) + words_from(s@, i as int) == words_of(s@),
        decreases s@.len() - i,
    {
        if is_whitespace(s[i]) {
            i += 1;
        } else {
            let mut e = i;
            proof {
                lemma_word_end(s@, i as int);
            }
            while e < s.len() && !is_whitespace(s[e])
                invariant
                    i <= e <= s@.len(),
                    word_end(s@, i as int) == word_end(s@, e as int),
                decreases s@.len() - e,
            {
                e += 1;
            }
            let w = slice_range(s, i, e);
            let ghost o0 = out@;
            out.push(w);
            assert(out@.map_values(|w: Vec<char>| w@) =~= o0.map_values(|w: Vec<char>| w@).push(w@));
            assert(out@.map_values(|w: Vec<char>| w@) + words_from(s@, e as int) =~= words_of(s@));
            i = e;
        }
    }
    assert(out@.map_values(|w: Vec<char>| w@) =~= words_of(s@));
    out
}

/// The running-header surname: the last whitespace-separated word of the
/// author's name, or empty if there is none.
pub open spec fn surname_model(author: Seq<char>) -> Seq<char> {
    let ws = words_of(author);
    if ws.len() == 0 {
        seq![]
    } else {
        ws.last()
    }
}

pub fn surname(author: &str) -> (r: String)
    ensures
        r@ == surname_model(author@),
{
    let a = str_chars(author);
    let ws = split_words(a.as_slice());
    if ws.len() == 0 {
        String::new()
    } else {
        chars_to_string(ws[ws.len() - 1].as_slice())
    }
}

/// `char::to_ascii_lowercase`.
pub open spec fn ascii_lower(c: char) -> char {
    if 'A' <= c && c <= 'Z' {
        ((c as u32) + 32) as char
    } else {
        c
    }
}

pub open spec fn ascii_lower_seq(s: Seq<char>) -> Seq<char> {
    s.map_values(|c: char| ascii_lower(c))
}

fn ascii_lowercase(s: &[char]) -> (r: Vec<char>)
    ensures
        r@ == ascii_lower_seq(s@),
{
    let mut r: Vec<char> = Vec::new();
    let mut i: usize = 0;
    while i < s.len()
        invariant
            i <= s@.len(),
            r@ == ascii_lower_seq(s@.take(i as int)),
        decreases s@.len() - i,
    {
        let c = s[i];
        let d = if 'A' <= c && c <= 'Z' {
            ((c as u32) + 32) as u8 as char
        } else {
            c
        };
        assert(d == ascii_lower(c)) by {
            if 'A' <= c && c <= 'Z' {
                assert((((c as u32) + 32) as u8) as char == ((c as u32) + 32) as char);
            }
        }
        r.push(d);
        assert(r@ =~= ascii_lower_seq(s@.take(i + 1)));
        i += 1;
    }
    assert(s@.take(s@.len() as int) =~= s@);
    r
}

pub open spec fn is_article(w: Seq<char>) -> bool {
    let l = ascii_lower_seq(w);
    l == seq!['t', 'h', 'e'] || l == seq!['a'] || l == seq!['a', 'n']
}

/// The running-header keyword: the title's first *distinctive* word,
/// uppercased. A leading article (`the`/`a`/`an`, any case) is skipped unless
/// the title is only that article. An empty title yields an empty keyword.
pub open spec fn header_keyword_model(title: Seq<char>) -> Seq<char> {
    let ws = words_of(title);
    let first = if ws.len() > 0 {
        ws[0]
    } else {
        seq![]
    };
    let word = if is_article(first) && ws.len() > 1 {
        ws[1]
    } else {
        first
    };
    if ws.len() == 0 {
        seq![]
    } else {
        spec_to_uppercase(word)
    }
}

pub fn header_keyword(title: &str) -> (r: String)
    ensures
        r@ == header_keyword_model(title@),
        words_of(title@).len() == 0 ==> r@.len() == 0,
{
    let t = str_chars(title);
    let ws = split_words(t.as_slice());
    let ghost wm = ws@.map_values(|w: Vec<char>| w@);
    let empty: Vec<char> = Vec::new();
    let first: &Vec<char> = if ws.len() > 0 {
        &ws[0]
    } else {
        &empty
    };
    let low = ascii_lowercase(first.as_slice());
    let the = vec!['t', 'h', 'e'];
    let a = vec!['a'];
    let an = vec!['a', 'n'];
    assert(the@ =~= seq!['t', 'h', 'e']);
    assert(a@ =~= seq!['a']);
    assert(an@ =~= seq!['a', 'n']);
    let article = crate::interp::eq_chars(low.as_slice(), the.as_slice())
        || crate::interp::eq_chars(low.as_slice(), a.as_slice())
        || crate::interp::eq_chars(low.as_slice(), an.as_slice());
    let word: &Vec<char> = if article && ws.len() > 1 {
        &ws[1]
    } else {
        first
    };
    if ws.len() == 0 {
        return String::new();
    }
    let up = uppercase(word.as_slice());
    chars_to_string(up.as_slice())
}


// ---- page layout ---------------------------------------------------------------------------

/// One element of a Shunn manuscript page flow, in the order a PDF engine
/// lays them out.
#[derive(Debug, Clone, PartialEq)]
pub enum PdfItem {
    /// A left-aligned paragraph.
    Line(String),
    /// A right-aligned paragraph.
    Right(String),
    /// A centered paragraph.
    Centered(String),
    /// Vertical space, in lines.
    Space(u8),
    /// A new page.
    PageBreak,
}

/// The model of a [`PdfItem`].
pub enum PdfItemModel {
    Line(Seq<char>),
    Right(Seq<char>),
    Centered(Seq<char>),
    Space(u8),
    PageBreak,
}

impl PdfItem {
    pub open spec fn view(&self) -> PdfItemModel {
        match self {
            PdfItem::Line(s) => PdfItemModel::Line(s@),
            PdfItem::Right(s) => PdfItemModel::Right(s@),
            PdfItem::Centered(s) => PdfItemModel::Centered(s@),
            PdfItem::Space(n) => PdfItemModel::Space(*n),
            PdfItem::PageBreak => PdfItemModel::PageBreak,
        }
    }
}

pub open spec fn items_model(v: Seq<PdfItem>) -> Seq<PdfItemModel> {
    v.map_values(|x: PdfItem| x@)
}

/// Courier sets 10 chars per inch at 12pt, so a half-inch first-line indent
/// is five spaces.
pub open spec fn para_indent() -> Seq<char> {
    seq![' ', ' ', ' ', ' ', ' ']
}

/// The page flow of one block: a chapter opens a new page partway down with
/// its centered title; a subhead and a scene break (`#`) are centered with a
/// line of space around them; prose is indented.
pub open spec fn block_items(b: ShunnBlock) -> Seq<PdfItemModel> {
    match b {
        ShunnBlock::Chapter(t) => seq![
            PdfItemModel::PageBreak,
            PdfItemModel::Space(6),
            PdfItemModel::Centered(t@),
            PdfItemModel::Space(2),
        ],
        ShunnBlock::Subhead(t) => seq![
            PdfItemModel::Space(1),
            PdfItemModel::Centered(t@),
            PdfItemModel::Space(1),
        ],
        ShunnBlock::SceneBreak => seq![
            PdfItemModel::Space(1),
            PdfItemModel::Centered(seq!['#']),
            PdfItemModel::Space(1),
        ],
        ShunnBlock::Para(t) => seq![PdfItemModel::Line(para_indent() + t@)],
    }
}

pub open spec fn blocks_items(bs: Seq<ShunnBlock>) -> Seq<PdfItemModel>
    decreases bs.len(),
{
    if bs.len() == 0 {
        seq![]
    } else {
        blocks_items(bs.drop_last()) + block_items(bs.last())
    }
}

/// The first page: the contact block top-left, the rounded word count on the
/// right (when there is one), space, then the uppercased title and the byline
/// centered (each when present).
pub open spec fn title_page_items(m: ShunnManuscript) -> Seq<PdfItemModel> {
    m.contact@.map_values(|l: String| PdfItemModel::Line(l@)) + (if m.words > 0 {
        seq![PdfItemModel::Right("about "@ + crate::interp::nat_str(m.words as nat) + " words"@)]
    } else {
        seq![]
    }) + seq![PdfItemModel::Space(8)] + (if m.title@.len() > 0 {
        seq![PdfItemModel::Centered(spec_to_uppercase(m.title@))]
    } else {
        seq![]
    }) + (if m.byline@.len() > 0 {
        seq![PdfItemModel::Centered("by "@ + m.byline@)]
    } else {
        seq![]
    })
}

/// The whole page flow: title page, the blocks, then a centered `THE END`.
pub open spec fn layout_model(m: ShunnManuscript) -> Seq<PdfItemModel> {
    title_page_items(m) + blocks_items(m.blocks@) + seq![
        PdfItemModel::Space(1),
        PdfItemModel::Centered("THE END"@),
    ]
}

fn lit_string(s: &str) -> (r: String)
    ensures
        r@ == s@,
{
    s.to_owned()
}

fn block_items_exec(b: &ShunnBlock, out: &mut Vec<PdfItem>)
    ensures
        items_model(final(out)@) == items_model(old(out)@) + block_items(*b),
{
    let ghost o0 = out@;
    match b {
        ShunnBlock::Chapter(t) => {
            out.push(PdfItem::PageBreak);
            out.push(PdfItem::Space(6));
            out.push(PdfItem::Centered(t.clone()));
            out.push(PdfItem::Space(2));
        },
        ShunnBlock::Subhead(t) => {
            out.push(PdfItem::Space(1));
            out.push(PdfItem::Centered(t.clone()));
            out.push(PdfItem::Space(1));
        },
        ShunnBlock::SceneBreak => {
            out.push(PdfItem::Space(1));
            let h = lit_string("#");
            proof {
                reveal_strlit("#");
            }
            assert(h@ =~= seq!['#']);
            out.push(PdfItem::Centered(h));
            out.push(PdfItem::Space(1));
        },
        ShunnBlock::Para(t) => {
            let mut line: Vec<char> = vec![' ', ' ', ' ', ' ', ' '];
            assert(line@ =~= para_indent());
            crate::text::push_str(&mut line, t.as_str());
            out.push(PdfItem::Line(chars_to_string(line.as_slice())));
        },
    }
    assert(items_model(out@) =~= items_model(o0) + block_items(*b));
}

/// The page flow of a Shunn manuscript, for a PDF engine to lay out in order.
pub fn shunn_layout(m: &ShunnManuscript) -> (r: Vec<PdfItem>)
    ensures
        items_model(r@) == layout_model(*m),
{
    let mut out: Vec<PdfItem> = Vec::new();
    let mut i: usize = 0;
    while i < m.contact.len()
        invariant
            i <= m.contact@.len(),
            items_model(out@) == m.contact@.take(i as int).map_values(|l: String| PdfItemModel::Line(l@)),
        decreases m.contact@.len() - i,
    {
        let ghost o0 = out@;
        let c = m.contact[i].clone();
        assert(c@ == m.contact@[i as int]@);
        out.push(PdfItem::Line(c));
        assert(items_model(out@) =~= items_model(o0).push(PdfItemModel::Line(m.contact@[i as int]@)));
        assert(m.contact@.take(i + 1).map_values(|l: String| PdfItemModel::Line(l@)) =~= m.contact@.take(
            i as int,
        ).map_values(|l: String| PdfItemModel::Line(l@)).push(PdfItemModel::Line(m.contact@[i as int]@)));
        i += 1;
    }
    assert(m.contact@.take(m.contact@.len() as int) =~= m.contact@);
    if m.words > 0 {
        let mut wc: Vec<char> = Vec::new();
        crate::text::push_str(&mut wc, "about ");
        let d = crate::interp::nat_digits(m.words as u64);
        crate::text::push_all(&mut wc, d.as_slice());
        crate::text::push_str(&mut wc, " words");
        out.push(PdfItem::Right(chars_to_string(wc.as_slice())));
    }
    out.push(PdfItem::Space(8));
    let t = str_chars(m.title.as_str());
    if t.len() > 0 {
        let up = uppercase(t.as_slice());
        out.push(PdfItem::Centered(chars_to_string(up.as_slice())));
    }
    let b = str_chars(m.byline.as_str());
    if b.len() > 0 {
        let mut by: Vec<char> = Vec::new();
        crate::text::push_str(&mut by, "by ");
        crate::text::push_str(&mut by, m.byline.as_str());
        out.push(PdfItem::Centered(chars_to_string(by.as_slice())));
    }
    assert(items_model(out@) =~= title_page_items(*m));
    let ghost o1 = out@;
    let mut j: usize = 0;
    while j < m.blocks.len()
        invariant
            j <= m.blocks@.len(),
            items_model(out@) == items_model(o1) + blocks_items(m.blocks@.take(j as int)),
        decreases m.blocks@.len() - j,
    {
        block_items_exec(&m.blocks[j], &mut out);
        assert(m.blocks@.take(j + 1).drop_last() =~= m.blocks@.take(j as int));
        assert(items_model(out@) =~= items_model(o1) + blocks_items(m.blocks@.take(j + 1)));
        j += 1;
    }
    assert(m.blocks@.take(m.blocks@.len() as int) =~= m.blocks@);
    out.push(PdfItem::Space(1));
    out.push(PdfItem::Centered(lit_string("THE END")));
    assert(items_model(out@) =~= layout_model(*m));
    out
}

/// The running header from page 2 on: `Surname / KEYWORD / page`; the first
/// (title) page carries none.
pub fn running_header(surname: &str, keyword: &str, page: usize) -> (r: Option<String>)
    ensures
        page > 1 ==> (r matches Some(h) && h@ == surname@ + " / "@ + keyword@ + " / "@
            + crate::interp::nat_str(page as nat)),
        page <= 1 ==> r is None,
{
    if page <= 1 {
        return None;
    }
    let mut h: Vec<char> = Vec::new();
    crate::text::push_str(&mut h, surname);
    crate::text::push_str(&mut h, " / ");
    crate::text::push_str(&mut h, keyword);
    crate::text::push_str(&mut h, " / ");
    let d = crate::interp::nat_digits(page as u64);
    crate::text::push_all(&mut h, d.as_slice());
    Some(chars_to_string(h.as_slice()))
}

/// The document title a PDF carries: the manuscript's title, when it has one.
pub fn pdf_title(m: &ShunnManuscript) -> (r: Option<String>)
    ensures
        r matches Some(t) ==> t@ == m.title@ && m.title@.len() > 0,
        r is None ==> m.title@.len() == 0,
{
    let t = str_chars(m.title.as_str());
    if t.len() > 0 {
        Some(m.title.clone())
    } else {
        None
    }
}

} // verus!
