//! The buffer text is a `ropey::Rope`. This module names what a rope holds
//! and states what each rope method used by the editor does to it, over
//! ropey's documented line-break rules (default features: LF, CRLF, CR, VT,
//! FF, NEL, U+2028 and U+2029; a CRLF pair is one break).
use vstd::prelude::*;
use ropey::Rope;
use crate::text::utf8_prefix;

verus! {

#[verifier::external_type_specification]
#[verifier::external_body]
pub struct ExRope(ropey::Rope);

/// The characters a rope holds.
pub uninterp spec fn rope_text(r: Rope) -> Seq<char>;

/// A line-break character under ropey's default features.
pub open spec fn is_break(c: char) -> bool {
    c == '\n' || c == '\u{0B}' || c == '\u{0C}' || c == '\r' || c == '\u{85}' || c == '\u{2028}'
        || c == '\u{2029}'
}

/// Whether a line starts at char offset `p` (`0 < p <= s.len()`): the char
/// before it is a line break, and it is not the middle of a CRLF pair.
pub open spec fn starts_line(s: Seq<char>, p: int) -> bool {
    0 < p <= s.len() && is_break(s[p - 1]) && !(s[p - 1] == '\r' && p < s.len() && s[p] == '\n')
}

/// The number of line starts in `1..=hi`: the line of char offset `hi`.
pub open spec fn line_of(s: Seq<char>, hi: int) -> int
    decreases hi,
{
    if hi <= 0 {
        0
    } else {
        line_of(s, hi - 1) + if starts_line(s, hi) { 1int } else { 0int }
    }
}

/// The number of lines of `s` (one more than its line breaks).
pub open spec fn num_lines(s: Seq<char>) -> int {
    line_of(s, s.len() as int) + 1
}

/// Whether `p` is where line `i` of `s` starts.
pub open spec fn line_start(s: Seq<char>, i: int, p: int) -> bool {
    if i == 0 {
        p == 0
    } else {
        starts_line(s, p) && line_of(s, p) == i
    }
}

/// Where line `i` of `s` starts; the text length for one past the last.
pub open spec fn line_start_of(s: Seq<char>, i: int) -> int {
    if i == 0 {
        0
    } else if 0 < i < num_lines(s) {
        choose|p: int| line_start(s, i, p)
    } else {
        s.len() as int
    }
}

/// The text of line `i` of `s`, with its line break.
pub open spec fn line_text_of(s: Seq<char>, i: int) -> Seq<char> {
    s.subrange(line_start_of(s, i), line_start_of(s, i + 1))
}

pub proof fn lemma_line_of_mono(s: Seq<char>, j: int, k: int)
    requires
        j <= k,
    ensures
        line_of(s, j) <= line_of(s, k),
        0 <= line_of(s, k),
        line_of(s, k) <= if k > 0 { k } else { 0 },
    decreases k - j,
{
    if j < k {
        lemma_line_of_mono(s, j, k - 1);
    } else {
        lemma_line_of_nonneg(s, k);
    }
}

pub proof fn lemma_line_of_nonneg(s: Seq<char>, k: int)
    ensures
        0 <= line_of(s, k),
        line_of(s, k) <= if k > 0 { k } else { 0 },
    decreases k,
{
    if k > 0 {
        lemma_line_of_nonneg(s, k - 1);
    }
}

/// A later line start has a larger line number.
pub proof fn lemma_line_of_strict(s: Seq<char>, p: int, q: int)
    requires
        0 <= p < q,
        starts_line(s, q),
    ensures
        line_of(s, p) < line_of(s, q),
{
    lemma_line_of_mono(s, p, q - 1);
}

proof fn lemma_line_exists(s: Seq<char>, h: int, i: int)
    requires
        0 <= h <= s.len(),
        1 <= i <= line_of(s, h),
    ensures
        exists|p: int| 0 < p <= h && line_start(s, i, p),
    decreases h,
{
    if h > 0 {
        if i <= line_of(s, h - 1) {
            lemma_line_exists(s, h - 1, i);
            let p = choose|p: int| 0 < p <= h - 1 && line_start(s, i, p);
            assert(0 < p <= h && line_start(s, i, p));
        } else {
            assert(starts_line(s, h));
            assert(line_start(s, i, h));
        }
    }
}

/// Line `i` (of the existing lines) starts somewhere in the text, at a
/// line start numbered `i`, and lines start in increasing order.
pub proof fn lemma_line_start(s: Seq<char>, i: int)
    requires
        0 <= i < num_lines(s),
    ensures
        0 <= line_start_of(s, i) <= s.len(),
        line_of(s, line_start_of(s, i)) == i,
        i > 0 ==> starts_line(s, line_start_of(s, i)),
        line_start_of(s, i) < line_start_of(s, i + 1) || (i + 1 == num_lines(s) && line_start_of(s, i) <= line_start_of(s, i + 1)),
        line_start_of(s, i + 1) <= s.len(),
{
    lemma_line_of_nonneg(s, 0);
    if i > 0 {
        lemma_line_exists(s, s.len() as int, i);
    }
    if i + 1 < num_lines(s) {
        lemma_line_exists(s, s.len() as int, i + 1);
        let p = line_start_of(s, i);
        let q = line_start_of(s, i + 1);
        if q <= p {
            lemma_line_of_mono(s, q, p);
        }
    }
}

/// The offsets of line `i` hold line number `i`.
pub proof fn lemma_line_span(s: Seq<char>, i: int, c: int)
    requires
        0 <= i < num_lines(s),
        line_start_of(s, i) <= c,
        c < line_start_of(s, i + 1) || (i + 1 == num_lines(s) && c <= s.len()),
    ensures
        line_of(s, c) == i,
{
    lemma_line_start(s, i);
    lemma_line_of_mono(s, line_start_of(s, i), c);
    if i + 1 < num_lines(s) {
        lemma_line_start(s, i + 1);
        lemma_line_of_mono(s, c, line_start_of(s, i + 1) - 1);
    } else {
        lemma_line_of_mono(s, c, s.len() as int);
    }
}

/// `ropey::Rope::from_str`.
#[verifier::external_body]
pub(crate) fn rope_from_str(t: &str) -> (r: Rope)
    ensures
        rope_text(r) == t@,
{
    Rope::from_str(t)
}

/// `Rope::clone`: the copy holds the same text.
#[verifier::external_body]
pub(crate) fn rope_clone(r: &Rope) -> (c: Rope)
    ensures
        rope_text(c) == rope_text(*r),
{
    r.clone()
}

/// `Rope == Rope`: equal text.
#[verifier::external_body]
pub(crate) fn rope_eq(a: &Rope, b: &Rope) -> (r: bool)
    ensures
        r == (rope_text(*a) == rope_text(*b)),
{
    a == b
}

/// `Rope::len_chars`.
#[verifier::external_body]
pub(crate) fn rope_len_chars(r: &Rope) -> (n: usize)
    ensures
        n == rope_text(*r).len(),
{
    r.len_chars()
}

/// `Rope::char`.
#[verifier::external_body]
pub(crate) fn rope_char(r: &Rope, i: usize) -> (c: char)
    requires
        i < rope_text(*r).len(),
    ensures
        c == rope_text(*r)[i as int],
{
    r.char(i)
}

/// `Rope::len_lines`: one more than the number of line breaks.
#[verifier::external_body]
pub(crate) fn rope_len_lines(r: &Rope) -> (n: usize)
    ensures
        n == num_lines(rope_text(*r)),
{
    r.len_lines()
}

/// `Rope::line_to_char`: where line `i` starts (the text length for one past
/// the last line).
#[verifier::external_body]
pub(crate) fn rope_line_to_char(r: &Rope, i: usize) -> (c: usize)
    requires
        i <= num_lines(rope_text(*r)),
    ensures
        c == line_start_of(rope_text(*r), i as int),
{
    r.line_to_char(i)
}

/// `Rope::char_to_line`: the line holding char offset `c` (the last line
/// for one past the end).
#[verifier::external_body]
pub(crate) fn rope_char_to_line(r: &Rope, c: usize) -> (i: usize)
    requires
        c <= rope_text(*r).len(),
    ensures
        i == line_of(rope_text(*r), c as int),
{
    r.char_to_line(c)
}

/// `Rope::line(i).to_string()`: line `i` with its line break.
#[verifier::external_body]
pub(crate) fn rope_line(r: &Rope, i: usize) -> (t: String)
    requires
        i < num_lines(rope_text(*r)),
    ensures
        t@ == line_text_of(rope_text(*r), i as int),
{
    r.line(i).to_string()
}

/// `Rope::len_bytes`: the UTF-8 length of the text.
#[verifier::external_body]
pub(crate) fn rope_len_bytes(r: &Rope) -> (n: usize)
    ensures
        n == utf8_prefix(rope_text(*r), rope_text(*r).len() as int),
{
    r.len_bytes()
}

/// `Rope::char_to_byte`: the UTF-8 offset of char offset `c`.
#[verifier::external_body]
pub(crate) fn rope_char_to_byte(r: &Rope, c: usize) -> (b: usize)
    requires
        c <= rope_text(*r).len(),
    ensures
        b == utf8_prefix(rope_text(*r), c as int),
{
    r.char_to_byte(c)
}

/// `Rope::line_to_byte`: the UTF-8 offset where line `i` starts (the text
/// length for one past the last line).
#[verifier::external_body]
pub(crate) fn rope_line_to_byte(r: &Rope, i: usize) -> (b: usize)
    requires
        i <= num_lines(rope_text(*r)),
    ensures
        b == utf8_prefix(rope_text(*r), line_start_of(rope_text(*r), i as int)),
{
    r.line_to_byte(i)
}

/// `Rope::slice(start..end).to_string()`.
#[verifier::external_body]
pub(crate) fn rope_slice(r: &Rope, start: usize, end: usize) -> (t: String)
    requires
        start <= end <= rope_text(*r).len(),
    ensures
        t@ == rope_text(*r).subrange(start as int, end as int),
{
    r.slice(start..end).to_string()
}

/// `Rope::to_string`.
#[verifier::external_body]
pub(crate) fn rope_to_string(r: &Rope) -> (t: String)
    ensures
        t@ == rope_text(*r),
{
    r.to_string()
}

/// `Rope::insert`: `t` inserted at char offset `i`.
#[verifier::external_body]
pub(crate) fn rope_insert(r: &mut Rope, i: usize, t: &str)
    requires
        i <= rope_text(*old(r)).len(),
    ensures
        rope_text(*final(r)) == rope_text(*old(r)).subrange(0, i as int) + t@ + rope_text(
            *old(r),
        ).subrange(i as int, rope_text(*old(r)).len() as int),
{
    r.insert(i, t)
}

/// `Rope::insert_char`: `c` inserted at char offset `i`.
#[verifier::external_body]
pub(crate) fn rope_insert_char(r: &mut Rope, i: usize, c: char)
    requires
        i <= rope_text(*old(r)).len(),
    ensures
        rope_text(*final(r)) == rope_text(*old(r)).subrange(0, i as int) + seq![c] + rope_text(
            *old(r),
        ).subrange(i as int, rope_text(*old(r)).len() as int),
{
    r.insert_char(i, c)
}

/// `Rope::remove(start..end)`.
#[verifier::external_body]
pub(crate) fn rope_remove(r: &mut Rope, start: usize, end: usize)
    requires
        start <= end <= rope_text(*old(r)).len(),
    ensures
        rope_text(*final(r)) == rope_text(*old(r)).subrange(0, start as int) + rope_text(
            *old(r),
        ).subrange(end as int, rope_text(*old(r)).len() as int),
{
    r.remove(start..end)
}

} // verus!
