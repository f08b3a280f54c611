//! Cursor motions: by char (over grapheme clusters), line (over closed
//! folds), word, camelCase/snake_case subword, paragraph, and to a char on
//! the line, each repeated a count of times.
use vstd::prelude::*;
use crate::buffer::{Buffer, Fold, above_spec, below_spec, char_idx_spec, first_nonws, last_line, line_content};
use crate::grapheme::step_result;
use crate::rope::{line_of, line_start_of, lemma_line_of_nonneg, lemma_line_of_mono};
use crate::rope::{rope_char, rope_len_chars};
use crate::text::{alphanumeric, is_alphanumeric, is_digit, is_uppercase, is_whitespace, is_ws, uppercase};

verus! {

/// How an operator treats the text between the cursor and a motion's end.
#[derive(Debug, Clone, Copy, PartialEq, Eq, Structural)]
pub enum Span {
    Empty,
    Inclusive,
    Exclusive,
    Linewise,
}

/// A cursor motion.
#[derive(Debug, Clone, Copy)]
pub enum Motion {
    Left,
    Right,
    Up,
    Down,
    LineStart,
    FirstNonBlank,
    LineEnd,
    WordFwd(bool),
    WordEndFwd(bool),
    WordBack(bool),
    SubwordFwd,
    SubwordEndFwd,
    SubwordBack,
    FileStart,
    FileEnd,
    GotoLine(usize),
    FindChar { ch: char, before: bool, forward: bool },
    ParaFwd,
    ParaBack,
}

/// The class of a char for word motions.
#[derive(PartialEq, Eq, Clone, Copy, Debug, Structural)]
pub enum Class {
    Space,
    Word,
    Punct,
}

/// A char's word class: whitespace; a word char (alphanumeric or `_`, or
/// any non-space for a WORD motion); punctuation.
pub open spec fn class_spec(c: char, big: bool) -> Class {
    if c == '\n' || is_ws(c) {
        Class::Space
    } else if big || alphanumeric(c) || c == '_' {
        Class::Word
    } else {
        Class::Punct
    }
}

/// A char's word class.
pub fn class(c: char, big: bool) -> (r: Class)
    ensures
        r == class_spec(c, big),
{
    if c == '\n' || is_whitespace(c) {
        Class::Space
    } else if big || is_alphanumeric(c) || c == '_' {
        Class::Word
    } else {
        Class::Punct
    }
}

/// The first index in `i..hi` whose char is not of class `cl`, or `hi`.
pub open spec fn skip_class(s: Seq<char>, i: int, hi: int, big: bool, cl: Class) -> int
    decreases hi - i,
{
    if i >= hi || class_spec(s[i], big) != cl {
        i
    } else {
        skip_class(s, i + 1, hi, big, cl)
    }
}

/// Going back from `i`: the first index (or 0) whose char is not of class `cl`.
pub open spec fn back_class(s: Seq<char>, i: int, big: bool, cl: Class) -> int
    decreases i,
{
    if i <= 0 || class_spec(s[i], big) != cl {
        i
    } else {
        back_class(s, i - 1, big, cl)
    }
}

/// The start of the run of class `cl` that ends at `i`.
pub open spec fn run_begin(s: Seq<char>, i: int, big: bool, cl: Class) -> int
    decreases i,
{
    if i <= 0 || class_spec(s[i - 1], big) != cl {
        i
    } else {
        run_begin(s, i - 1, big, cl)
    }
}

/// `w`: past the rest of the current word (or punctuation run), then past
/// whitespace.
pub open spec fn fwd_word_spec(s: Seq<char>, idx: int, big: bool) -> int {
    if idx >= s.len() {
        idx
    } else {
        let c = class_spec(s[idx], big);
        let i = if c != Class::Space { skip_class(s, idx, s.len() as int, big, c) } else { idx };
        skip_class(s, i, s.len() as int, big, Class::Space)
    }
}

/// `e`: from the next char, past whitespace, to the last char of that run;
/// staying put when only whitespace follows.
pub open spec fn end_word_spec(s: Seq<char>, idx: int, big: bool) -> int {
    if s.len() == 0 {
        idx
    } else {
        let i0 = if idx + 1 < s.len() - 1 { idx + 1 } else { s.len() - 1 };
        let i1 = skip_class(s, i0, s.len() - 1, big, Class::Space);
        if class_spec(s[i1], big) == Class::Space {
            idx
        } else {
            skip_class(s, i1 + 1, s.len() as int, big, class_spec(s[i1], big)) - 1
        }
    }
}

/// `b`: back over whitespace, then to the start of the run before it.
pub open spec fn back_word_spec(s: Seq<char>, idx: int, big: bool) -> int {
    if idx <= 0 {
        0
    } else {
        let i = back_class(s, idx - 1, big, Class::Space);
        if class_spec(s[i], big) != Class::Space {
            run_begin(s, i, big, class_spec(s[i], big))
        } else {
            i
        }
    }
}

proof fn lemma_skip_class(s: Seq<char>, i: int, hi: int, big: bool, cl: Class)
    requires
        i <= hi,
    ensures
        i <= skip_class(s, i, hi, big, cl) <= hi,
    decreases hi - i,
{
    if i < hi && class_spec(s[i], big) == cl {
        lemma_skip_class(s, i + 1, hi, big, cl);
    }
}

proof fn lemma_back_class(s: Seq<char>, i: int, big: bool, cl: Class)
    requires
        0 <= i,
    ensures
        0 <= back_class(s, i, big, cl) <= i,
    decreases i,
{
    if i > 0 && class_spec(s[i], big) == cl {
        lemma_back_class(s, i - 1, big, cl);
    }
}

proof fn lemma_run_begin(s: Seq<char>, i: int, big: bool, cl: Class)
    requires
        0 <= i,
    ensures
        0 <= run_begin(s, i, big, cl) <= i,
    decreases i,
{
    if i > 0 && class_spec(s[i - 1], big) == cl {
        lemma_run_begin(s, i - 1, big, cl);
    }
}

fn fwd_word(buf: &Buffer, idx: usize, big: bool) -> (r: usize)
    requires
        idx <= buf.text().len(),
    ensures
        r == fwd_word_spec(buf.text(), idx as int, big),
        r <= buf.text().len(),
{
    let ghost s = buf.text();
    let len = rope_len_chars(&buf.rope);
    if idx >= len {
        return idx;
    }
    let mut i = idx;
    let start = class(rope_char(&buf.rope, i), big);
    if start != Class::Space {
        while i < len && class(rope_char(&buf.rope, i), big) == start
            invariant
                idx <= i <= len,
                len == s.len(),
                s == buf.text(),
                skip_class(s, i as int, len as int, big, start) == skip_class(s, idx as int, len as int, big, start),
            decreases len - i,
        {
            i += 1;
        }
    }
    let ghost mid = i;
    while i < len && class(rope_char(&buf.rope, i), big) == Class::Space
        invariant
            mid <= i <= len,
            len == s.len(),
            s == buf.text(),
            skip_class(s, i as int, len as int, big, Class::Space) == skip_class(s, mid as int, len as int, big, Class::Space),
        decreases len - i,
    {
        i += 1;
    }
    i
}

fn end_word(buf: &Buffer, idx: usize, big: bool) -> (r: usize)
    requires
        idx <= buf.text().len(),
        buf.text().len() < usize::MAX,
    ensures
        r == end_word_spec(buf.text(), idx as int, big),
        r <= buf.text().len(),
{
    let ghost s = buf.text();
    let len = rope_len_chars(&buf.rope);
    if len == 0 {
        return idx;
    }
    let mut i = if idx + 1 < len - 1 { idx + 1 } else { len - 1 };
    let ghost i0 = i;
    while i < len - 1 && class(rope_char(&buf.rope, i), big) == Class::Space
        invariant
            i0 <= i <= len - 1,
            len == s.len(),
            s == buf.text(),
            skip_class(s, i as int, len - 1, big, Class::Space) == skip_class(s, i0 as int, len - 1, big, Class::Space),
        decreases len - i,
    {
        i += 1;
    }
    let c = class(rope_char(&buf.rope, i), big);
    if c == Class::Space {
        return idx;
    }
    let ghost i1 = i;
    while i + 1 < len && class(rope_char(&buf.rope, i + 1), big) == c
        invariant
            i1 <= i < len,
            len == s.len(),
            s == buf.text(),
            skip_class(s, i + 1, len as int, big, c) == skip_class(s, i1 + 1, len as int, big, c),
        decreases len - i,
    {
        i += 1;
    }
    i
}

fn back_word(buf: &Buffer, idx: usize, big: bool) -> (r: usize)
    requires
        idx <= buf.text().len(),
    ensures
        r == back_word_spec(buf.text(), idx as int, big),
        r <= idx,
{
    let ghost s = buf.text();
    if idx == 0 {
        return 0;
    }
    let _len = rope_len_chars(&buf.rope);
    let mut i = idx - 1;
    while i > 0 && class(rope_char(&buf.rope, i), big) == Class::Space
        invariant
            i < idx <= s.len(),
            s == buf.text(),
            back_class(s, i as int, big, Class::Space) == back_class(s, idx - 1, big, Class::Space),
        decreases i,
    {
        i -= 1;
    }
    let c = class(rope_char(&buf.rope, i), big);
    if c != Class::Space {
        let ghost top = i;
        while i > 0 && class(rope_char(&buf.rope, i - 1), big) == c
            invariant
                i <= top < idx <= s.len(),
                s == buf.text(),
                run_begin(s, i as int, big, c) == run_begin(s, top as int, big, c),
            decreases i,
        {
            i -= 1;
        }
    }
    i
}

/// The class of a char for subword motions: `_`, `-` and whitespace are
/// gaps; digits, upper-case and other chars each form their own runs.
#[derive(PartialEq, Eq, Clone, Copy, Debug, Structural)]
pub enum SubClass {
    Gap,
    Upper,
    Digit,
    Lower,
}

/// A char's subword class.
pub open spec fn subclass_spec(c: char) -> SubClass {
    if c == '\n' || is_ws(c) || c == '_' || c == '-' {
        SubClass::Gap
    } else if is_digit(c) {
        SubClass::Digit
    } else if uppercase(c) {
        SubClass::Upper
    } else {
        SubClass::Lower
    }
}

/// A char's subword class.
pub fn subclass(c: char) -> (r: SubClass)
    ensures
        r == subclass_spec(c),
{
    if c == '\n' || is_whitespace(c) || c == '_' || c == '-' {
        SubClass::Gap
    } else if '0' <= c && c <= '9' {
        SubClass::Digit
    } else if is_uppercase(c) {
        SubClass::Upper
    } else {
        SubClass::Lower
    }
}

/// Whether a subword starts at char `i`: a non-gap after a gap or at the
/// start, a change of class other than an upper-case letter followed by
/// lower-case ones (`Var` is one subword), or the last capital of an
/// acronym before a lower-case letter (`XMLParser` is `XML` | `Parser`).
pub open spec fn starts_subword(s: Seq<char>, i: int) -> bool {
    if i < 0 || i >= s.len() {
        false
    } else {
        let cur = subclass_spec(s[i]);
        if cur == SubClass::Gap {
            false
        } else if i == 0 {
            true
        } else {
            let prev = subclass_spec(s[i - 1]);
            if prev == SubClass::Gap {
                true
            } else if prev == cur {
                cur == SubClass::Upper && i + 1 < s.len() && subclass_spec(s[i + 1]) == SubClass::Lower
            } else {
                !(prev == SubClass::Upper && cur == SubClass::Lower)
            }
        }
    }
}

fn subword_starts_at(buf: &Buffer, i: usize) -> (r: bool)
    ensures
        r == starts_subword(buf.text(), i as int),
{
    let len = rope_len_chars(&buf.rope);
    if i >= len {
        return false;
    }
    let cur = subclass(rope_char(&buf.rope, i));
    if cur == SubClass::Gap {
        return false;
    }
    if i == 0 {
        return true;
    }
    let prev = subclass(rope_char(&buf.rope, i - 1));
    if prev == SubClass::Gap {
        return true;
    }
    if prev == cur {
        return cur == SubClass::Upper && i + 1 < len && subclass(rope_char(&buf.rope, i + 1)) == SubClass::Lower;
    }
    !(prev == SubClass::Upper && cur == SubClass::Lower)
}

/// The first subword start at or after `i`, or the text length.
pub open spec fn next_start(s: Seq<char>, i: int) -> int
    decreases s.len() - i,
{
    if i >= s.len() || starts_subword(s, i) {
        i
    } else {
        next_start(s, i + 1)
    }
}

/// The last subword start at or before `i`, or 0.
pub open spec fn prev_start(s: Seq<char>, i: int) -> int
    decreases i,
{
    if i <= 0 || starts_subword(s, i) {
        i
    } else {
        prev_start(s, i - 1)
    }
}

/// The first index in `i..hi` whose char is not a gap, or `hi`.
pub open spec fn skip_gap(s: Seq<char>, i: int, hi: int) -> int
    decreases hi - i,
{
    if i >= hi || subclass_spec(s[i]) != SubClass::Gap {
        i
    } else {
        skip_gap(s, i + 1, hi)
    }
}

/// Forward to the next subword start.
pub open spec fn fwd_subword_spec(s: Seq<char>, idx: int) -> int {
    next_start(s, if idx + 1 < s.len() { idx + 1 } else { s.len() as int })
}

/// Back to the previous subword start.
pub open spec fn back_subword_spec(s: Seq<char>, idx: int) -> int {
    if idx <= 0 { 0 } else { prev_start(s, idx - 1) }
}

/// From the next char, past gaps, to the last char of that subword;
/// staying put when only gaps follow.
pub open spec fn end_subword_spec(s: Seq<char>, idx: int) -> int {
    if s.len() == 0 {
        idx
    } else {
        let i0 = if idx + 1 < s.len() - 1 { idx + 1 } else { s.len() - 1 };
        let i1 = skip_gap(s, i0, s.len() - 1);
        if subclass_spec(s[i1]) == SubClass::Gap {
            idx
        } else {
            next_start(s, i1 + 1) - 1
        }
    }
}

proof fn lemma_next_start(s: Seq<char>, i: int)
    requires
        i <= s.len(),
    ensures
        i <= next_start(s, i) <= s.len(),
    decreases s.len() - i,
{
    if i < s.len() && !starts_subword(s, i) {
        lemma_next_start(s, i + 1);
    }
}

proof fn lemma_prev_start(s: Seq<char>, i: int)
    requires
        0 <= i,
    ensures
        0 <= prev_start(s, i) <= i,
    decreases i,
{
    if i > 0 && !starts_subword(s, i) {
        lemma_prev_start(s, i - 1);
    }
}

proof fn lemma_skip_gap(s: Seq<char>, i: int, hi: int)
    requires
        i <= hi,
    ensures
        i <= skip_gap(s, i, hi) <= hi,
    decreases hi - i,
{
    if i < hi && subclass_spec(s[i]) == SubClass::Gap {
        lemma_skip_gap(s, i + 1, hi);
    }
}

fn fwd_subword(buf: &Buffer, idx: usize) -> (r: usize)
    requires
        idx <= buf.text().len(),
        buf.text().len() < usize::MAX,
    ensures
        r == fwd_subword_spec(buf.text(), idx as int),
        r <= buf.text().len(),
{
    let ghost s = buf.text();
    let len = rope_len_chars(&buf.rope);
    let mut i = if idx + 1 < len { idx + 1 } else { len };
    let ghost i0 = i;
    while i < len && !subword_starts_at(buf, i)
        invariant
            i0 <= i <= len,
            len == s.len(),
            s == buf.text(),
            next_start(s, i as int) == next_start(s, i0 as int),
        decreases len - i,
    {
        i += 1;
    }
    i
}

fn back_subword(buf: &Buffer, idx: usize) -> (r: usize)
    requires
        idx <= buf.text().len(),
    ensures
        r == back_subword_spec(buf.text(), idx as int),
        r <= idx,
{
    let ghost s = buf.text();
    if idx == 0 {
        return 0;
    }
    let mut i = idx - 1;
    while i > 0 && !subword_starts_at(buf, i)
        invariant
            i < idx,
            s == buf.text(),
            prev_start(s, i as int) == prev_start(s, idx - 1),
        decreases i,
    {
        i -= 1;
    }
    i
}

fn end_subword(buf: &Buffer, idx: usize) -> (r: usize)
    requires
        idx <= buf.text().len(),
        buf.text().len() < usize::MAX,
    ensures
        r == end_subword_spec(buf.text(), idx as int),
        r <= buf.text().len(),
{
    let ghost s = buf.text();
    let len = rope_len_chars(&buf.rope);
    if len == 0 {
        return idx;
    }
    let mut i = if idx + 1 < len - 1 { idx + 1 } else { len - 1 };
    let ghost i0 = i;
    while i < len - 1 && subclass(rope_char(&buf.rope, i)) == SubClass::Gap
        invariant
            i0 <= i <= len - 1,
            len == s.len(),
            s == buf.text(),
            skip_gap(s, i as int, len - 1) == skip_gap(s, i0 as int, len - 1),
        decreases len - i,
    {
        i += 1;
    }
    if subclass(rope_char(&buf.rope, i)) == SubClass::Gap {
        return idx;
    }
    let ghost i1 = i;
    while i + 1 < len && !subword_starts_at(buf, i + 1)
        invariant
            i1 <= i < len,
            len == s.len(),
            s == buf.text(),
            next_start(s, i + 1) == next_start(s, i1 + 1),
        decreases len - i,
    {
        i += 1;
    }
    i
}


// ---------------------------------------------------------------- resolve

/// One repetition of a word or subword motion.
pub enum WordStep {
    Fwd(bool),
    End(bool),
    Back(bool),
    SubFwd,
    SubEnd,
    SubBack,
}

/// Where one repetition of a word or subword motion from char `idx` lands.
pub open spec fn word_step(s: Seq<char>, idx: int, w: WordStep) -> int {
    match w {
        WordStep::Fwd(big) => fwd_word_spec(s, idx, big),
        WordStep::End(big) => end_word_spec(s, idx, big),
        WordStep::Back(big) => back_word_spec(s, idx, big),
        WordStep::SubFwd => fwd_subword_spec(s, idx),
        WordStep::SubEnd => end_subword_spec(s, idx),
        WordStep::SubBack => back_subword_spec(s, idx),
    }
}

/// `n` repetitions of a word or subword motion.
pub open spec fn word_steps(s: Seq<char>, idx: int, w: WordStep, n: nat) -> int
    decreases n,
{
    if n == 0 {
        idx
    } else {
        word_step(s, word_steps(s, idx, w, (n - 1) as nat), w)
    }
}

/// `n` steps of one visible line up.
pub open spec fn ups(fs: Seq<Fold>, line: int, last: int, n: nat) -> int
    decreases n,
{
    if n == 0 { line } else { above_spec(fs, ups(fs, line, last, (n - 1) as nat), last) }
}

/// `n` steps of one visible line down.
pub open spec fn downs(fs: Seq<Fold>, line: int, last: int, n: nat) -> int
    decreases n,
{
    if n == 0 { line } else { below_spec(fs, downs(fs, line, last, (n - 1) as nat), last) }
}

/// The next empty line after `l`, or `last`.
pub open spec fn next_blank(s: Seq<char>, l: int, last: int) -> int
    decreases last - l,
{
    if l >= last {
        last
    } else if line_content(s, l + 1).len() == 0 {
        l + 1
    } else {
        next_blank(s, l + 1, last)
    }
}

/// The previous empty line before `l`, or 0.
pub open spec fn prev_blank(s: Seq<char>, l: int) -> int
    decreases l,
{
    if l <= 0 {
        0
    } else if line_content(s, l - 1).len() == 0 {
        l - 1
    } else {
        prev_blank(s, l - 1)
    }
}

/// `n` paragraph steps forward.
pub open spec fn paras_fwd(s: Seq<char>, l: int, last: int, n: nat) -> int
    decreases n,
{
    if n == 0 { l } else { next_blank(s, paras_fwd(s, l, last, (n - 1) as nat), last) }
}

/// `n` paragraph steps back.
pub open spec fn paras_back(s: Seq<char>, l: int, n: nat) -> int
    decreases n,
{
    if n == 0 { l } else { prev_blank(s, paras_back(s, l, (n - 1) as nat)) }
}

/// The index of the `n`-th occurrence of `ch` in `t` at or after `from`.
pub open spec fn nth_fwd(t: Seq<char>, ch: char, from: int, n: int) -> Option<int>
    decreases t.len() - from,
{
    if from < 0 || from >= t.len() {
        None
    } else if t[from] == ch {
        if n <= 1 { Some(from) } else { nth_fwd(t, ch, from + 1, n - 1) }
    } else {
        nth_fwd(t, ch, from + 1, n)
    }
}

/// The index of the `n`-th occurrence of `ch` in `t` before `hi`, counting
/// backwards.
pub open spec fn nth_back(t: Seq<char>, ch: char, hi: int, n: int) -> Option<int>
    decreases hi,
{
    if hi <= 0 {
        None
    } else if t[hi - 1] == ch {
        if n <= 1 { Some(hi - 1) } else { nth_back(t, ch, hi - 1, n - 1) }
    } else {
        nth_back(t, ch, hi - 1, n)
    }
}

/// The `(line, col)` of char offset `i`.
pub open spec fn pos_of(s: Seq<char>, i: int) -> (int, int) {
    (line_of(s, i), i - line_start_of(s, line_of(s, i)))
}

/// A word or subword motion's result from `(line, col)`.
pub open spec fn word_result(s: Seq<char>, line: int, col: int, w: WordStep, n: int, span: Span) -> Option<(int, int, Span)> {
    let p = pos_of(s, word_steps(s, char_idx_spec(s, line, col), w, n as nat));
    Some((p.0, p.1, span))
}

/// Where a motion from `(line, col)` repeated `count` times (at least once)
/// lands in text `s` with folds `fs`, and how an operator treats the span;
/// `None` for a char search that finds too few matches.
pub open spec fn resolve_spec(s: Seq<char>, fs: Seq<Fold>, line: int, col: int, m: Motion, count: int) -> Option<(int, int, Span)> {
    let n = if count > 0 { count } else { 1 };
    let last = last_line(s);
    match m {
        Motion::Left => Some((line, step_result(line_content(s, line), col, n, false), Span::Exclusive)),
        Motion::Right => {
            let len = line_content(s, line).len() as int;
            let c = step_result(line_content(s, line), col, n, true);
            Some((line, if c < len { c } else { len }, Span::Exclusive))
        },
        Motion::Up => Some((ups(fs, line, last, n as nat), col, Span::Linewise)),
        Motion::Down => Some((downs(fs, line, last, n as nat), col, Span::Linewise)),
        Motion::LineStart => Some((line, 0, Span::Exclusive)),
        Motion::FirstNonBlank => Some((line, first_nonws(line_content(s, line), 0), Span::Exclusive)),
        Motion::LineEnd => {
            let nl = if line + n - 1 < last { line + n - 1 } else { last };
            let len = line_content(s, nl).len() as int;
            Some((nl, if len > 0 { len - 1 } else { 0 }, Span::Inclusive))
        },
        Motion::WordFwd(big) => word_result(s, line, col, WordStep::Fwd(big), n, Span::Exclusive),
        Motion::WordEndFwd(big) => word_result(s, line, col, WordStep::End(big), n, Span::Inclusive),
        Motion::WordBack(big) => word_result(s, line, col, WordStep::Back(big), n, Span::Exclusive),
        Motion::SubwordFwd => word_result(s, line, col, WordStep::SubFwd, n, Span::Exclusive),
        Motion::SubwordEndFwd => word_result(s, line, col, WordStep::SubEnd, n, Span::Inclusive),
        Motion::SubwordBack => word_result(s, line, col, WordStep::SubBack, n, Span::Exclusive),
        Motion::FileStart => Some((0, first_nonws(line_content(s, 0), 0), Span::Linewise)),
        Motion::FileEnd => Some((last, first_nonws(line_content(s, last), 0), Span::Linewise)),
        Motion::GotoLine(k) => {
            let l0 = if k > 0 { k - 1 } else { 0 };
            let l = if l0 < last { l0 } else { last };
            Some((l, first_nonws(line_content(s, l), 0), Span::Linewise))
        },
        Motion::FindChar { ch, before, forward } => {
            let t = line_content(s, line);
            if forward {
                match nth_fwd(t, ch, col + 1, n) {
                    Some(i) => Some((line, if before { if i - 1 > col { i - 1 } else { col } } else { i }, Span::Inclusive)),
                    None => None,
                }
            } else {
                match nth_back(t, ch, col, n) {
                    Some(i) => Some((line, if before { if i + 1 < col { i + 1 } else { col } } else { i }, Span::Exclusive)),
                    None => None,
                }
            }
        },
        Motion::ParaFwd => Some((paras_fwd(s, line, last, n as nat), 0, Span::Exclusive)),
        Motion::ParaBack => Some((paras_back(s, line, n as nat), 0, Span::Exclusive)),
    }
}

/// The inputs a motion can be resolved on without overflow or an
/// out-of-range column: a text shorter than the largest `usize`, a `Down`
/// from below the largest line number, a `LineEnd` whose last line number
/// fits, a forward char search from below the largest column and a
/// backward one from within the line.
pub open spec fn resolvable(s: Seq<char>, line: int, col: int, m: Motion, count: int) -> bool {
    let n = if count > 0 { count } else { 1 };
    &&& s.len() < usize::MAX
    &&& m is Down ==> line < usize::MAX
    &&& m is LineEnd ==> line + n - 1 <= usize::MAX
    &&& (m matches Motion::FindChar { forward, .. } && forward) ==> col < usize::MAX
    &&& (m matches Motion::FindChar { forward, .. } && !forward) ==> col <= line_content(s, line).len()
}

/// `n` repetitions of a word or subword motion from char `idx`.
fn repeat_word(buf: &Buffer, idx: usize, w: &WordStep, n: usize) -> (r: usize)
    requires
        idx <= buf.text().len(),
        buf.text().len() < usize::MAX,
    ensures
        r == word_steps(buf.text(), idx as int, *w, n as nat),
        r <= buf.text().len(),
{
    let mut i = idx;
    let mut k: usize = 0;
    while k < n
        invariant
            k <= n,
            i <= buf.text().len(),
            buf.text().len() < usize::MAX,
            i == word_steps(buf.text(), idx as int, *w, k as nat),
        decreases n - k,
    {
        i = match w {
            WordStep::Fwd(big) => fwd_word(buf, i, *big),
            WordStep::End(big) => end_word(buf, i, *big),
            WordStep::Back(big) => back_word(buf, i, *big),
            WordStep::SubFwd => fwd_subword(buf, i),
            WordStep::SubEnd => end_subword(buf, i),
            WordStep::SubBack => back_subword(buf, i),
        };
        k += 1;
    }
    i
}

/// A word or subword motion from `(line, col)`, as a `(line, col, span)`.
fn word_motion(buf: &Buffer, line: usize, col: usize, w: WordStep, n: usize, span: Span) -> (r: Option<(usize, usize, Span)>)
    requires
        buf.text().len() < usize::MAX,
    ensures
        opt_view(r) == word_result(buf.text(), line as int, col as int, w, n as int, span),
{
    let idx = buf.char_idx(line, col);
    let i = repeat_word(buf, idx, &w, n);
    let (l, c) = buf.pos_from_char_idx(i);
    Some((l, c, span))
}

/// A motion result with its numbers as integers.
pub open spec fn opt_view(r: Option<(usize, usize, Span)>) -> Option<(int, int, Span)> {
    match r {
        Some(x) => Some((x.0 as int, x.1 as int, x.2)),
        None => None,
    }
}

/// Resolves `motion` from `(line, col)` applied `count` times (at least
/// once): the destination `(line, col)` and how an operator should treat
/// the span; `None` when a char search finds too few matches.
pub fn resolve(buf: &Buffer, line: usize, col: usize, motion: Motion, count: usize) -> (r: Option<(usize, usize, Span)>)
    requires
        resolvable(buf.text(), line as int, col as int, motion, count as int),
    ensures
        opt_view(r) == resolve_spec(buf.text(), buf.folds@, line as int, col as int, motion, count as int),
{
    let ghost s = buf.text();
    let count = if count > 1 { count } else { 1 };
    match motion {
        Motion::Left => {
            let nc = crate::grapheme::step(buf.line_text(line).as_str(), col, count, false);
            Some((line, nc, Span::Exclusive))
        },
        Motion::Right => {
            let len = buf.line_len(line);
            let nc = crate::grapheme::step(buf.line_text(line).as_str(), col, count, true);
            Some((line, if nc < len { nc } else { len }, Span::Exclusive))
        },
        Motion::Up => {
            let mut nl = line;
            let mut k: usize = 0;
            while k < count
                invariant
                    k <= count,
                    nl == ups(buf.folds@, line as int, last_line(buf.text()), k as nat),
                decreases count - k,
            {
                nl = buf.visible_line_above(nl);
                k += 1;
            }
            Some((nl, col, Span::Linewise))
        },
        Motion::Down => {
            let last = buf.line_count() - 1;
            let _n = rope_len_chars(&buf.rope);
            proof {
                lemma_line_of_nonneg(s, s.len() as int);
            }
            let mut nl = line;
            let mut k: usize = 0;
            while k < count
                invariant
                    k <= count,
                    last == last_line(buf.text()),
                    last < usize::MAX,
                    nl < usize::MAX,
                    nl == downs(buf.folds@, line as int, last as int, k as nat),
                decreases count - k,
            {
                nl = buf.visible_line_below(nl);
                k += 1;
            }
            Some((nl, col, Span::Linewise))
        },
        Motion::LineStart => Some((line, 0, Span::Exclusive)),
        Motion::FirstNonBlank => Some((line, buf.first_non_blank(line), Span::Exclusive)),
        Motion::LineEnd => {
            let last = buf.line_count() - 1;
            let nl = if line + (count - 1) < last { line + (count - 1) } else { last };
            let len = buf.line_len(nl);
            Some((nl, if len > 0 { len - 1 } else { 0 }, Span::Inclusive))
        },
        Motion::WordFwd(big) => word_motion(buf, line, col, WordStep::Fwd(big), count, Span::Exclusive),
        Motion::WordEndFwd(big) => word_motion(buf, line, col, WordStep::End(big), count, Span::Inclusive),
        Motion::WordBack(big) => word_motion(buf, line, col, WordStep::Back(big), count, Span::Exclusive),
        Motion::SubwordFwd => word_motion(buf, line, col, WordStep::SubFwd, count, Span::Exclusive),
        Motion::SubwordEndFwd => word_motion(buf, line, col, WordStep::SubEnd, count, Span::Inclusive),
        Motion::SubwordBack => word_motion(buf, line, col, WordStep::SubBack, count, Span::Exclusive),
        Motion::FileStart => Some((0, buf.first_non_blank(0), Span::Linewise)),
        Motion::FileEnd => {
            let l = buf.line_count() - 1;
            Some((l, buf.first_non_blank(l), Span::Linewise))
        },
        Motion::GotoLine(k) => {
            let l0 = if k > 0 { k - 1 } else { 0 };
            let last = buf.line_count() - 1;
            let l = if l0 < last { l0 } else { last };
            Some((l, buf.first_non_blank(l), Span::Linewise))
        },
        Motion::FindChar { ch, before, forward } => {
            let text = crate::text::chars_of(buf.line_text(line).as_str());
            let ghost t = text@;
            if forward {
                let mut found: Option<usize> = None;
                let mut seen: usize = 0;
                let mut i: usize = col + 1;
                while i < text.len() && found.is_none()
                    invariant
                        t == text@,
                        col + 1 <= i,
                        seen <= count,
                        found is None ==> seen < count && nth_fwd(t, ch, col + 1, count as int) == nth_fwd(t, ch, i as int, count - seen),
                        found is Some ==> nth_fwd(t, ch, col + 1, count as int) == Some(found->0 as int),
                    decreases text@.len() - i,
                {
                    if text[i] == ch {
                        seen += 1;
                        if seen == count {
                            found = Some(i);
                        }
                    }
                    i += 1;
                }
                match found {
                    Some(i) => {
                        let target = if before {
                            let p = if i > 0 { i - 1 } else { 0 };
                            if p > col { p } else { col }
                        } else {
                            i
                        };
                        Some((line, target, Span::Inclusive))
                    },
                    None => None,
                }
            } else {
                let mut found: Option<usize> = None;
                let mut seen: usize = 0;
                let mut i: usize = col;
                while i > 0 && found.is_none()
                    invariant
                        t == text@,
                        i <= col <= t.len(),
                        seen <= count,
                        found is None ==> seen < count && nth_back(t, ch, col as int, count as int) == nth_back(t, ch, i as int, count - seen),
                        found is Some ==> nth_back(t, ch, col as int, count as int) == Some(found->0 as int) && found->0 < col,
                    decreases i,
                {
                    if text[i - 1] == ch {
                        seen += 1;
                        if seen == count {
                            found = Some(i - 1);
                        }
                    }
                    i -= 1;
                }
                match found {
                    Some(i) => {
                        let target = if before {
                            if i + 1 < col { i + 1 } else { col }
                        } else {
                            i
                        };
                        Some((line, target, Span::Exclusive))
                    },
                    None => None,
                }
            }
        },
        Motion::ParaFwd => {
            let last = buf.line_count() - 1;
            let mut l = line;
            let mut k: usize = 0;
            while k < count
                invariant
                    k <= count,
                    last == last_line(buf.text()),
                    l == paras_fwd(buf.text(), line as int, last as int, k as nat),
                decreases count - k,
            {
                let ghost l0 = l;
                loop
                    invariant_except_break
                        next_blank(buf.text(), l as int, last as int) == next_blank(buf.text(), l0 as int, last as int),
                    invariant
                        last == last_line(buf.text()),
                    ensures
                        l == next_blank(buf.text(), l0 as int, last as int),
                    decreases last - l,
                {
                    if l >= last {
                        l = last;
                        break;
                    }
                    l += 1;
                    if buf.line_len(l) == 0 {
                        break;
                    }
                }
                k += 1;
            }
            Some((l, 0, Span::Exclusive))
        },
        Motion::ParaBack => {
            let mut l = line;
            let mut k: usize = 0;
            while k < count
                invariant
                    k <= count,
                    l == paras_back(buf.text(), line as int, k as nat),
                decreases count - k,
            {
                let ghost l0 = l;
                loop
                    invariant_except_break
                        prev_blank(buf.text(), l as int) == prev_blank(buf.text(), l0 as int),
                    ensures
                        l == prev_blank(buf.text(), l0 as int),
                    decreases l,
                {
                    if l == 0 {
                        break;
                    }
                    l -= 1;
                    if buf.line_len(l) == 0 {
                        break;
                    }
                }
                k += 1;
            }
            Some((l, 0, Span::Exclusive))
        },
    }
}


/// Forward word and subword motions never move back and backward ones never
/// move forward; the ends of words and subwords are reached from before
/// them; every motion stays within the text.
pub proof fn law_word_motion_direction(s: Seq<char>, idx: int, big: bool)
    requires
        0 <= idx <= s.len(),
    ensures
        idx <= fwd_word_spec(s, idx, big) <= s.len(),
        0 <= back_word_spec(s, idx, big) <= idx,
        idx <= fwd_subword_spec(s, idx) <= s.len(),
        0 <= back_subword_spec(s, idx) <= idx,
        idx < s.len() ==> idx <= end_word_spec(s, idx, big) < s.len(),
        idx < s.len() ==> idx <= end_subword_spec(s, idx) < s.len(),
{
    if idx < s.len() {
        let c = class_spec(s[idx], big);
        lemma_skip_class(s, idx, s.len() as int, big, c);
        let i = if c != Class::Space { skip_class(s, idx, s.len() as int, big, c) } else { idx };
        lemma_skip_class(s, i, s.len() as int, big, Class::Space);
        let i0 = if idx + 1 < s.len() - 1 { idx + 1 } else { s.len() - 1 };
        lemma_skip_class(s, i0, s.len() - 1, big, Class::Space);
        let i1 = skip_class(s, i0, s.len() - 1, big, Class::Space);
        lemma_skip_class(s, i1 + 1, s.len() as int, big, class_spec(s[i1], big));
        lemma_skip_gap(s, i0, s.len() - 1);
        let g1 = skip_gap(s, i0, s.len() - 1);
        lemma_next_start(s, g1 + 1);
    }
    if idx > 0 {
        lemma_back_class(s, idx - 1, big, Class::Space);
        let i = back_class(s, idx - 1, big, Class::Space);
        lemma_run_begin(s, i, big, class_spec(s[i], big));
        lemma_prev_start(s, idx - 1);
    }
    lemma_next_start(s, if idx + 1 < s.len() { idx + 1 } else { s.len() as int });
}


// ---------------------------------------------------------------- laws

/// The word classes: white space and line breaks are blanks for every
/// motion; letters, digits and `_` are word chars for word and WORD motions
/// alike, so `w` goes over a whole identifier such as `foo_bar`; any other
/// char is punctuation for word motions and a word char for WORD motions.
pub proof fn law_word_classes(c: char)
    ensures
        (c == '\n' || is_ws(c)) ==> class_spec(c, false) == Class::Space && class_spec(c, true) == Class::Space,
        !(c == '\n' || is_ws(c)) && (alphanumeric(c) || c == '_') ==> class_spec(c, false) == Class::Word && class_spec(c, true) == Class::Word,
        !(c == '\n' || is_ws(c)) && !(alphanumeric(c) || c == '_') ==> class_spec(c, false) == Class::Punct && class_spec(c, true) == Class::Word,
        class_spec('_', false) == Class::Word,
{
    assert(!is_ws('_'));
}


proof fn lemma_skip_class_run(s: Seq<char>, i: int, hi: int, big: bool, cl: Class)
    requires
        0 <= i <= hi <= s.len(),
    ensures
        i <= skip_class(s, i, hi, big, cl) <= hi,
        forall|m: int| i <= m < skip_class(s, i, hi, big, cl) ==> class_spec(#[trigger] s[m], big) == cl,
        skip_class(s, i, hi, big, cl) < hi ==> class_spec(s[skip_class(s, i, hi, big, cl)], big) != cl,
    decreases hi - i,
{
    if i < hi && class_spec(s[i], big) == cl {
        lemma_skip_class_run(s, i + 1, hi, big, cl);
    }
}

/// `w` moves forward to the start of the next word: from any char before
/// the end it goes at least one char on; it goes over the whole run of
/// identifier chars (letters, digits, `_`) it starts in, and over the
/// blanks after it; it lands on the end of the text or on a non-blank
/// char that starts a new run (a blank or a char of another class before
/// it).
pub proof fn law_w_lands_on_next_word(s: Seq<char>, idx: int, big: bool, k: int)
    requires
        0 <= idx < s.len(),
    ensures
        idx < fwd_word_spec(s, idx, big) <= s.len(),
        fwd_word_spec(s, idx, big) < s.len() ==> class_spec(s[fwd_word_spec(s, idx, big)], big) != Class::Space,
        fwd_word_spec(s, idx, big) < s.len() ==> {
            let r = fwd_word_spec(s, idx, big);
            class_spec(s[r - 1], big) == Class::Space || class_spec(s[r - 1], big) != class_spec(s[r], big)
        },
        idx <= k <= s.len() && (forall|m: int| idx <= m < k ==> (alphanumeric(#[trigger] s[m]) || s[m] == '_') && !is_ws(s[m]) && s[m] != '\n')
            ==> fwd_word_spec(s, idx, big) >= k,
{
    let n = s.len() as int;
    let c = class_spec(s[idx], big);
    let i = if c != Class::Space { skip_class(s, idx, n, big, c) } else { idx };
    if c != Class::Space {
        lemma_skip_class_run(s, idx, n, big, c);
        assert(class_spec(s[idx], big) == c);
    }
    lemma_skip_class_run(s, i, n, big, Class::Space);
    let r = skip_class(s, i, n, big, Class::Space);
    assert(r == fwd_word_spec(s, idx, big));
    if c == Class::Space {
        assert(class_spec(s[idx], big) == Class::Space);
    }
    if r < n {
        if r - 1 >= i {
            assert(class_spec(s[r - 1], big) == Class::Space);
        } else {
            assert(r == i);
            assert(c != Class::Space);
            assert(class_spec(s[r - 1], big) == c);
        }
    }
    if idx <= k <= n && (forall|m: int| idx <= m < k ==> (alphanumeric(#[trigger] s[m]) || s[m] == '_') && !is_ws(s[m]) && s[m] != '\n') && k > idx {
        assert(class_spec(s[idx], big) == Class::Word);
        if i < k {
            assert(class_spec(s[i], big) == Class::Word);
        }
    }
}

} // verus!
