//! Autopairs: typing an opening bracket or quote inserts its close too,
//! typing a close that is already under the cursor steps over it,
//! Backspace in an empty pair deletes both, and Enter inside a bracket pair
//! opens an indented blank line between them. Each handler returns the
//! cursor to set (in Insert mode) when it handled the key, `None` when the
//! key should be inserted normally.
use vstd::prelude::*;
use crate::buffer::{Buffer, char_idx_spec, edit_model, has_crlf, line_content, small, splice};
use crate::text::{alphanumeric, chars_of, is_alphanumeric, string_from};

verus! {

/// An opening char and its closing partner.
#[derive(Debug, Clone, Copy, PartialEq, Eq, Structural)]
pub struct Pair {
    pub open: char,
    pub close: char,
}

/// The pair a char opens: brackets and quotes.
pub open spec fn pair_spec(c: char) -> Option<Pair> {
    if c == '(' {
        Some(Pair { open: '(', close: ')' })
    } else if c == '[' {
        Some(Pair { open: '[', close: ']' })
    } else if c == '{' {
        Some(Pair { open: '{', close: '}' })
    } else if c == '"' {
        Some(Pair { open: '"', close: '"' })
    } else if c == '\'' {
        Some(Pair { open: '\'', close: '\'' })
    } else if c == '`' {
        Some(Pair { open: '`', close: '`' })
    } else {
        None
    }
}

/// Whether a char closes a pair.
pub open spec fn is_close_spec(c: char) -> bool {
    c == ')' || c == ']' || c == '}' || c == '"' || c == '\'' || c == '`'
}

/// Whether `(open, close)` is one of the pairs.
pub open spec fn is_pair(open: char, close: char) -> bool {
    match pair_spec(open) {
        Some(p) => p.close == close,
        None => false,
    }
}

/// The pair a char opens.
pub fn pair_for_open(c: char) -> (r: Option<Pair>)
    ensures
        r == pair_spec(c),
{
    match c {
        '(' => Some(Pair { open: '(', close: ')' }),
        '[' => Some(Pair { open: '[', close: ']' }),
        '{' => Some(Pair { open: '{', close: '}' }),
        '"' => Some(Pair { open: '"', close: '"' }),
        '\'' => Some(Pair { open: '\'', close: '\'' }),
        '`' => Some(Pair { open: '`', close: '`' }),
        _ => None,
    }
}

/// Whether a char closes a pair.
pub fn is_close_char(c: char) -> (r: bool)
    ensures
        r == is_close_spec(c),
{
    c == ')' || c == ']' || c == '}' || c == '"' || c == '\'' || c == '`'
}

/// The char at column `col` of line `line`.
pub open spec fn char_at_spec(s: Seq<char>, line: int, col: int) -> Option<char> {
    let t = line_content(s, line);
    if 0 <= col < t.len() { Some(t[col]) } else { None }
}

/// The char at column `col` of line `line`.
pub fn char_at(buf: &Buffer, line: usize, col: usize) -> (r: Option<char>)
    ensures
        r == char_at_spec(buf.text(), line as int, col as int),
{
    let t = chars_of(buf.line_text(line).as_str());
    if col < t.len() { Some(t[col]) } else { None }
}

/// Whether a char is part of a word for quote pairing.
pub open spec fn wordish(c: Option<char>) -> bool {
    match c {
        Some(b) => alphanumeric(b) || b == '_',
        None => false,
    }
}

/// What typing `c` at `(line, col)` does when autopairs is on: steps over
/// a close char already under the cursor; inserts the pair of an opening
/// char, except a quote right after or before a word char, after a `\`, or
/// a `'` after `&` (a Rust lifetime); otherwise nothing.
pub enum CharAction {
    StepOver,
    InsertPair(char),
    Nothing,
}

pub open spec fn char_action(s: Seq<char>, line: int, col: int, c: char) -> CharAction {
    let before = if col >= 1 { char_at_spec(s, line, col - 1) } else { None };
    let after = char_at_spec(s, line, col);
    if is_close_spec(c) && after == Some(c) {
        CharAction::StepOver
    } else {
        match pair_spec(c) {
            Some(p) => if p.open == p.close && (wordish(before) || wordish(after) || before == Some('\\') || (c == '\'' && before == Some('&'))) {
                CharAction::Nothing
            } else {
                CharAction::InsertPair(p.close)
            },
            None => CharAction::Nothing,
        }
    }
}

/// Handles a typed char: `Some(cursor)` when autopairs took care of it (a
/// close stepped over, or a pair inserted with the cursor between), `None`
/// when the char should be inserted normally.
pub fn on_char(buf: &mut Buffer, enabled: bool, line: usize, col: usize, c: char) -> (r: Option<(usize, usize)>)
    requires
        col < usize::MAX,
        old(buf).edit_seq < u64::MAX - 1,
        old(buf).sizes_ok(),
        small(old(buf).text().len() + 2int),
    ensures
        !enabled ==> r is None && *final(buf) == *old(buf),
        enabled ==> match char_action(old(buf).text(), line as int, col as int, c) {
            CharAction::StepOver => r == Some((line, (col + 1) as usize)) && *final(buf) == *old(buf),
            CharAction::Nothing => r is None && *final(buf) == *old(buf),
            CharAction::InsertPair(close) => {
                let s0 = old(buf).text();
                let s1 = splice(s0, char_idx_spec(s0, line as int, col as int), seq![c]);
                let s2 = splice(s1, char_idx_spec(s1, line as int, col + 1), seq![close]);
                &&& r == Some((line, (col + 1) as usize))
                &&& final(buf).text() == s2
                &&& final(buf).history() == edit_model(old(buf).history(), s2)
                &&& final(buf).edit_seq == old(buf).edit_seq + 2
            },
        },
{
    if !enabled {
        return None;
    }
    let before = if col >= 1 { char_at(buf, line, col - 1) } else { None };
    let after = char_at(buf, line, col);
    if is_close_char(c) && after == Some(c) {
        return Some((line, col + 1));
    }
    if let Some(pair) = pair_for_open(c) {
        if pair.open == pair.close {
            let word_before = match before { Some(b) => is_alphanumeric(b) || b == '_', None => false };
            let word_after = match after { Some(a) => is_alphanumeric(a) || a == '_', None => false };
            let escaped = before == Some('\\');
            let lifetime = c == '\'' && before == Some('&');
            if word_before || word_after || escaped || lifetime {
                return None;
            }
        }
        let ghost s0 = buf.text();
        proof {
            crate::buffer::lemma_char_idx_mono(s0, line as int, col as int, col as int);
        }
        buf.insert_char(line, col, c);
        assert(buf.text().len() == s0.len() + 1);
        buf.insert_char(line, col + 1, pair.close);
        return Some((line, col + 1));
    }
    None
}

/// Whether autopairs takes a Backspace at `(line, col)` of `s`: they are
/// on and the cursor sits between the two chars of a pair.
pub open spec fn backspace_in_pair(s: Seq<char>, line: int, col: int, enabled: bool) -> bool {
    enabled && col >= 1 && match (char_at_spec(s, line, col - 1), char_at_spec(s, line, col)) {
        (Some(b), Some(a)) => is_pair(b, a),
        _ => false,
    }
}

/// Whether autopairs takes an Enter at `(line, col)` of `s`: they are on
/// and the cursor sits between the two different chars of a bracket pair.
pub open spec fn enter_in_pair(s: Seq<char>, line: int, col: int, enabled: bool) -> bool {
    enabled && col >= 1 && match (char_at_spec(s, line, col - 1), char_at_spec(s, line, col)) {
        (Some(b), Some(a)) => is_pair(b, a) && b != a,
        _ => false,
    }
}

/// Handles Backspace: between an empty pair (`(|)`) both chars are deleted
/// as one edit and the cursor moves back one; `None` otherwise.
pub fn on_backspace(buf: &mut Buffer, enabled: bool, line: usize, col: usize) -> (r: Option<(usize, usize)>)
    requires
        col < usize::MAX,
        old(buf).edit_seq < u64::MAX,
        old(buf).sizes_ok(),
    ensures
        ({
            let s = old(buf).text();
            let handled = backspace_in_pair(s, line as int, col as int, enabled);
            if handled {
                let a = char_idx_spec(s, line as int, col - 1);
                let e = char_idx_spec(s, line as int, col + 1);
                &&& r == Some((line, (col - 1) as usize))
                &&& final(buf).text() == s.subrange(0, a) + s.subrange(e, s.len() as int)
                &&& final(buf).history() == edit_model(old(buf).history(), final(buf).text())
            } else {
                r is None && *final(buf) == *old(buf)
            }
        }),
{
    if !enabled || col == 0 {
        return None;
    }
    let before = char_at(buf, line, col - 1);
    let after = char_at(buf, line, col);
    let (b, a) = match (before, after) {
        (Some(b), Some(a)) => (b, a),
        _ => {
            return None;
        },
    };
    let handled = match pair_for_open(b) {
        Some(p) => p.close == a,
        None => false,
    };
    if !handled {
        return None;
    }
    let start = buf.char_idx(line, col - 1);
    let end = buf.char_idx(line, col + 1);
    proof {
        crate::buffer::lemma_char_idx_mono(buf.text(), line as int, col - 1, col + 1);
    }
    let _ = buf.delete_char_range(start, end);
    Some((line, col - 1))
}


/// The leading spaces and tabs of `t` from index `i` on.
pub open spec fn lead_blank(t: Seq<char>, i: int) -> Seq<char>
    decreases t.len() - i,
{
    if i < 0 || i >= t.len() || !(t[i] == ' ' || t[i] == '\t') {
        seq![]
    } else {
        seq![t[i]] + lead_blank(t, i + 1)
    }
}

/// `n` spaces.
pub open spec fn spaces(n: nat) -> Seq<char> {
    Seq::new(n, |k: int| ' ')
}

/// What Enter inside a bracket pair inserts at the cursor: a line break, the
/// line's indent plus one shift width (at least one space), a line break
/// and the line's indent; line breaks are `\r\n` when the text holds any.
pub open spec fn enter_insert(s: Seq<char>, line: int, shiftwidth: int) -> Seq<char> {
    let indent = lead_blank(line_content(s, line), 0);
    let inner = indent + spaces(if shiftwidth > 1 { shiftwidth as nat } else { 1 });
    let eol = if has_crlf(s) { seq!['\r', '\n'] } else { seq!['\n'] };
    eol + inner + eol + indent
}

fn contains_crlf(v: &Vec<char>) -> (r: bool)
    ensures
        r == has_crlf(v@),
{
    let mut i: usize = 0;
    while i < v.len()
        invariant
            i <= v@.len(),
            forall|j: int| 0 <= j < i && j + 1 < v@.len() ==> !(#[trigger] v@[j] == '\r' && v@[j + 1] == '\n'),
        decreases v@.len() - i,
    {
        if i + 1 < v.len() && v[i] == '\r' && v[i + 1] == '\n' {
            return true;
        }
        i += 1;
    }
    false
}

/// Handles Enter: between a bracket pair (`{|}`, not quotes) it opens an
/// indented blank line between the two and puts the cursor at its end;
/// `None` otherwise.
pub fn on_enter(buf: &mut Buffer, enabled: bool, line: usize, col: usize) -> (r: Option<(usize, usize)>)
    requires
        line < usize::MAX,
        old(buf).edit_seq < u64::MAX,
        old(buf).sizes_ok(),
        small(old(buf).text().len() + 2 * line_content(old(buf).text(), line as int).len() + old(buf).shiftwidth + 5),
    ensures
        ({
            let s = old(buf).text();
            let handled = enter_in_pair(s, line as int, col as int, enabled);
            if handled {
                let ins = enter_insert(s, line as int, old(buf).shiftwidth as int);
                let indent = lead_blank(line_content(s, line as int), 0);
                let sw = if old(buf).shiftwidth > 1 { old(buf).shiftwidth as int } else { 1 };
                &&& r == Some(((line + 1) as usize, (indent.len() + sw) as usize))
                &&& final(buf).text() == splice(s, char_idx_spec(s, line as int, col as int), ins)
                &&& final(buf).history() == edit_model(old(buf).history(), final(buf).text())
            } else {
                r is None && *final(buf) == *old(buf)
            }
        }),
{
    if !enabled || col == 0 {
        return None;
    }
    let before = char_at(buf, line, col - 1);
    let after = char_at(buf, line, col);
    let (b, a) = match (before, after) {
        (Some(b), Some(a)) => (b, a),
        _ => {
            return None;
        },
    };
    let handled = match pair_for_open(b) {
        Some(p) => p.close == a && p.open != p.close,
        None => false,
    };
    if !handled {
        return None;
    }
    let t = chars_of(buf.line_text(line).as_str());
    let mut indent: Vec<char> = Vec::new();
    let mut i: usize = 0;
    while i < t.len() && (t[i] == ' ' || t[i] == '\t')
        invariant
            i <= t@.len(),
            indent@ + lead_blank(t@, i as int) == lead_blank(t@, 0),
            indent@.len() == i,
        decreases t@.len() - i,
    {
        indent.push(t[i]);
        assert(indent@ + lead_blank(t@, i + 1) =~= indent@.drop_last() + (seq![t@[i as int]] + lead_blank(t@, i + 1)));
        i += 1;
    }
    assert(indent@ =~= lead_blank(t@, 0));
    let sw = if buf.shiftwidth > 1 { buf.shiftwidth } else { 1 };
    let mut inner: Vec<char> = Vec::new();
    crate::text::extend_chars(&mut inner, indent.as_slice());
    let mut k: usize = 0;
    while k < sw
        invariant
            k <= sw,
            inner@ == indent@ + spaces(k as nat),
        decreases sw - k,
    {
        inner.push(' ');
        assert(inner@ =~= indent@ + spaces((k + 1) as nat));
        k += 1;
    }
    let whole = chars_of(crate::rope::rope_to_string(&buf.rope).as_str());
    let crlf = contains_crlf(&whole);
    let mut ins: Vec<char> = Vec::new();
    if crlf {
        ins.push('\r');
    }
    ins.push('\n');
    let eol_len = ins.len();
    let eol = copy_eol(&ins);
    crate::text::extend_chars(&mut ins, inner.as_slice());
    crate::text::extend_chars(&mut ins, eol.as_slice());
    crate::text::extend_chars(&mut ins, indent.as_slice());
    assert(ins@ =~= enter_insert(buf.text(), line as int, buf.shiftwidth as int));
    let n = inner.len();
    let text = string_from(&ins);
    buf.insert_str(line, col, text.as_str());
    Some((line + 1, n))
}

fn copy_eol(v: &Vec<char>) -> (r: Vec<char>)
    ensures
        r@ == v@,
{
    crate::text::copy_range(v.as_slice(), 0, v.len())
}


// ---------------------------------------------------------------- laws

/// A quote (`"`, `'` or `` ` ``) typed right before a word char (a letter,
/// digit or `_`) is not paired: autopairs leave it to be inserted alone,
/// and so does one typed right after a word char, unless the same quote is
/// already under the cursor (then it is stepped over).
pub proof fn law_quote_next_to_word_not_paired(s: Seq<char>, line: int, col: int, c: char)
    requires
        c == '"' || c == '\'' || c == '`',
    ensures
        (char_at_spec(s, line, col) matches Some(a) && (alphanumeric(a) || a == '_')) ==> char_action(s, line, col, c) == CharAction::Nothing,
        (col >= 1 && (char_at_spec(s, line, col - 1) matches Some(b) && (alphanumeric(b) || b == '_')) && char_at_spec(s, line, col) != Some(c)) ==> char_action(s, line, col, c) == CharAction::Nothing,
        char_at_spec(s, line, col) == Some(c) ==> char_action(s, line, col, c) == CharAction::StepOver,
{
    assert(!alphanumeric(c) && c != '_');
}


/// An opening bracket is always paired with its own closing bracket; a
/// closing bracket typed over the same char steps over it; any char that
/// neither opens nor closes a pair is left to be inserted alone.
pub proof fn law_brackets_pair(s: Seq<char>, line: int, col: int, c: char)
    ensures
        c == '(' ==> char_action(s, line, col, c) == CharAction::InsertPair(')'),
        c == '[' ==> char_action(s, line, col, c) == CharAction::InsertPair(']'),
        c == '{' ==> char_action(s, line, col, c) == CharAction::InsertPair('}'),
        (c == ')' || c == ']' || c == '}') && char_at_spec(s, line, col) == Some(c) ==> char_action(s, line, col, c) == CharAction::StepOver,
        (c == ')' || c == ']' || c == '}') && char_at_spec(s, line, col) != Some(c) ==> char_action(s, line, col, c) == CharAction::Nothing,
        !(c == '(' || c == '[' || c == '{' || c == ')' || c == ']' || c == '}' || c == '"' || c == '\'' || c == '`') ==> char_action(s, line, col, c) == CharAction::Nothing,
{
}

} // verus!
