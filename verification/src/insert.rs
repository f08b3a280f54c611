//! Insert mode's key handling, as decisions: what a key does given the
//! `jk` escape and the completion popup, and the width of an expanded
//! Tab. The editor applies the step to the buffer (inserting, deleting,
//! moving the cursor, autopairs) and keeps the popup's items.
use vstd::prelude::*;
use crate::completion::{is_word_char, word_char};
use crate::key::Key;
use crate::text::{chars_of, string_from};

verus! {

/// What Insert mode keeps between keys.
#[derive(Debug, Clone, Copy, PartialEq, Eq, Structural)]
pub struct InsertState {
    /// Whether `jk` leaves Insert mode.
    pub jk_escape: bool,
    /// Whether a `j` is held back, waiting for a `k`.
    pub pending_jk: bool,
    /// How many items the completion popup shows (0 when it is closed).
    pub completion_items: usize,
    /// The selected completion item.
    pub completion_selected: usize,
}

/// The editing step a key asks for.
#[derive(Debug, Clone, Copy, PartialEq, Eq, Structural)]
pub enum InsertStep {
    Nothing,
    /// Leave Insert mode.
    Leave,
    /// Insert this char as typed (a literal from a mapping or a replay).
    Literal(char),
    /// Insert this word char and refresh the completion popup.
    WordChar(char),
    /// Accept the selected completion item.
    AcceptCompletion,
    /// Split the line (autopairs first).
    Enter,
    /// Delete before the cursor (autopairs first), then refresh the popup.
    Backspace,
    /// Delete the grapheme under the cursor.
    Delete,
    /// Insert a tab, or spaces to the next tab stop with `expandtab`.
    Tab,
    Left,
    Right,
    Up,
    Down,
    /// Type this char (autopairs first), then refresh the popup for a word
    /// char or close it.
    Char(char),
}

/// What a key does: whether a held-back `j` is typed first, then the step.
#[derive(Debug, Clone, Copy, PartialEq, Eq, Structural)]
pub struct InsertPlan {
    pub flush_j: bool,
    pub step: InsertStep,
}

/// The step a key asks for once the `jk` escape and the popup are dealt
/// with.
pub open spec fn plain_step(key: Key) -> InsertStep {
    match key {
        Key::Esc => InsertStep::Leave,
        Key::Enter => InsertStep::Enter,
        Key::Backspace => InsertStep::Backspace,
        Key::Delete => InsertStep::Delete,
        Key::Tab => InsertStep::Tab,
        Key::Left => InsertStep::Left,
        Key::Right => InsertStep::Right,
        Key::Up => InsertStep::Up,
        Key::Down => InsertStep::Down,
        Key::Char(c) => InsertStep::Char(c),
        _ => InsertStep::Nothing,
    }
}

/// A key with the completion popup open: Down/Ctrl-n and Up/Ctrl-p move
/// the selection (staying on the items), Tab/Enter accept, Esc closes, a
/// word char is inserted with the popup refreshed, Backspace goes on as
/// usual, and any other key closes the popup and goes on as usual.
pub open spec fn popup_key(st: InsertState, key: Key, flush: bool) -> (InsertState, InsertPlan) {
    match key {
        Key::Down | Key::Ctrl('n') => (
            InsertState {
                completion_selected: if st.completion_selected + 1 < st.completion_items {
                    (st.completion_selected + 1) as usize
                } else {
                    st.completion_selected
                },
                ..st
            },
            InsertPlan { flush_j: flush, step: InsertStep::Nothing },
        ),
        Key::Up | Key::Ctrl('p') => (
            InsertState {
                completion_selected: if st.completion_selected > 0 { (st.completion_selected - 1) as usize } else { 0 },
                ..st
            },
            InsertPlan { flush_j: flush, step: InsertStep::Nothing },
        ),
        Key::Tab | Key::Enter => (st, InsertPlan { flush_j: flush, step: InsertStep::AcceptCompletion }),
        Key::Esc => (
            InsertState { completion_items: 0, completion_selected: 0, ..st },
            InsertPlan { flush_j: flush, step: InsertStep::Nothing },
        ),
        Key::Backspace => (st, InsertPlan { flush_j: flush, step: InsertStep::Backspace }),
        Key::Char(c) => if word_char(c) {
            (st, InsertPlan { flush_j: flush, step: InsertStep::WordChar(c) })
        } else {
            (
                InsertState { completion_items: 0, completion_selected: 0, ..st },
                InsertPlan { flush_j: flush, step: InsertStep::Char(c) },
            )
        },
        _ => (
            InsertState { completion_items: 0, completion_selected: 0, ..st },
            InsertPlan { flush_j: flush, step: plain_step(key) },
        ),
    }
}

/// What a key does in Insert mode: a literal is inserted as is; with `jk`
/// escape on, a held-back `j` followed by `k` leaves Insert mode and by
/// any other key is typed before it, and a `j` is held back; then the
/// completion popup, when open, takes its keys (see `popup_key`); the rest
/// go to `plain_step`.
pub open spec fn insert_key_spec(st: InsertState, key: Key) -> (InsertState, InsertPlan) {
    if key is Literal {
        (st, InsertPlan { flush_j: false, step: InsertStep::Literal(key->Literal_0) })
    } else if st.jk_escape && st.pending_jk && key == Key::Char('k') {
        (InsertState { pending_jk: false, ..st }, InsertPlan { flush_j: false, step: InsertStep::Leave })
    } else {
        let flush = st.jk_escape && st.pending_jk;
        let st1 = InsertState { pending_jk: false, ..st };
        if st.jk_escape && key == Key::Char('j') {
            (InsertState { pending_jk: true, ..st1 }, InsertPlan { flush_j: flush, step: InsertStep::Nothing })
        } else if st1.completion_items > 0 {
            popup_key(st1, key, flush)
        } else {
            (st1, InsertPlan { flush_j: flush, step: plain_step(key) })
        }
    }
}

fn plain_step_of(key: Key) -> (r: InsertStep)
    ensures
        r == plain_step(key),
{
    match key {
        Key::Esc => InsertStep::Leave,
        Key::Enter => InsertStep::Enter,
        Key::Backspace => InsertStep::Backspace,
        Key::Delete => InsertStep::Delete,
        Key::Tab => InsertStep::Tab,
        Key::Left => InsertStep::Left,
        Key::Right => InsertStep::Right,
        Key::Up => InsertStep::Up,
        Key::Down => InsertStep::Down,
        Key::Char(c) => InsertStep::Char(c),
        _ => InsertStep::Nothing,
    }
}

/// What a key does in Insert mode (see `insert_key_spec`), updating the
/// held-back `j` and the popup's selection.
pub fn insert_key(st: &mut InsertState, key: Key) -> (r: InsertPlan)
    ensures
        (*final(st), r) == insert_key_spec(*old(st), key),
{
    if let Key::Literal(c) = key {
        return InsertPlan { flush_j: false, step: InsertStep::Literal(c) };
    }
    let flush = st.jk_escape && st.pending_jk;
    if flush && key == Key::Char('k') {
        st.pending_jk = false;
        return InsertPlan { flush_j: false, step: InsertStep::Leave };
    }
    st.pending_jk = false;
    if st.jk_escape && key == Key::Char('j') {
        st.pending_jk = true;
        return InsertPlan { flush_j: flush, step: InsertStep::Nothing };
    }
    if st.completion_items > 0 {
        match key {
            Key::Down | Key::Ctrl('n') => {
                if st.completion_selected < st.completion_items - 1 {
                    st.completion_selected = st.completion_selected + 1;
                }
                InsertPlan { flush_j: flush, step: InsertStep::Nothing }
            },
            Key::Up | Key::Ctrl('p') => {
                if st.completion_selected > 0 {
                    st.completion_selected = st.completion_selected - 1;
                }
                InsertPlan { flush_j: flush, step: InsertStep::Nothing }
            },
            Key::Tab | Key::Enter => InsertPlan { flush_j: flush, step: InsertStep::AcceptCompletion },
            Key::Esc => {
                st.completion_items = 0;
                st.completion_selected = 0;
                InsertPlan { flush_j: flush, step: InsertStep::Nothing }
            },
            Key::Backspace => InsertPlan { flush_j: flush, step: InsertStep::Backspace },
            Key::Char(c) => {
                if is_word_char(c) {
                    InsertPlan { flush_j: flush, step: InsertStep::WordChar(c) }
                } else {
                    st.completion_items = 0;
                    st.completion_selected = 0;
                    InsertPlan { flush_j: flush, step: InsertStep::Char(c) }
                }
            },
            _ => {
                st.completion_items = 0;
                st.completion_selected = 0;
                InsertPlan { flush_j: flush, step: plain_step_of(key) }
            },
        }
    } else {
        InsertPlan { flush_j: flush, step: plain_step_of(key) }
    }
}

/// The tab stop, at least 1.
pub open spec fn tab_width_of(tabstop: usize) -> int {
    if tabstop > 0 { tabstop as int } else { 1 }
}

/// How many spaces an expanded Tab inserts at column `col`: to the next
/// multiple of the tab stop (at least 1).
pub fn tab_pad(col: usize, tabstop: usize) -> (r: usize)
    ensures
        r == tab_width_of(tabstop) - (col as int) % tab_width_of(tabstop),
        1 <= r,
{
    let ts: usize = if tabstop > 0 { tabstop } else { 1 };
    ts - col % ts
}


/// Tab in Insert mode at `(line, col)`: with `expandtab`, spaces up to the
/// next tab stop (see `tab_pad`), else a tab character; the cursor goes
/// after what was inserted.
pub fn insert_tab(buf: &mut crate::buffer::Buffer, line: usize, col: usize, expandtab: bool, tabstop: usize) -> (r: (usize, usize))
    requires
        old(buf).edit_seq < u64::MAX,
        old(buf).sizes_ok(),
        col + tab_width_of(tabstop) <= usize::MAX,
        crate::buffer::small(old(buf).text().len() + tab_width_of(tabstop)),
    ensures
        ({
            let n: int = if expandtab { tab_width_of(tabstop) - (col as int) % tab_width_of(tabstop) } else { 1 };
            let ins = if expandtab { Seq::new(n as nat, |i: int| ' ') } else { seq!['\t'] };
            &&& final(buf).text() == crate::buffer::splice(old(buf).text(), crate::buffer::char_idx_spec(old(buf).text(), line as int, col as int), ins)
            &&& r == (line, (col + n) as usize)
        }),
        final(buf).history() == crate::buffer::edit_model(old(buf).history(), final(buf).text()),
        final(buf).edit_seq == old(buf).edit_seq + 1,
        final(buf).sizes_ok(),
{
    if expandtab {
        let n = tab_pad(col, tabstop);
        let mut pad: Vec<char> = Vec::new();
        while pad.len() < n
            invariant
                pad@.len() <= n,
                forall|i: int| 0 <= i < pad@.len() ==> pad@[i] == ' ',
            decreases n - pad@.len(),
        {
            pad.push(' ');
        }
        let ghost want = Seq::new(n as nat, |i: int| ' ');
        assert(pad@ =~= want);
        let p = string_from(&pad);
        assert(0 <= (col as int) % tab_width_of(tabstop));
        let _at = buf.char_idx(line, col);
        let ghost t0 = buf.text();
        buf.insert_str(line, col, p.as_str());
        assert(buf.text().len() == t0.len() + p@.len());
        (line, col + n)
    } else {
        let _at = buf.char_idx(line, col);
        let ghost t0 = buf.text();
        buf.insert_char(line, col, '\t');
        assert(buf.text().len() == t0.len() + 1);
        (line, col + 1)
    }
}

/// Leaving Insert mode: the cursor steps back one column (not before the
/// line's start) and lands where Normal mode puts it; nothing else changes.
pub fn leave_insert(buf: &mut crate::buffer::Buffer)
    ensures
        *final(buf) == (crate::buffer::Buffer { cursor_col: final(buf).cursor_col, ..*old(buf) }),
        crate::editor::normal_col(
            crate::buffer::line_content(old(buf).text(), old(buf).cursor_line as int),
            if old(buf).cursor_col > 0 { old(buf).cursor_col - 1 } else { 0 },
            final(buf).cursor_col as int,
        ),
{
    let line = buf.cursor_line;
    let back = if buf.cursor_col > 0 { buf.cursor_col - 1 } else { 0 };
    buf.cursor_col = buf.clamp_col_normal(line, back);
}

/// Enter in Insert mode at `(line, col)`: between the two chars of a
/// bracket pair with autopairs on, as `autopairs::on_enter` (the closing
/// char goes to a line of its own, the cursor to an indented line between);
/// otherwise a line break and the line's indent (see [`enter_spec`]). Where
/// the cursor goes.
pub fn enter_key(buf: &mut crate::buffer::Buffer, autopairs: bool, line: usize, col: usize) -> (r: (usize, usize))
    requires
        old(buf).edit_seq + 2 <= u64::MAX,
        old(buf).sizes_ok(),
        line < usize::MAX,
        crate::buffer::small(old(buf).text().len() + 2 * crate::buffer::line_content(old(buf).text(), line as int).len() + old(buf).shiftwidth + 5),
    ensures
        ({
            let s = old(buf).text();
            if crate::autopairs::enter_in_pair(s, line as int, col as int, autopairs) {
                let indent = crate::autopairs::lead_blank(crate::buffer::line_content(s, line as int), 0);
                let sw = if old(buf).shiftwidth > 1 { old(buf).shiftwidth as int } else { 1 };
                &&& r == ((line + 1) as usize, (indent.len() + sw) as usize)
                &&& final(buf).text() == crate::buffer::splice(s, crate::buffer::char_idx_spec(s, line as int, col as int), crate::autopairs::enter_insert(s, line as int, old(buf).shiftwidth as int))
            } else {
                &&& final(buf).text() == enter_spec(s, line as int, col as int)
                &&& r == ((line + 1) as usize, leading_blanks(crate::buffer::line_content(s, line as int)).len() as usize)
            }
        }),
{
    match crate::autopairs::on_enter(buf, autopairs, line, col) {
        Some(pos) => pos,
        None => insert_enter(buf, line, col),
    }
}

/// Backspace in Insert mode at `(line, col)`: between the two chars of an
/// empty pair with autopairs on, both go (see `autopairs::on_backspace`);
/// otherwise as [`backspace_spec`]. Where the cursor goes.
pub fn backspace_key(buf: &mut crate::buffer::Buffer, autopairs: bool, line: usize, col: usize) -> (r: (usize, usize))
    requires
        col < usize::MAX,
        old(buf).edit_seq < u64::MAX,
        old(buf).sizes_ok(),
    ensures
        ({
            let s = old(buf).text();
            if crate::autopairs::backspace_in_pair(s, line as int, col as int, autopairs) {
                let a = crate::buffer::char_idx_spec(s, line as int, col - 1);
                let e = crate::buffer::char_idx_spec(s, line as int, col + 1);
                &&& r == (line, (col - 1) as usize)
                &&& final(buf).text() == s.subrange(0, a) + s.subrange(e, s.len() as int)
            } else {
                &&& final(buf).text() == backspace_spec(s, line as int, col as int).0
                &&& (r.0 as int, r.1 as int) == backspace_spec(s, line as int, col as int).1
            }
        }),
{
    match crate::autopairs::on_backspace(buf, autopairs, line, col) {
        Some(pos) => pos,
        None => insert_backspace(buf, line, col),
    }
}

// ---------------------------------------------------------------- accepting

/// How far the extra edits of an accepted completion move the char offset
/// `start`: each edit that ends at or before it adds its new text's length
/// and takes away its range's.
pub open spec fn caret_shift(start: int, extra: Seq<(int, int, Seq<char>)>) -> int
    decreases extra.len(),
{
    if extra.len() == 0 {
        0
    } else {
        let e = extra.last();
        caret_shift(start, extra.drop_last()) + if e.1 <= start { e.2.len() - (e.1 - e.0) } else { 0 }
    }
}

/// Where the cursor goes after a completion is accepted: after the new
/// text of the main edit, which starts at `start` and inserts `new_len`
/// chars, moved by the extra edits made before it; never before the text.
pub open spec fn caret_spec(start: int, new_len: int, extra: Seq<(int, int, Seq<char>)>) -> int {
    let c = start + new_len + caret_shift(start, extra);
    if c < 0 { 0 } else { c }
}

/// The cursor's char offset after accepting a completion (see
/// [`caret_spec`]); `extra` are the item's additional edits.
pub fn completion_caret(start: usize, new_len: usize, extra: &Vec<(usize, usize, String)>) -> (r: usize)
    requires
        start + new_len <= isize::MAX,
        forall|k: int| 0 <= k < extra@.len() ==> (#[trigger] extra@[k]).0 <= extra@[k].1 <= isize::MAX && extra@[k].2@.len() <= isize::MAX,
        forall|k: int| 0 <= k <= extra@.len() ==> isize::MIN <= #[trigger] caret_shift(start as int, crate::buffer::edits_plain(extra@).take(k)) <= isize::MAX,
        start + new_len + caret_shift(start as int, crate::buffer::edits_plain(extra@)) <= isize::MAX,
    ensures
        r as int == caret_spec(start as int, new_len as int, crate::buffer::edits_plain(extra@)),
{
    let ghost es = crate::buffer::edits_plain(extra@);
    let mut shift: i128 = 0;
    let mut i: usize = 0;
    assert(es.take(0) =~= Seq::<(int, int, Seq<char>)>::empty());
    while i < extra.len()
        invariant
            i <= extra@.len(),
            es == crate::buffer::edits_plain(extra@),
            shift as int == caret_shift(start as int, es.take(i as int)),
            forall|k: int| 0 <= k < extra@.len() ==> (#[trigger] extra@[k]).0 <= extra@[k].1 <= isize::MAX && extra@[k].2@.len() <= isize::MAX,
            forall|k: int| 0 <= k <= extra@.len() ==> isize::MIN <= #[trigger] caret_shift(start as int, es.take(k)) <= isize::MAX,
        decreases extra@.len() - i,
    {
        let (a, b, t) = (extra[i].0, extra[i].1, &extra[i].2);
        proof {
            assert(es.take(i + 1).drop_last() =~= es.take(i as int));
            assert(es.take(i + 1).last() == es[i as int]);
            assert(es[i as int] == (a as int, b as int, t@));
        }
        if b <= start {
            let n = crate::text::chars_of(t.as_str()).len();
            shift = shift + n as i128 - (b - a) as i128;
        }
        i += 1;
    }
    proof {
        assert(es.take(es.len() as int) =~= es);
    }
    let c: i128 = start as i128 + new_len as i128 + shift;
    if c < 0 { 0 } else { c as usize }
}

/// The tab stops of an expanded snippet, moved from the snippet's own
/// offsets to the text's: `base` is where the snippet starts.
pub open spec fn stops_at_spec(stops: Seq<(usize, usize)>, base: int) -> Seq<(int, int)> {
    stops.map_values(|s: (usize, usize)| (s.0 + base, s.1 + base))
}

/// Moves a snippet's tab stops to where it was inserted: `caret` is just
/// past the inserted snippet text of `len` chars (see [`stops_at_spec`]).
pub fn stops_at(stops: &Vec<(usize, usize)>, caret: usize, len: usize) -> (r: Vec<(usize, usize)>)
    requires
        forall|k: int| 0 <= k < stops@.len() ==> (#[trigger] stops@[k]).0 + caret <= usize::MAX && stops@[k].1 + caret <= usize::MAX,
    ensures
        r@.map_values(|s: (usize, usize)| (s.0 as int, s.1 as int))
            == stops_at_spec(stops@, if caret >= len { caret - len } else { 0 }),
{
    let base: usize = if caret >= len { caret - len } else { 0 };
    let mut out: Vec<(usize, usize)> = Vec::new();
    let mut i: usize = 0;
    while i < stops.len()
        invariant
            i <= stops@.len(),
            base <= caret,
            forall|k: int| 0 <= k < stops@.len() ==> (#[trigger] stops@[k]).0 + caret <= usize::MAX && stops@[k].1 + caret <= usize::MAX,
            out@.map_values(|s: (usize, usize)| (s.0 as int, s.1 as int)) == stops_at_spec(stops@.take(i as int), base as int),
        decreases stops@.len() - i,
    {
        let (a, b) = stops[i];
        let ghost before = out@;
        out.push((a + base, b + base));
        proof {
            assert(stops@.take(i + 1) =~= stops@.take(i as int).push(stops@[i as int]));
            assert(out@.map_values(|s: (usize, usize)| (s.0 as int, s.1 as int))
                =~= before.map_values(|s: (usize, usize)| (s.0 as int, s.1 as int)).push((a + base, b + base)));
            assert(stops_at_spec(stops@.take(i + 1), base as int)
                =~= stops_at_spec(stops@.take(i as int), base as int).push((a + base, b + base)));
        }
        i += 1;
    }
    proof {
        assert(stops@.take(stops@.len() as int) =~= stops@);
    }
    out
}

// ---------------------------------------------------------------- editing

/// The first position from `i` on that is not a space or tab.
pub open spec fn blank_end(t: Seq<char>, i: int) -> int
    decreases t.len() - i,
{
    if 0 <= i < t.len() && (t[i] == ' ' || t[i] == '\t') { blank_end(t, i + 1) } else { i }
}

/// The spaces and tabs a line starts with.
pub open spec fn leading_blanks(t: Seq<char>) -> Seq<char> {
    t.subrange(0, blank_end(t, 0))
}

proof fn lemma_blank_end(t: Seq<char>, i: int)
    requires
        0 <= i <= t.len(),
    ensures
        i <= blank_end(t, i) <= t.len(),
    decreases t.len() - i,
{
    if i < t.len() && (t[i] == ' ' || t[i] == '\t') {
        lemma_blank_end(t, i + 1);
    }
}

/// Whether the text has a `\r\n` line break.
pub open spec fn has_crlf(t: Seq<char>) -> bool {
    exists|k: int| 0 <= k && k + 1 < t.len() && #[trigger] t[k] == '\r' && t[k + 1] == '\n'
}

/// The line break Enter types: `\r\n` in a text that has one, else `\n`.
pub open spec fn enter_eol(t: Seq<char>) -> Seq<char> {
    if has_crlf(t) { seq!['\r', '\n'] } else { seq!['\n'] }
}

/// The text after Enter at `(line, col)`: a line break there, then the
/// line's leading blanks at the start of the new line.
pub open spec fn enter_spec(t: Seq<char>, line: int, col: int) -> Seq<char> {
    let t1 = crate::buffer::splice(t, crate::buffer::char_idx_spec(t, line, col), enter_eol(t));
    crate::buffer::splice(t1, crate::buffer::char_idx_spec(t1, line + 1, 0), leading_blanks(crate::buffer::line_content(t, line)))
}

/// The text with the chars `s..e` removed (`e` clamped to the text);
/// unchanged when that range is empty.
pub open spec fn deleted(t: Seq<char>, s: int, e: int) -> Seq<char> {
    let e2 = if e < t.len() { e } else { t.len() as int };
    if s < e2 { t.subrange(0, s) + t.subrange(e2, t.len() as int) } else { t }
}

/// Backspace at `(line, col)`: the grapheme before the cursor goes, or at a
/// line's start the line break before it; the text and where the cursor
/// goes.
pub open spec fn backspace_spec(t: Seq<char>, line: int, col: int) -> (Seq<char>, (int, int)) {
    if col > 0 {
        let lt = crate::buffer::line_content(t, line);
        let prev = crate::grapheme::step_result(lt, col, 1, false);
        let s = crate::buffer::char_idx_spec(t, line, prev);
        let e = crate::buffer::char_idx_spec(t, line, col);
        (deleted(t, s, e), (line, prev))
    } else if line > 0 {
        let pl = crate::buffer::line_content(t, line - 1).len() as int;
        let s = crate::buffer::char_idx_spec(t, line - 1, pl);
        let e = crate::buffer::char_idx_spec(t, line, 0);
        (deleted(t, s, e), (line - 1, pl))
    } else {
        (t, (line, col))
    }
}

/// Delete at `(line, col)`: the grapheme under the cursor goes, or at a
/// line's end the line break after it.
pub open spec fn delete_spec(t: Seq<char>, line: int, col: int) -> Seq<char> {
    let lt = crate::buffer::line_content(t, line);
    let s = crate::buffer::char_idx_spec(t, line, col);
    let e = if col < lt.len() {
        crate::buffer::char_idx_spec(t, line, crate::grapheme::step_result(lt, col, 1, true))
    } else {
        s + 1
    };
    if e <= t.len() { deleted(t, s, e) } else { t }
}

fn has_crlf_exec(buf: &crate::buffer::Buffer) -> (r: bool)
    ensures
        r == has_crlf(buf.text()),
{
    let t = chars_of(crate::rope::rope_to_string(&buf.rope).as_str());
    let mut k: usize = 0;
    while k < t.len()
        invariant
            k <= t@.len(),
            t@ == buf.text(),
            forall|m: int| 0 <= m < k && m + 1 < t@.len() ==> !(#[trigger] t@[m] == '\r' && t@[m + 1] == '\n'),
        decreases t@.len() - k,
    {
        if k + 1 < t.len() && t[k] == '\r' && t[k + 1] == '\n' {
            assert(t@[k as int] == '\r' && t@[k + 1] == '\n');
            return true;
        }
        k += 1;
    }
    false
}

/// Enter in Insert mode at `(line, col)` (see [`enter_spec`]): where the
/// cursor goes, after the new line's leading blanks.
pub fn insert_enter(buf: &mut crate::buffer::Buffer, line: usize, col: usize) -> (r: (usize, usize))
    requires
        old(buf).edit_seq + 2 <= u64::MAX,
        old(buf).sizes_ok(),
        line < usize::MAX,
        crate::buffer::small(old(buf).text().len() + 2 + crate::buffer::line_content(old(buf).text(), line as int).len() as int),
    ensures
        final(buf).text() == enter_spec(old(buf).text(), line as int, col as int),
        r.0 == line + 1,
        r.1 == leading_blanks(crate::buffer::line_content(old(buf).text(), line as int)).len(),
        final(buf).edit_seq == old(buf).edit_seq + 2,
        final(buf).sizes_ok(),
{
    let ghost t0 = buf.text();
    let lt = chars_of(buf.line_text(line).as_str());
    let mut n: usize = 0;
    proof {
        lemma_blank_end(lt@, 0);
    }
    while n < lt.len() && (lt[n] == ' ' || lt[n] == '\t')
        invariant
            n <= lt@.len(),
            blank_end(lt@, n as int) == blank_end(lt@, 0),
        decreases lt@.len() - n,
    {
        n += 1;
    }
    let indent = string_of_chars(&lt, n);
    let crlf = has_crlf_exec(buf);
    let eol = if crlf { "\r\n" } else { "\n" };
    proof {
        reveal_strlit("\r\n");
        reveal_strlit("\n");
        assert(eol@ == enter_eol(t0));
        assert(eol@.len() <= 2);
        assert(lt@ == crate::buffer::line_content(t0, line as int));
    }
    let at = buf.char_idx(line, col);
    buf.insert_str(line, col, eol);
    proof {
        assert(buf.text().len() == t0.len() + eol@.len());
    }
    let at2 = buf.char_idx(line + 1, 0);
    buf.insert_str(line + 1, 0, indent.as_str());
    proof {
        assert(buf.text().len() == t0.len() + eol@.len() + n);
    }
    (line + 1, n)
}

fn string_of_chars(v: &Vec<char>, n: usize) -> (r: String)
    requires
        n <= v@.len(),
    ensures
        r@ == v@.subrange(0, n as int),
{
    crate::text::string_of(v, 0, n)
}

/// Backspace in Insert mode at `(line, col)` (see [`backspace_spec`]):
/// where the cursor goes.
pub fn insert_backspace(buf: &mut crate::buffer::Buffer, line: usize, col: usize) -> (r: (usize, usize))
    requires
        old(buf).edit_seq < u64::MAX,
        old(buf).sizes_ok(),
    ensures
        final(buf).text() == backspace_spec(old(buf).text(), line as int, col as int).0,
        (r.0 as int, r.1 as int) == backspace_spec(old(buf).text(), line as int, col as int).1,
        final(buf).sizes_ok(),
{
    let ghost t0 = buf.text();
    if col > 0 {
        let prev = crate::grapheme::step(buf.line_text(line).as_str(), col, 1, false);
        let s = buf.char_idx(line, prev);
        let e = buf.char_idx(line, col);
        buf.delete_char_range(s, e);
        proof {
            assert(buf.text() =~= deleted(t0, s as int, e as int));
        }
        (line, prev)
    } else if line > 0 {
        let pl = buf.line_len(line - 1);
        let s = buf.char_idx(line - 1, pl);
        let e = buf.char_idx(line, 0);
        buf.delete_char_range(s, e);
        proof {
            assert(buf.text() =~= deleted(t0, s as int, e as int));
        }
        (line - 1, pl)
    } else {
        (line, col)
    }
}

/// Delete in Insert mode at `(line, col)` (see [`delete_spec`]).
pub fn insert_delete(buf: &mut crate::buffer::Buffer, line: usize, col: usize)
    requires
        old(buf).edit_seq < u64::MAX,
        old(buf).sizes_ok(),
    ensures
        final(buf).text() == delete_spec(old(buf).text(), line as int, col as int),
        final(buf).sizes_ok(),
{
    let ghost t0 = buf.text();
    let s = buf.char_idx(line, col);
    let len = buf.line_len(line);
    let e: usize = if col < len {
        let next = crate::grapheme::step(buf.line_text(line).as_str(), col, 1, true);
        buf.char_idx(line, next)
    } else {
        if s == usize::MAX {
            let total = crate::rope::rope_len_chars(&buf.rope);
            assert(total == t0.len());
            return;
        }
        s + 1
    };
    if e <= crate::rope::rope_len_chars(&buf.rope) {
        buf.delete_char_range(s, e);
        proof {
            assert(buf.text() =~= deleted(t0, s as int, e as int));
        }
    }
}

} // verus!
