//! Normal mode's keys on the buffer: the motions, `gg`, entering Insert
//! mode (`i`, `a`), deleting the char under the cursor (`x`), undo (`u`)
//! and redo (Ctrl-R), and opening the command line (`:`).
use vstd::prelude::*;
use crate::buffer::{Buffer, char_idx_spec, line_content, undo_model, redo_model};
use crate::key::Key;
use crate::motion::{Motion, resolve, resolve_spec};

verus! {

/// What a Normal-mode key leaves for the editor.
pub enum NormalStep {
    /// Stay in Normal mode.
    Stay,
    /// Stay in Normal mode and show this message.
    Message(String),
    /// Enter Insert mode.
    Insert,
    /// Open the Ex command line.
    Command,
}

/// The motion key `key` makes in Normal mode, with `g` pending after a
/// first `g`: `h`/`l`/`k`/`j` and the arrows, `w`, `b`, `e`, `0`/Home, `^`,
/// `$`/End, `}`, `{`, `G`, and `gg`.
pub open spec fn normal_motion(key: Key, g: bool) -> Option<Motion> {
    match key {
        Key::Left => Some(Motion::Left),
        Key::Right => Some(Motion::Right),
        Key::Up => Some(Motion::Up),
        Key::Down => Some(Motion::Down),
        Key::Home => Some(Motion::LineStart),
        Key::End => Some(Motion::LineEnd),
        Key::Char(c) => if c == 'h' {
            Some(Motion::Left)
        } else if c == 'l' {
            Some(Motion::Right)
        } else if c == 'k' {
            Some(Motion::Up)
        } else if c == 'j' {
            Some(Motion::Down)
        } else if c == 'w' {
            Some(Motion::WordFwd(false))
        } else if c == 'b' {
            Some(Motion::WordBack(false))
        } else if c == 'e' {
            Some(Motion::WordEndFwd(false))
        } else if c == '0' {
            Some(Motion::LineStart)
        } else if c == '^' {
            Some(Motion::FirstNonBlank)
        } else if c == '$' {
            Some(Motion::LineEnd)
        } else if c == '}' {
            Some(Motion::ParaFwd)
        } else if c == '{' {
            Some(Motion::ParaBack)
        } else if c == 'G' {
            Some(Motion::FileEnd)
        } else if c == 'g' && g {
            Some(Motion::FileStart)
        } else {
            None
        },
        _ => None,
    }
}

fn motion_of(key: Key, g: bool) -> (r: Option<Motion>)
    ensures
        r == normal_motion(key, g),
{
    match key {
        Key::Left => Some(Motion::Left),
        Key::Right => Some(Motion::Right),
        Key::Up => Some(Motion::Up),
        Key::Down => Some(Motion::Down),
        Key::Home => Some(Motion::LineStart),
        Key::End => Some(Motion::LineEnd),
        Key::Char(c) => if c == 'h' {
            Some(Motion::Left)
        } else if c == 'l' {
            Some(Motion::Right)
        } else if c == 'k' {
            Some(Motion::Up)
        } else if c == 'j' {
            Some(Motion::Down)
        } else if c == 'w' {
            Some(Motion::WordFwd(false))
        } else if c == 'b' {
            Some(Motion::WordBack(false))
        } else if c == 'e' {
            Some(Motion::WordEndFwd(false))
        } else if c == '0' {
            Some(Motion::LineStart)
        } else if c == '^' {
            Some(Motion::FirstNonBlank)
        } else if c == '$' {
            Some(Motion::LineEnd)
        } else if c == '}' {
            Some(Motion::ParaFwd)
        } else if c == '{' {
            Some(Motion::ParaBack)
        } else if c == 'G' {
            Some(Motion::FileEnd)
        } else if c == 'g' && g {
            Some(Motion::FileStart)
        } else {
            None
        },
        _ => None,
    }
}

/// Buffer `b1` is `b0` with the cursor at `(line, col)`.
pub open spec fn moved_to(b0: Buffer, b1: Buffer, line: int, col: int) -> bool {
    b1 == Buffer { cursor_line: line as usize, cursor_col: col as usize, ..b0 }
}

/// A Normal-mode key on the buffer, with `g` pending after a first `g`
/// (`pending_g`): a motion key moves the cursor where `resolve_spec` puts
/// it (once); a first `g` waits for the second; `i` enters Insert mode,
/// and `a` too one column on (not past the line's end); `x` deletes the
/// char under the cursor, if there is one, and keeps the cursor on the
/// line as Normal mode places it; `u` and Ctrl-R undo and redo, with a
/// message when there is nothing to; `:` opens the command line; any
/// other key does nothing.
pub fn normal_key(buf: &mut Buffer, pending_g: &mut bool, key: Key) -> (r: NormalStep)
    requires
        old(buf).sizes_ok(),
        old(buf).text().len() < usize::MAX,
        old(buf).edit_seq < u64::MAX,
        old(buf).cursor_line < usize::MAX,
        old(buf).cursor_col < usize::MAX,
    ensures
        *final(pending_g) == (key == Key::Char('g') && !*old(pending_g)),
        match normal_motion(key, *old(pending_g)) {
            Some(m) => r is Stay && match resolve_spec(old(buf).text(), old(buf).folds@, old(buf).cursor_line as int, old(buf).cursor_col as int, m, 1) {
                Some((l, c, _)) => moved_to(*old(buf), *final(buf), l, c),
                None => *final(buf) == *old(buf),
            },
            None => {
                let t = old(buf).text();
                let (line, col) = (old(buf).cursor_line as int, old(buf).cursor_col as int);
                if key == Key::Char('i') {
                    r is Insert && *final(buf) == *old(buf)
                } else if key == Key::Char('a') {
                    let len = line_content(t, line).len() as int;
                    r is Insert && moved_to(*old(buf), *final(buf), line, if col + 1 < len { col + 1 } else { len })
                } else if key == Key::Char('x') {
                    &&& r is Stay
                    &&& if col < line_content(t, line).len() {
                        let at = char_idx_spec(t, line, col);
                        &&& final(buf).text() == t.subrange(0, at) + t.subrange(at + 1, t.len() as int)
                        &&& final(buf).history() == crate::buffer::edit_model(old(buf).history(), final(buf).text())
                        &&& final(buf).cursor_line == old(buf).cursor_line
                        &&& crate::editor::normal_col(line_content(final(buf).text(), line), col, final(buf).cursor_col as int)
                        &&& final(buf).same_settings(old(buf))
                    } else {
                        *final(buf) == *old(buf)
                    }
                } else if key == Key::Char('u') {
                    &&& final(buf).history() == undo_model(old(buf).history())
                    &&& (old(buf).undo_texts().len() > 0 ==> r is Stay)
                    &&& (old(buf).undo_texts().len() == 0 ==> (r matches NormalStep::Message(m) && m@ == "Already at oldest change"@) && *final(buf) == *old(buf))
                } else if key == Key::Ctrl('r') {
                    &&& final(buf).history() == redo_model(old(buf).history())
                    &&& (old(buf).redo_texts().len() > 0 ==> r is Stay)
                    &&& (old(buf).redo_texts().len() == 0 ==> (r matches NormalStep::Message(m) && m@ == "Already at newest change"@) && *final(buf) == *old(buf))
                } else if key == Key::Char(':') {
                    r is Command && *final(buf) == *old(buf)
                } else {
                    r is Stay && *final(buf) == *old(buf)
                }
            },
        },
{
    let g = *pending_g;
    *pending_g = key == Key::Char('g') && !g;
    if let Some(m) = motion_of(key, g) {
        proof {
            crate::buffer::lemma_last_line_le(buf.text());
        }
        if let Some((l, c, _)) = resolve(buf, buf.cursor_line, buf.cursor_col, m, 1) {
            buf.cursor_line = l;
            buf.cursor_col = c;
        }
        return NormalStep::Stay;
    }
    if key == Key::Char('i') {
        NormalStep::Insert
    } else if key == Key::Char('a') {
        buf.cursor_col = buf.clamp_col_insert(buf.cursor_line, buf.cursor_col + 1);
        NormalStep::Insert
    } else if key == Key::Char('x') {
        let line = buf.cursor_line;
        let col = buf.cursor_col;
        if col < buf.line_len(line) {
            let at = buf.char_idx(line, col);
            proof {
                let t = buf.text();
                if 0 <= line < crate::rope::num_lines(t) {
                    crate::buffer::lemma_content_fits(t, line as int);
                }
            }
            let ghost b0 = *buf;
            buf.delete_char_range(at, at + 1);
            let ghost b1 = *buf;
            buf.cursor_col = buf.clamp_col_normal(line, col);
            proof {
                b1.lemma_same_history(buf);
                assert(buf.same_settings(&b0));
                assert(buf.history() == b1.history());
            }
        }
        NormalStep::Stay
    } else if key == Key::Char('u') {
        if buf.undo() {
            NormalStep::Stay
        } else {
            NormalStep::Message(crate::text::string_from(&crate::text::chars_of("Already at oldest change")))
        }
    } else if key == Key::Ctrl('r') {
        if buf.redo() {
            NormalStep::Stay
        } else {
            NormalStep::Message(crate::text::string_from(&crate::text::chars_of("Already at newest change")))
        }
    } else if key == Key::Char(':') {
        NormalStep::Command
    } else {
        NormalStep::Stay
    }
}

} // verus!
