//! Keys as the editor sees them, independent of the terminal library.
use vstd::prelude::*;

verus! {

/// One keystroke. `Char` is a typed character; `Literal` a character that
/// arrived through a paste and must be inserted as-is.
#[derive(Debug, Clone, Copy, PartialEq, Eq, Hash, Structural)]
pub enum Key {
    Literal(char),
    Char(char),
    Ctrl(char),
    Enter,
    Esc,
    Backspace,
    Tab,
    BackTab,
    Left,
    Right,
    Up,
    Down,
    Home,
    End,
    Delete,
    PageUp,
    PageDown,
}

impl Key {
    /// The typed character of a `Char` key.
    pub fn as_char(&self) -> (r: Option<char>)
        ensures
            r == (match *self {
                Key::Char(c) => Some(c),
                _ => None::<char>,
            }),
    {
        match self {
            Key::Char(c) => Some(*c),
            _ => None,
        }
    }
}

/// A key as the terminal reports it: its code, before modifiers apply.
#[derive(Debug, Clone, Copy, PartialEq, Eq, Structural)]
pub enum KeyCode {
    Char(char),
    Enter,
    Esc,
    Backspace,
    Tab,
    Left,
    Right,
    Up,
    Down,
    Home,
    End,
    Delete,
    PageUp,
    PageDown,
    /// Any key the editor does not read.
    Other,
}

/// The key a terminal key code stands for: a character with Control held
/// is `Ctrl` of its ASCII lower-case form; keys the editor does not read
/// give nothing.
pub open spec fn from_code_spec(code: KeyCode, ctrl: bool) -> Option<Key> {
    match code {
        KeyCode::Char(c) => if ctrl { Some(Key::Ctrl(crate::text::ascii_lower(c))) } else { Some(Key::Char(c)) },
        KeyCode::Enter => Some(Key::Enter),
        KeyCode::Esc => Some(Key::Esc),
        KeyCode::Backspace => Some(Key::Backspace),
        KeyCode::Tab => Some(Key::Tab),
        KeyCode::Left => Some(Key::Left),
        KeyCode::Right => Some(Key::Right),
        KeyCode::Up => Some(Key::Up),
        KeyCode::Down => Some(Key::Down),
        KeyCode::Home => Some(Key::Home),
        KeyCode::End => Some(Key::End),
        KeyCode::Delete => Some(Key::Delete),
        KeyCode::PageUp => Some(Key::PageUp),
        KeyCode::PageDown => Some(Key::PageDown),
        KeyCode::Other => None,
    }
}

fn lower_ascii(c: char) -> (r: char)
    ensures
        r == crate::text::ascii_lower(c),
{
    let mut one: Vec<char> = Vec::new();
    one.push(c);
    let v = crate::text::to_ascii_lower(&one);
    proof {
        assert(one@ =~= seq![c]);
        assert(crate::text::ascii_lower_seq(seq![c]).len() == 1);
    }
    v[0]
}

impl Key {
    /// The key for a terminal key code, `ctrl` when Control is held.
    pub fn from_code(code: KeyCode, ctrl: bool) -> (r: Option<Key>)
        ensures
            r == from_code_spec(code, ctrl),
    {
        match code {
            KeyCode::Char(c) => if ctrl { Some(Key::Ctrl(lower_ascii(c))) } else { Some(Key::Char(c)) },
            KeyCode::Enter => Some(Key::Enter),
            KeyCode::Esc => Some(Key::Esc),
            KeyCode::Backspace => Some(Key::Backspace),
            KeyCode::Tab => Some(Key::Tab),
            KeyCode::Left => Some(Key::Left),
            KeyCode::Right => Some(Key::Right),
            KeyCode::Up => Some(Key::Up),
            KeyCode::Down => Some(Key::Down),
            KeyCode::Home => Some(Key::Home),
            KeyCode::End => Some(Key::End),
            KeyCode::Delete => Some(Key::Delete),
            KeyCode::PageUp => Some(Key::PageUp),
            KeyCode::PageDown => Some(Key::PageDown),
            KeyCode::Other => None,
        }
    }
}

} // verus!
