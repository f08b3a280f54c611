use vaayu::editor::ResumeTarget;
use vaayu::grapheme::{floor, step};
use vaayu::key::{Key, KeyCode};
use vaayu::mode::{CommandKind, Mode, VisualKind};
use vaayu::order::{lex_less, sort_entries};

#[test]
fn mode_labels() {
    assert_eq!(Mode::Normal.label(), "NORMAL");
    assert_eq!(Mode::Visual(VisualKind::Line).label(), "V-LINE");
    assert_eq!(Mode::Command(CommandKind::Ex).label(), "COMMAND");
    assert_eq!(Mode::Command(CommandKind::SearchFwd).label(), "SEARCH");
}

#[test]
fn key_chars() {
    assert_eq!(Key::Char('x').as_char(), Some('x'));
    assert_eq!(Key::Ctrl('x').as_char(), None);
    assert_ne!(ResumeTarget::Results, ResumeTarget::Picker);
}

#[test]
fn grapheme_floor_and_step() {
    let s = "ae\u{301}x";
    assert_eq!(floor(s, 2), 1);
    assert_eq!(floor(s, 3), 3);
    assert_eq!(floor(s, 9), 4);
    assert_eq!(step(s, 2, 1, true), 3);
    assert_eq!(step(s, 2, 5, false), 0);
}

#[test]
fn strings_sort_by_char_then_length() {
    let c = |s: &str| s.chars().collect::<Vec<char>>();
    assert!(lex_less(&c("ab"), &c("b")));
    assert!(lex_less(&c("a"), &c("ab")));
    assert!(!lex_less(&c("ab"), &c("ab")));
    assert!(!lex_less(&c("b"), &c("ab")));
}

#[test]
fn entries_sort_stably_by_key_then_string() {
    let c = |s: &str| s.chars().collect::<Vec<char>>();
    let v = vec![(1, c("b"), 0), (0, c("z"), 1), (1, c("a"), 2), (1, c("b"), 3)];
    let r = sort_entries(v);
    let order: Vec<usize> = r.iter().map(|e| e.2).collect();
    assert_eq!(order, vec![1, 2, 0, 3]);
}

#[test]
fn terminal_codes_become_keys() {
    assert_eq!(Key::from_code(KeyCode::Char('A'), true), Some(Key::Ctrl('a')));
    assert_eq!(Key::from_code(KeyCode::Char('A'), false), Some(Key::Char('A')));
    assert_eq!(Key::from_code(KeyCode::Char('é'), true), Some(Key::Ctrl('é')));
    assert_eq!(Key::from_code(KeyCode::Enter, true), Some(Key::Enter));
    assert_eq!(Key::from_code(KeyCode::Other, false), None);
}
