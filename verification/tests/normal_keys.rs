use vaayu::buffer::Buffer;
use vaayu::key::Key;
use vaayu::normal::{normal_key, NormalStep};

fn buf(text: &str) -> Buffer {
    let mut b = Buffer::empty(1);
    b.rope = ropey::Rope::from_str(text);
    b.mark_saved();
    b
}

#[test]
fn motion_keys_move_the_cursor() {
    let mut b = buf("one two\n  three\n");
    let mut g = false;
    assert!(matches!(normal_key(&mut b, &mut g, Key::Char('w')), NormalStep::Stay));
    assert_eq!((b.cursor_line, b.cursor_col), (0, 4));
    normal_key(&mut b, &mut g, Key::Char('j'));
    assert_eq!(b.cursor_line, 1);
    normal_key(&mut b, &mut g, Key::Char('^'));
    assert_eq!(b.cursor_col, 2);
    normal_key(&mut b, &mut g, Key::Char('$'));
    assert_eq!(b.cursor_col, 6);
    normal_key(&mut b, &mut g, Key::Home);
    assert_eq!(b.cursor_col, 0);
}

#[test]
fn gg_needs_two_presses() {
    let mut b = buf("a\nb\nc\n");
    let mut g = false;
    normal_key(&mut b, &mut g, Key::Char('G'));
    assert_eq!(b.cursor_line, 2);
    normal_key(&mut b, &mut g, Key::Char('g'));
    assert!(g);
    assert_eq!(b.cursor_line, 2);
    normal_key(&mut b, &mut g, Key::Char('g'));
    assert!(!g);
    assert_eq!(b.cursor_line, 0);
}

#[test]
fn x_deletes_under_the_cursor_and_u_undoes_nothing_committed() {
    let mut b = buf("abc\n");
    let mut g = false;
    b.cursor_col = 2;
    normal_key(&mut b, &mut g, Key::Char('x'));
    assert_eq!(b.rope.to_string(), "ab\n");
    assert_eq!(b.cursor_col, 1);
    match normal_key(&mut b, &mut g, Key::Char('u')) {
        NormalStep::Message(m) => assert_eq!(m, "Already at oldest change"),
        _ => panic!("nothing was committed to undo"),
    }
    match normal_key(&mut b, &mut g, Key::Ctrl('r')) {
        NormalStep::Message(m) => assert_eq!(m, "Already at newest change"),
        _ => panic!("nothing to redo"),
    }
}

#[test]
fn insert_append_and_command_keys() {
    let mut b = buf("ab\n");
    let mut g = false;
    assert!(matches!(normal_key(&mut b, &mut g, Key::Char('i')), NormalStep::Insert));
    assert_eq!(b.cursor_col, 0);
    b.cursor_col = 1;
    assert!(matches!(normal_key(&mut b, &mut g, Key::Char('a')), NormalStep::Insert));
    assert_eq!(b.cursor_col, 2);
    assert!(matches!(normal_key(&mut b, &mut g, Key::Char(':')), NormalStep::Command));
    assert!(matches!(normal_key(&mut b, &mut g, Key::Char('z')), NormalStep::Stay));
}
