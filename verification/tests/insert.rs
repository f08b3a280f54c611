use vaayu::buffer::Buffer;
use vaayu::insert::{insert_backspace, insert_delete, insert_enter};
use vaayu::insert::{insert_key, tab_pad, InsertPlan, InsertState, InsertStep};
use vaayu::key::Key;

fn st(jk: bool, items: usize) -> InsertState {
    InsertState { jk_escape: jk, pending_jk: false, completion_items: items, completion_selected: 0 }
}

fn plan(flush_j: bool, step: InsertStep) -> InsertPlan {
    InsertPlan { flush_j, step }
}

#[test]
fn jk_leaves_insert_and_j_then_other_types_the_j() {
    let mut s = st(true, 0);
    assert_eq!(insert_key(&mut s, Key::Char('j')), plan(false, InsertStep::Nothing));
    assert!(s.pending_jk);
    assert_eq!(insert_key(&mut s, Key::Char('k')), plan(false, InsertStep::Leave));
    assert!(!s.pending_jk);
    insert_key(&mut s, Key::Char('j'));
    assert_eq!(insert_key(&mut s, Key::Char('x')), plan(true, InsertStep::Char('x')));
    assert!(!s.pending_jk);
    let mut off = st(false, 0);
    assert_eq!(insert_key(&mut off, Key::Char('j')), plan(false, InsertStep::Char('j')));
}

#[test]
fn the_popup_takes_its_keys() {
    let mut s = st(false, 3);
    insert_key(&mut s, Key::Down);
    insert_key(&mut s, Key::Ctrl('n'));
    insert_key(&mut s, Key::Down);
    assert_eq!(s.completion_selected, 2, "stays on the last item");
    insert_key(&mut s, Key::Up);
    assert_eq!(s.completion_selected, 1);
    assert_eq!(insert_key(&mut s, Key::Tab), plan(false, InsertStep::AcceptCompletion));
    assert_eq!(insert_key(&mut s, Key::Char('a')), plan(false, InsertStep::WordChar('a')));
    assert_eq!(insert_key(&mut s, Key::Char('.')), plan(false, InsertStep::Char('.')));
    assert_eq!(s.completion_items, 0, "a non-word char closes the popup");
    let mut s = st(false, 2);
    assert_eq!(insert_key(&mut s, Key::Esc), plan(false, InsertStep::Nothing));
    assert_eq!(s.completion_items, 0);
    assert_eq!(insert_key(&mut s, Key::Esc), plan(false, InsertStep::Leave));
}

#[test]
fn plain_keys_and_literals() {
    let mut s = st(true, 0);
    assert_eq!(insert_key(&mut s, Key::Literal('j')), plan(false, InsertStep::Literal('j')));
    assert!(!s.pending_jk);
    assert_eq!(insert_key(&mut s, Key::Enter), plan(false, InsertStep::Enter));
    assert_eq!(insert_key(&mut s, Key::Backspace), plan(false, InsertStep::Backspace));
    assert_eq!(insert_key(&mut s, Key::Home), plan(false, InsertStep::Nothing));
}

#[test]
fn expanded_tabs_reach_the_next_stop() {
    assert_eq!(tab_pad(0, 4), 4);
    assert_eq!(tab_pad(5, 4), 3);
    assert_eq!(tab_pad(8, 4), 4);
    assert_eq!(tab_pad(3, 0), 1);
}

use vaayu::insert::{completion_caret, stops_at};

#[test]
fn caret_after_main_edit_moves_with_earlier_extra_edits() {
    // Main edit starts at 10 and inserts 4 chars; an import added before
    // it (at 0..0, 7 chars) and an edit after it (20..22) which is ignored.
    let extra = vec![(0, 0, "use x;\n".to_string()), (20, 22, "abc".to_string())];
    assert_eq!(completion_caret(10, 4, &extra), 21);
    // An earlier edit that removes more than it inserts pulls the caret back.
    let shrink = vec![(2, 8, "a".to_string())];
    assert_eq!(completion_caret(10, 4, &shrink), 9);
    assert_eq!(completion_caret(3, 0, &vec![(0, 3, String::new())]), 0);
    assert_eq!(completion_caret(5, 2, &Vec::new()), 7);
}

#[test]
fn snippet_stops_move_to_the_inserted_text() {
    assert_eq!(stops_at(&vec![(0, 3), (5, 5)], 20, 8), vec![(12, 15), (17, 17)]);
    assert_eq!(stops_at(&vec![(1, 2)], 3, 8), vec![(1, 2)]);
}

fn buffer_of(text: &str) -> vaayu::buffer::Buffer {
    let mut b = vaayu::buffer::Buffer::empty(1);
    b.rope = ropey::Rope::from_str(text);
    b.mark_saved();
    b
}

#[test]
fn enter_copies_the_leading_blanks() {
    let mut b = buffer_of("    let x = 1;\n");
    let pos = insert_enter(&mut b, 0, 8);
    assert_eq!(b.rope.to_string(), "    let \n    x = 1;\n");
    assert_eq!(pos, (1, 4));
    let mut d = buffer_of("\tif x {\r\n}\r\n");
    let pos = insert_enter(&mut d, 0, 7);
    assert_eq!(d.rope.to_string(), "\tif x {\r\n\t\r\n}\r\n");
    assert_eq!(pos, (1, 1));
}

#[test]
fn backspace_and_delete_step_by_grapheme() {
    let mut b = buffer_of("ae\u{301}b\nc\n");
    assert_eq!(insert_backspace(&mut b, 0, 3), (0, 1));
    assert_eq!(b.rope.to_string(), "ab\nc\n");
    assert_eq!(insert_backspace(&mut b, 1, 0), (0, 2));
    assert_eq!(b.rope.to_string(), "abc\n");
    assert_eq!(insert_backspace(&mut b, 0, 0), (0, 0));
    let mut d = buffer_of("xe\u{301}y\nz");
    insert_delete(&mut d, 0, 1);
    assert_eq!(d.rope.to_string(), "xy\nz");
    insert_delete(&mut d, 0, 2);
    assert_eq!(d.rope.to_string(), "xyz");
    insert_delete(&mut d, 0, 3);
    assert_eq!(d.rope.to_string(), "xyz");
}

#[test]
fn tab_pads_to_the_next_stop_or_inserts_a_tab() {
    let mut b = Buffer::empty(1);
    b.rope = ropey::Rope::from_str("ab\n");
    assert_eq!(vaayu::insert::insert_tab(&mut b, 0, 2, true, 4), (0, 4));
    assert_eq!(b.rope.to_string(), "ab  \n");
    assert_eq!(vaayu::insert::insert_tab(&mut b, 0, 4, true, 4), (0, 8));
    assert_eq!(b.rope.to_string(), "ab      \n");
    assert_eq!(vaayu::insert::insert_tab(&mut b, 0, 0, false, 4), (0, 1));
    assert_eq!(b.rope.to_string(), "\tab      \n");
    assert_eq!(vaayu::insert::insert_tab(&mut b, 0, 1, true, 0), (0, 2));
    assert_eq!(b.rope.to_string(), "\t ab      \n");
}

#[test]
fn leaving_insert_steps_the_cursor_back() {
    let mut b = Buffer::empty(1);
    b.rope = ropey::Rope::from_str("abc\n\n");
    b.cursor_col = 3;
    vaayu::insert::leave_insert(&mut b);
    assert_eq!(b.cursor_col, 2);
    b.cursor_col = 0;
    vaayu::insert::leave_insert(&mut b);
    assert_eq!(b.cursor_col, 0);
    b.cursor_line = 1;
    b.cursor_col = 5;
    vaayu::insert::leave_insert(&mut b);
    assert_eq!(b.cursor_col, 0);
}

#[test]
fn enter_and_backspace_keys_take_autopairs_first() {
    let mut b = Buffer::empty(1);
    b.rope = ropey::Rope::from_str("  f()\n");
    b.shiftwidth = 4;
    assert_eq!(vaayu::insert::enter_key(&mut b, true, 0, 4), (1, 6));
    assert_eq!(b.rope.to_string(), "  f(\n      \n  )\n");
    let mut b = Buffer::empty(1);
    b.rope = ropey::Rope::from_str("  f()\n");
    assert_eq!(vaayu::insert::enter_key(&mut b, false, 0, 4), (1, 2));
    assert_eq!(b.rope.to_string(), "  f(\n  )\n");
    let mut b = Buffer::empty(1);
    b.rope = ropey::Rope::from_str("[]\n");
    assert_eq!(vaayu::insert::backspace_key(&mut b, true, 0, 1), (0, 0));
    assert_eq!(b.rope.to_string(), "\n");
    let mut b = Buffer::empty(1);
    b.rope = ropey::Rope::from_str("[]\n");
    assert_eq!(vaayu::insert::backspace_key(&mut b, false, 0, 1), (0, 0));
    assert_eq!(b.rope.to_string(), "]\n");
}
