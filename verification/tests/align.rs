use vaayu::align::align;
use vaayu::buffer::Buffer;
use vaayu::grapheme::{cell, expand_tabs, raw_column};

fn editor(text: &str) -> Buffer {
    let mut b = Buffer::empty(1);
    b.rope = ropey::Rope::from_str(text);
    b.mark_saved();
    b
}

#[test]
fn aligns_by_first_delimiter() {
    let mut e = editor("a = 1\nbb = 2\nccc = 3\n");
    align(&mut e, 0, 2, '=');
    assert_eq!(e.rope.to_string(), "a   = 1\nbb  = 2\nccc = 3\n");
}

#[test]
fn aligns_by_display_column_not_char_index() {
    let mut e = editor("x = 1\n中 = 2\n");
    align(&mut e, 0, 1, '=');
    assert_eq!(e.rope.to_string(), "x  = 1\n中 = 2\n");
}

#[test]
fn lines_without_the_delimiter_are_untouched() {
    let mut e = editor("a = 1\nno delimiter here\nccc = 3\n");
    align(&mut e, 0, 2, '=');
    let text = e.rope.to_string();
    assert_eq!(text, "a   = 1\nno delimiter here\nccc = 3\n");
}

#[test]
fn no_delimiter_anywhere_is_a_no_op() {
    let mut e = editor("a\nb\nc\n");
    align(&mut e, 0, 2, '=');
    assert_eq!(e.rope.to_string(), "a\nb\nc\n");
    assert!(!e.undo());
}

#[test]
fn one_undo_transaction() {
    let mut e = editor("a = 1\nbb = 2\n");
    align(&mut e, 0, 1, '=');
    assert_eq!(e.rope.to_string(), "a  = 1\nbb = 2\n");
    assert!(e.undo());
    assert_eq!(e.rope.to_string(), "a = 1\nbb = 2\n");
}

#[test]
fn align_accepts_a_reversed_range_past_the_end() {
    let mut e = editor("a = 1\nbb = 2\n");
    align(&mut e, 9, 0, '=');
    assert_eq!(e.rope.to_string(), "a  = 1\nbb = 2\n");
}

#[test]
fn align_counts_tabs_to_the_next_stop() {
    let mut e = editor("\ta = 1\nbbbbbbbbb = 2\n");
    e.tabstop = 4;
    align(&mut e, 0, 1, '=');
    assert_eq!(e.rope.to_string(), "\ta     = 1\nbbbbbbbbb = 2\n");
}

#[test]
fn cell_counts_wide_chars_and_tabs() {
    assert_eq!(cell("中x", 1, 4), 2);
    assert_eq!(cell("a\tb", 2, 4), 4);
    assert_eq!(cell("a\tb", 3, 4), 5);
    assert_eq!(cell("ab", 9, 4), 2);
    assert_eq!(cell("\t", 1, 0), 1);
}

#[test]
fn expand_tabs_pads_to_the_next_stop() {
    assert_eq!(expand_tabs("a\tb", 4), "a   b");
    assert_eq!(expand_tabs("\t\t", 2), "    ");
    assert_eq!(expand_tabs("中\tx", 4), "中  x");
}

#[test]
fn column_maps_cells_back_to_chars() {
    assert_eq!(vaayu::grapheme::column("中x", 1, false), 0);
    assert_eq!(vaayu::grapheme::column("中x", 1, true), 1);
    assert_eq!(vaayu::grapheme::column("中x", 2, false), 1);
    assert_eq!(vaayu::grapheme::column("ab", 10, false), 2);
}

#[test]
fn raw_column_counts_tabs() {
    assert_eq!(raw_column("\tx", 3, 4), 0);
    assert_eq!(raw_column("\tx", 4, 4), 1);
    assert_eq!(raw_column("\tx", 9, 4), 2);
}
