use vaayu::buffer::{Buffer, Fold};

fn buf(text: &str) -> Buffer {
    let mut b = Buffer::empty(1);
    b.rope = ropey::Rope::from_str(text);
    b.mark_saved();
    b
}

fn fold(start: usize, end: usize, closed: bool) -> Fold {
    Fold { start, end, closed }
}

#[test]
fn create_fold_orders_and_clamps_its_range() {
    let mut b = buf("a\nb\nc\nd\ne\nf\n");
    assert_eq!(b.create_fold(5, 2), Some(4));
    assert_eq!(b.folds, vec![fold(2, 5, true)]);
    assert_eq!(b.cursor_line, 2);
    assert_eq!(b.create_fold(3, 3), None, "one line is not a fold");
    assert_eq!(b.create_fold(4, 99), Some(2), "the range stops at the last line");
    assert_eq!(b.folds[1], fold(4, 5, true));
}

#[test]
fn the_innermost_fold_is_the_narrowest_first_one() {
    let mut b = buf("a\nb\nc\nd\ne\nf\n");
    b.folds = vec![fold(0, 5, false), fold(1, 2, false), fold(2, 3, false)];
    assert_eq!(b.fold_at(1), Some(1));
    assert_eq!(b.fold_at(2), Some(1), "equal spans: the first wins");
    assert_eq!(b.fold_at(4), Some(0));
    assert_eq!(b.fold_at(7), None);
}

#[test]
fn za_zo_zc_zd_act_on_the_fold_under_the_cursor() {
    let mut b = buf("a\nb\nc\nd\n");
    b.folds = vec![fold(1, 3, false)];
    b.cursor_line = 2;
    assert!(b.toggle_fold());
    assert_eq!(b.folds[0], fold(1, 3, true));
    assert_eq!(b.cursor_line, 1, "closing moves to the fold's first line");
    assert!(b.toggle_fold());
    assert!(!b.folds[0].closed);
    b.cursor_line = 3;
    assert!(b.close_fold());
    assert_eq!(b.cursor_line, 1);
    assert!(b.open_fold());
    assert!(!b.folds[0].closed);
    assert!(b.delete_fold());
    assert!(b.folds.is_empty());
    assert!(!b.toggle_fold());
    assert!(!b.open_fold());
    assert!(!b.close_fold());
    assert!(!b.delete_fold());
}

#[test]
fn zr_and_zm_open_and_close_every_fold() {
    let mut b = buf("a\nb\nc\nd\n");
    b.folds = vec![fold(0, 1, false), fold(2, 3, true)];
    b.close_all_folds();
    assert!(b.folds.iter().all(|f| f.closed));
    b.open_all_folds();
    assert!(b.folds.iter().all(|f| !f.closed));
    assert_eq!(b.folds[1], fold(2, 3, false));
}

#[test]
fn indent_folds_span_deeper_blocks() {
    let mut b = buf("fn a() {\n    x;\n\n    y;\n}\nz\n");
    b.cursor_line = 4;
    b.cursor_col = 1;
    assert_eq!(b.fold_by_indent(), 1);
    assert_eq!(b.folds, vec![fold(0, 3, true)]);
    assert_eq!((b.cursor_line, b.cursor_col), (0, 0));
}

#[test]
fn indent_folds_nest_count_tabs_and_drop_trailing_blanks() {
    let mut b = buf("a\n\tb\n\t\tc\n    d\n\ne\n");
    b.tabstop = 4;
    assert_eq!(b.fold_by_indent(), 2);
    assert_eq!(b.folds, vec![fold(0, 3, true), fold(1, 2, true)]);
    let mut b = buf("a\n  b\n\n");
    assert_eq!(b.fold_by_indent(), 1);
    assert_eq!(b.folds, vec![fold(0, 1, true)]);
}

#[test]
fn indent_folds_leave_a_flat_buffer_alone() {
    let mut b = buf("a\nb\n\nc\n");
    b.folds = vec![fold(0, 1, false)];
    b.cursor_line = 2;
    assert_eq!(b.fold_by_indent(), 0);
    assert_eq!(b.folds, vec![fold(0, 1, false)]);
    assert_eq!(b.cursor_line, 2);
}

#[test]
fn a_hidden_cursor_moves_to_its_fold() {
    let mut b = buf("a\nbbbb\ncc\nd\n");
    b.folds = vec![fold(1, 2, true)];
    b.cursor_line = 2;
    b.cursor_col = 9;
    b.clamp_cursor_folds();
    assert_eq!((b.cursor_line, b.cursor_col), (1, 3));
    b.cursor_line = 3;
    b.clamp_cursor_folds();
    assert_eq!(b.cursor_line, 3);
}
