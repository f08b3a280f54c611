use vaayu::buffer::Buffer;
use vaayu::conflict::{conflict_containing, find_conflict_from, goto_conflict, resolve_conflict, Conflict, Keep};

fn buf(text: &str) -> Buffer {
    let mut b = Buffer::empty(1);
    b.rope = ropey::Rope::from_str(text);
    b.mark_saved();
    b
}

const TEXT: &str = "top\n<<<<<<< HEAD\nours\n||||||| base\nbase\n=======\ntheirs\n>>>>>>> br\nmid\n<<<<<<< HEAD\na\n=======\nb\n>>>>>>> x\n";

#[test]
fn finds_blocks_with_and_without_a_base() {
    let b = buf(TEXT);
    assert_eq!(find_conflict_from(&b, 0), Some(Conflict { start: 1, base: Some(3), sep: 5, end: 7 }));
    assert_eq!(find_conflict_from(&b, 2), Some(Conflict { start: 9, base: None, sep: 11, end: 13 }));
    assert_eq!(find_conflict_from(&b, 10), None);
    assert_eq!(conflict_containing(&b, 4).map(|c| c.start), Some(1));
    assert_eq!(conflict_containing(&b, 8), None);
}

#[test]
fn malformed_blocks_are_skipped() {
    let b = buf("<<<<<<< a\nx\n<<<<<<< b\ny\n=======\nz\n>>>>>>> c\n");
    assert_eq!(find_conflict_from(&b, 0), Some(Conflict { start: 2, base: None, sep: 4, end: 6 }));
    let b = buf("<<<<<<< a\nx\n>>>>>>> c\n");
    assert_eq!(find_conflict_from(&b, 0), None);
}

#[test]
fn resolving_keeps_the_chosen_side_as_one_edit() {
    let mut b = buf(TEXT);
    assert_eq!(resolve_conflict(&mut b, 2, Keep::Theirs), Some(1));
    assert_eq!(b.rope.to_string(), "top\ntheirs\nmid\n<<<<<<< HEAD\na\n=======\nb\n>>>>>>> x\n");
    assert_eq!(resolve_conflict(&mut b, 5, Keep::Both), Some(3));
    assert_eq!(b.rope.to_string(), "top\ntheirs\nmid\na\nb\n");
    assert!(b.undo());
    assert_eq!(resolve_conflict(&mut b, 0, Keep::Ours), None);
}

#[test]
fn keeping_ours_drops_the_base() {
    let mut b = buf(TEXT);
    assert_eq!(resolve_conflict(&mut b, 1, Keep::Ours), Some(1));
    assert!(b.rope.to_string().starts_with("top\nours\nmid\n"));
}

#[test]
fn goto_moves_between_blocks_without_wrapping() {
    let b = buf(TEXT);
    assert_eq!(goto_conflict(&b, 0, true), Some(1));
    assert_eq!(goto_conflict(&b, 1, true), Some(9));
    assert_eq!(goto_conflict(&b, 9, true), None);
    assert_eq!(goto_conflict(&b, 12, false), Some(9));
    assert_eq!(goto_conflict(&b, 9, false), Some(1));
    assert_eq!(goto_conflict(&b, 1, false), None);
}
