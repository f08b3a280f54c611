use ropey::Rope;
use vaayu::language::{validate_edits, RawEdit, RawPos};

fn pos(line: u64, character: u64) -> RawPos {
    RawPos { line: Some(line), character: Some(character) }
}

fn edit(a: (u64, u64), b: (u64, u64), text: &str) -> RawEdit {
    RawEdit { range: Some((pos(a.0, a.1), pos(b.0, b.1))), new_text: Some(text.to_string()) }
}

fn run(text: &str, edits: Vec<RawEdit>) -> Result<Vec<(usize, usize, String)>, String> {
    validate_edits(&Rope::from_str(text), &edits)
}

#[test]
fn edit_positions_become_char_offsets() {
    assert_eq!(run("ab\ncd\n", vec![edit((0, 1), (1, 1), "X")]), Ok(vec![(1, 4, "X".to_string())]));
}

#[test]
fn edits_come_back_last_range_first() {
    let r = run("ab\ncd\n", vec![edit((0, 0), (0, 1), "A"), edit((1, 0), (1, 2), "B")]);
    assert_eq!(r, Ok(vec![(3, 5, "B".to_string()), (0, 1, "A".to_string())]));
}

#[test]
fn one_past_the_last_line_is_the_end_of_the_text() {
    assert_eq!(run("ab\ncd", vec![edit((0, 0), (2, 0), "")]), Ok(vec![(0, 5, String::new())]));
    assert_eq!(run("ab\ncd", vec![edit((0, 0), (3, 0), "")]), Err("edit line out of range".to_string()));
}

#[test]
fn columns_clamp_to_the_line_without_its_break() {
    assert_eq!(run("ab\ncd\n", vec![edit((0, 99), (0, 99), "!")]), Ok(vec![(2, 2, "!".to_string())]));
    assert_eq!(run("ab\r\ncd", vec![edit((0, 5), (1, 1), "")]), Ok(vec![(2, 5, String::new())]));
}

#[test]
fn columns_count_utf16_units() {
    assert_eq!(run("\u{1F600}x\n", vec![edit((0, 2), (0, 3), "")]), Ok(vec![(1, 2, String::new())]));
    assert_eq!(run("\u{1F600}x\n", vec![edit((0, 1), (0, 1), "")]), Ok(vec![(0, 0, String::new())]));
}

#[test]
fn malformed_edits_are_refused() {
    let no_range = RawEdit { range: None, new_text: Some("x".to_string()) };
    assert_eq!(run("ab", vec![no_range]), Err("missing edit range".to_string()));
    let no_line = RawEdit {
        range: Some((RawPos { line: None, character: Some(0) }, pos(0, 0))),
        new_text: Some("x".to_string()),
    };
    assert_eq!(run("ab", vec![no_line]), Err("missing edit line".to_string()));
    let no_column = RawEdit {
        range: Some((pos(0, 0), RawPos { line: Some(0), character: None })),
        new_text: Some("x".to_string()),
    };
    assert_eq!(run("ab", vec![no_column]), Err("missing edit column".to_string()));
    assert_eq!(run("ab", vec![edit((0, 2), (0, 1), "")]), Err("reversed edit range".to_string()));
    let no_text = RawEdit { range: Some((pos(0, 0), pos(0, 1))), new_text: None };
    assert_eq!(run("ab", vec![no_text]), Err("missing edit text".to_string()));
}

#[test]
fn the_first_bad_edit_gives_the_error() {
    let no_text = RawEdit { range: Some((pos(0, 0), pos(0, 1))), new_text: None };
    let no_range = RawEdit { range: None, new_text: Some("x".to_string()) };
    assert_eq!(run("ab", vec![no_text, no_range]), Err("missing edit text".to_string()));
}

#[test]
fn overlapping_or_repeated_ranges_are_refused() {
    let r = run("abcd", vec![edit((0, 0), (0, 2), "x"), edit((0, 1), (0, 3), "y")]);
    assert_eq!(r, Err("overlapping edits".to_string()));
    let r = run("abcd", vec![edit((0, 1), (0, 1), "x"), edit((0, 1), (0, 1), "y")]);
    assert_eq!(r, Err("overlapping edits".to_string()));
}

#[test]
fn touching_ranges_are_accepted() {
    let r = run("abcd", vec![edit((0, 0), (0, 1), "x"), edit((0, 1), (0, 2), "y"), edit((0, 1), (0, 1), "z")]);
    assert_eq!(
        r,
        Ok(vec![(1, 2, "y".to_string()), (1, 1, "z".to_string()), (0, 1, "x".to_string())])
    );
}

#[test]
fn buffer_edits_are_checked_against_the_buffer_text() {
    let mut b = vaayu::buffer::Buffer::empty(1);
    b.rope = Rope::from_str("ab\ncd\n");
    let r = vaayu::language::validate_buffer_edits(&b, &vec![edit((1, 0), (1, 1), "X")]);
    assert_eq!(r, Some(Ok(vec![(3, 4, "X".to_string())])));
}
