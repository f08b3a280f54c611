use vaayu::autopairs::{is_close_char, on_backspace, on_char, on_enter, pair_for_open};
use vaayu::buffer::Buffer;

fn buf(text: &str) -> Buffer {
    let mut b = Buffer::empty(1);
    b.rope = ropey::Rope::from_str(text);
    b.mark_saved();
    b
}

/// Types `c` at the cursor as Insert mode does: autopairs first, else a
/// plain insert that moves the cursor right.
fn type_char(b: &mut Buffer, cur: &mut (usize, usize), c: char) {
    match on_char(b, true, cur.0, cur.1, c) {
        Some(next) => *cur = next,
        None => {
            b.insert_char(cur.0, cur.1, c);
            cur.1 += 1;
        }
    }
}

#[test]
fn bracket_pairs_and_skips_over_close() {
    let mut b = buf("\n");
    let mut cur = (0, 0);
    type_char(&mut b, &mut cur, '(');
    assert_eq!(b.rope.to_string(), "()\n");
    assert_eq!(cur, (0, 1));
    type_char(&mut b, &mut cur, 'x');
    type_char(&mut b, &mut cur, ')');
    assert_eq!(b.rope.to_string(), "(x)\n");
    assert_eq!(cur, (0, 3));
}

#[test]
fn quote_pairs_on_empty_line() {
    let mut b = buf("\n");
    let mut cur = (0, 0);
    type_char(&mut b, &mut cur, '"');
    assert_eq!(b.rope.to_string(), "\"\"\n");
}

#[test]
fn quote_not_paired_mid_word() {
    let mut b = buf("dont\n");
    let mut cur = (0, 3);
    type_char(&mut b, &mut cur, '\'');
    assert_eq!(b.rope.to_string(), "don't\n");
}

#[test]
fn lifetime_apostrophe_is_not_paired() {
    let mut b = buf("&\n");
    let mut cur = (0, 1);
    type_char(&mut b, &mut cur, '\'');
    type_char(&mut b, &mut cur, 'a');
    assert_eq!(b.rope.to_string(), "&'a\n");
}

#[test]
fn backspace_deletes_empty_pair_together() {
    let mut b = buf("\n");
    let mut cur = (0, 0);
    type_char(&mut b, &mut cur, '(');
    assert_eq!(on_backspace(&mut b, true, cur.0, cur.1), Some((0, 0)));
    assert_eq!(b.rope.to_string(), "\n");
}

#[test]
fn enter_expands_inside_braces_with_indent() {
    let mut b = buf("fn f() {}\n");
    assert_eq!(on_enter(&mut b, true, 0, 8), Some((1, 4)));
    assert_eq!(b.rope.to_string(), "fn f() {\n    \n}\n");
}

#[test]
fn disabled_autopairs_leave_keys_alone() {
    let mut b = buf("()\n");
    assert_eq!(on_char(&mut b, false, 0, 1, ')'), None);
    assert_eq!(on_backspace(&mut b, false, 0, 1), None);
    assert_eq!(on_enter(&mut b, false, 0, 1), None);
    assert_eq!(b.rope.to_string(), "()\n");
}

#[test]
fn enter_between_quotes_is_not_expanded_and_keeps_crlf() {
    let mut b = buf("\"\"\n");
    assert_eq!(on_enter(&mut b, true, 0, 1), None);
    let mut c = buf("\t[]\r\n");
    c.shiftwidth = 2;
    assert_eq!(on_enter(&mut c, true, 0, 2), Some((1, 3)));
    assert_eq!(c.rope.to_string(), "\t[\r\n\t  \r\n\t]\r\n");
}

#[test]
fn pair_table() {
    assert_eq!(pair_for_open('{').map(|p| p.close), Some('}'));
    assert_eq!(pair_for_open(')'), None);
    assert!(is_close_char('`'));
    assert!(!is_close_char('('));
}
