use vaayu::buffer::Buffer;
use vaayu::motion::{resolve, Motion, Span};

fn buf(text: &str) -> Buffer {
    let mut b = Buffer::empty(1);
    b.rope = ropey::Rope::from_str(text);
    b
}

fn fwd_positions(text: &str) -> Vec<usize> {
    let b = buf(text);
    let len = text.chars().count();
    let mut col = 0;
    let mut out = vec![0];
    loop {
        match resolve(&b, 0, col, Motion::SubwordFwd, 1) {
            Some((_, c, _)) if c != col && c < len => {
                out.push(c);
                col = c;
            }
            _ => break,
        }
    }
    out
}

#[test]
fn camel_case_splits() {
    assert_eq!(fwd_positions("myVarName"), [0, 2, 5]);
}

#[test]
fn acronym_tail_splits_before_last_upper() {
    assert_eq!(fwd_positions("XMLParser"), [0, 3]);
}

#[test]
fn snake_and_kebab_case_split_on_separators() {
    assert_eq!(fwd_positions("snake_case_name"), [0, 6, 11]);
    assert_eq!(fwd_positions("kebab-case-name"), [0, 6, 11]);
}

#[test]
fn digits_get_their_own_subword() {
    assert_eq!(fwd_positions("var2Name"), [0, 3, 4]);
}

#[test]
fn backward_mirrors_forward() {
    let b = buf("myVarName\n");
    let (_, c, _) = resolve(&b, 0, 9, Motion::SubwordBack, 1).unwrap();
    assert_eq!(c, 5);
    let (_, c, _) = resolve(&b, 0, 5, Motion::SubwordBack, 1).unwrap();
    assert_eq!(c, 2);
    let (_, c, _) = resolve(&b, 0, 2, Motion::SubwordBack, 1).unwrap();
    assert_eq!(c, 0);
}

#[test]
fn end_forward_lands_on_last_char_of_each_subword() {
    let b = buf("myVarName\n");
    let (_, c, _) = resolve(&b, 0, 0, Motion::SubwordEndFwd, 1).unwrap();
    assert_eq!(c, 1);
    let (_, c, _) = resolve(&b, 0, 1, Motion::SubwordEndFwd, 1).unwrap();
    assert_eq!(c, 4);
}

#[test]
fn count_repeats_the_motion() {
    let b = buf("myVarName\n");
    let (_, c, _) = resolve(&b, 0, 0, Motion::SubwordFwd, 2).unwrap();
    assert_eq!(c, 5);
}

#[test]
fn word_motions_cross_lines() {
    let b = buf("foo.bar baz\nqux\n");
    assert_eq!(resolve(&b, 0, 0, Motion::WordFwd(false), 1), Some((0, 3, Span::Exclusive)));
    assert_eq!(resolve(&b, 0, 0, Motion::WordFwd(true), 1), Some((0, 8, Span::Exclusive)));
    assert_eq!(resolve(&b, 0, 8, Motion::WordFwd(false), 1), Some((1, 0, Span::Exclusive)));
    assert_eq!(resolve(&b, 0, 0, Motion::WordEndFwd(false), 1), Some((0, 2, Span::Inclusive)));
    assert_eq!(resolve(&b, 1, 0, Motion::WordBack(false), 1), Some((0, 8, Span::Exclusive)));
    assert_eq!(resolve(&b, 0, 8, Motion::WordBack(true), 2), Some((0, 0, Span::Exclusive)));
}

#[test]
fn line_motions() {
    let b = buf("  one\ntwo\n\nthree\n");
    assert_eq!(resolve(&b, 0, 4, Motion::LineStart, 1), Some((0, 0, Span::Exclusive)));
    assert_eq!(resolve(&b, 0, 4, Motion::FirstNonBlank, 1), Some((0, 2, Span::Exclusive)));
    assert_eq!(resolve(&b, 0, 0, Motion::LineEnd, 1), Some((0, 4, Span::Inclusive)));
    assert_eq!(resolve(&b, 0, 0, Motion::LineEnd, 2), Some((1, 2, Span::Inclusive)));
    assert_eq!(resolve(&b, 0, 1, Motion::Down, 2), Some((2, 1, Span::Linewise)));
    assert_eq!(resolve(&b, 3, 1, Motion::Up, 9), Some((0, 1, Span::Linewise)));
    assert_eq!(resolve(&b, 1, 0, Motion::FileStart, 1), Some((0, 2, Span::Linewise)));
    assert_eq!(resolve(&b, 0, 0, Motion::FileEnd, 1), Some((3, 0, Span::Linewise)));
    assert_eq!(resolve(&b, 0, 0, Motion::GotoLine(2), 1), Some((1, 0, Span::Linewise)));
    assert_eq!(resolve(&b, 0, 0, Motion::GotoLine(99), 1), Some((3, 0, Span::Linewise)));
    assert_eq!(resolve(&b, 0, 0, Motion::ParaFwd, 1), Some((2, 0, Span::Exclusive)));
    assert_eq!(resolve(&b, 3, 0, Motion::ParaBack, 1), Some((2, 0, Span::Exclusive)));
    assert_eq!(resolve(&b, 3, 0, Motion::ParaBack, 2), Some((0, 0, Span::Exclusive)));
}

#[test]
fn char_motions_step_over_clusters() {
    let b = buf("ae\u{301}x\n");
    assert_eq!(resolve(&b, 0, 0, Motion::Right, 1), Some((0, 1, Span::Exclusive)));
    assert_eq!(resolve(&b, 0, 1, Motion::Right, 1), Some((0, 3, Span::Exclusive)));
    assert_eq!(resolve(&b, 0, 3, Motion::Left, 1), Some((0, 1, Span::Exclusive)));
    assert_eq!(resolve(&b, 0, 3, Motion::Right, 5), Some((0, 4, Span::Exclusive)));
}

#[test]
fn find_char_forward_and_backward() {
    let b = buf("a,b,c,d\n");
    let f = |ch, before, forward| Motion::FindChar { ch, before, forward };
    assert_eq!(resolve(&b, 0, 0, f(',', false, true), 2), Some((0, 3, Span::Inclusive)));
    assert_eq!(resolve(&b, 0, 0, f(',', true, true), 1), Some((0, 0, Span::Inclusive)));
    assert_eq!(resolve(&b, 0, 0, f('z', false, true), 1), None);
    assert_eq!(resolve(&b, 0, 6, f(',', false, false), 1), Some((0, 5, Span::Exclusive)));
    assert_eq!(resolve(&b, 0, 6, f(',', true, false), 2), Some((0, 4, Span::Exclusive)));
    assert_eq!(resolve(&b, 0, 6, f(',', false, false), 9), None);
}
