use vaayu::buffer::{Buffer, FileFormat};
use vaayu::command::{plan_ex, ExPlan, SetFlag, SetNumber};
use vaayu::ex::{run_ex, run_plan, ExOutcome, ExState};

fn buf(text: &str) -> Buffer {
    let mut b = Buffer::empty(1);
    b.rope = ropey::Rope::from_str(text);
    b.mark_saved();
    b
}

fn state() -> ExState {
    ExState { ignorecase: false, smartcase: false, last_search: None }
}

fn text(b: &Buffer) -> String {
    b.rope.to_string()
}

fn run(b: &mut Buffer, st: &mut ExState, raw: &str) -> ExOutcome {
    run_ex(b, st, &[], None, raw)
}

fn message(o: ExOutcome) -> String {
    match o {
        ExOutcome::Done(m) => m,
        _ => panic!("expected a message"),
    }
}

#[test]
fn bare_address_moves_to_first_non_blank() {
    let mut b = buf("a\n   b\nc\n");
    let mut st = state();
    assert_eq!(message(run(&mut b, &mut st, "2")), "");
    assert_eq!((b.cursor_line, b.cursor_col), (1, 3));
}

#[test]
fn substitute_over_a_range_is_one_undo_step() {
    let mut b = buf("foo\nfoo foo\nbar\n");
    let mut st = state();
    assert_eq!(message(run(&mut b, &mut st, "%s/foo/x/g")), "substitution complete");
    assert_eq!(text(&b), "x\nx x\nbar\n");
    assert!(b.undo());
    assert_eq!(text(&b), "foo\nfoo foo\nbar\n");
    assert!(!b.undo());
}

#[test]
fn substitute_without_range_takes_the_cursor_line() {
    let mut b = buf("foo\nfoo\n");
    b.cursor_line = 1;
    let mut st = state();
    assert_eq!(message(run(&mut b, &mut st, "s/foo/bar/")), "substitution complete");
    assert_eq!(text(&b), "foo\nbar\n");
    assert_eq!((b.cursor_line, b.cursor_col), (1, 0));
}

#[test]
fn undo_of_substitute_restores_the_cursor() {
    let mut b = buf("a\nfoo\n  c\n");
    b.cursor_line = 2;
    b.cursor_col = 2;
    let mut st = state();
    run(&mut b, &mut st, "2s/foo/bar/");
    b.cursor_line = 0;
    b.cursor_col = 0;
    assert!(b.undo());
    assert_eq!((b.cursor_line, b.cursor_col), (2, 2));
}

#[test]
fn substitute_that_matches_nothing_reports_the_pattern() {
    let mut b = buf("abc\n");
    let mut st = state();
    assert_eq!(message(run(&mut b, &mut st, "s/zz/y/")), "pattern not found: zz");
    assert_eq!(text(&b), "abc\n");
    assert!(!b.undo());
}

#[test]
fn substitute_errors_leave_the_buffer() {
    let mut b = buf("abc\n");
    let mut st = state();
    assert_eq!(message(run(&mut b, &mut st, "s")), "E486: pattern required");
    assert_eq!(message(run(&mut b, &mut st, "s/abc")), "E486: incomplete substitute");
    assert_eq!(message(run(&mut b, &mut st, "s//x/")), "E35: no previous regular expression");
    assert_eq!(message(run(&mut b, &mut st, "s/a/b/q")), "unsupported substitute flag (supported: g i I)");
    assert_eq!(text(&b), "abc\n");
}

#[test]
fn empty_pattern_reuses_the_last_search() {
    let mut b = buf("abc\n");
    let mut st = ExState { ignorecase: false, smartcase: false, last_search: Some("b".to_string()) };
    assert_eq!(message(run(&mut b, &mut st, "s//X/")), "substitution complete");
    assert_eq!(text(&b), "aXc\n");
    assert_eq!(message(run(&mut b, &mut st, "s//X/")), "pattern not found: b");
}

#[test]
fn set_ignorecase_changes_what_substitute_matches() {
    let mut b = buf("ABC\n");
    let mut st = state();
    assert!(matches!(run(&mut b, &mut st, "set ic"), ExOutcome::Flag(SetFlag::IgnoreCase, true)));
    assert!(st.ignorecase);
    assert_eq!(message(run(&mut b, &mut st, "s/b/x/")), "substitution complete");
    assert_eq!(text(&b), "AxC\n");
}

#[test]
fn set_buffer_options() {
    let mut b = buf("a\n");
    let mut st = state();
    assert!(matches!(run(&mut b, &mut st, "set ts=8"), ExOutcome::Number(SetNumber::Tabstop, 8)));
    assert_eq!(b.tabstop, 8);
    assert!(matches!(run(&mut b, &mut st, "set sw=2"), ExOutcome::Number(SetNumber::ShiftWidth, 2)));
    assert_eq!(b.shiftwidth, 2);
    assert!(matches!(run(&mut b, &mut st, "set noet"), ExOutcome::Flag(SetFlag::ExpandTab, false)));
    assert!(!b.expandtab);
    assert_eq!(message(run(&mut b, &mut st, "set ff=dos")), "fileformat=dos (write to apply)");
    assert_eq!(b.fileformat, FileFormat::Dos);
    assert_eq!(message(run(&mut b, &mut st, "set ff?")), "fileformat=dos");
    assert!(matches!(run(&mut b, &mut st, "set cc=80"), ExOutcome::ColorColumn(80)));
    assert_eq!(message(run(&mut b, &mut st, "set ts=x")), "Unknown or invalid :set option: ts=x");
    assert!(message(run(&mut b, &mut st, "set")).starts_with("Supported: [no]wrap"));
}

#[test]
fn earlier_and_later_count_the_steps_taken() {
    let mut b = buf("a\n");
    let mut st = state();
    run(&mut b, &mut st, "s/a/b/");
    run(&mut b, &mut st, "s/b/c/");
    assert_eq!(text(&b), "c\n");
    assert_eq!(message(run(&mut b, &mut st, "earlier 5")), "2 changes earlier");
    assert_eq!(text(&b), "a\n");
    assert_eq!(message(run(&mut b, &mut st, "earlier")), "0 changes earlier");
    assert_eq!(message(run(&mut b, &mut st, "lat")), "1 change later");
    assert_eq!(text(&b), "b\n");
    assert_eq!(message(run(&mut b, &mut st, "later 0")), "1 change later");
    assert_eq!(text(&b), "c\n");
}

#[test]
fn quit_is_refused_with_unsaved_changes() {
    let mut b = buf("a\n");
    let mut st = state();
    assert!(matches!(run(&mut b, &mut st, "q"), ExOutcome::Quit));
    run(&mut b, &mut st, "s/a/b/");
    assert_eq!(
        message(run(&mut b, &mut st, "q")),
        "unsaved changes in [No Name] -- use :qa! to discard or :wqa to save all"
    );
    assert!(matches!(run(&mut b, &mut st, "q!"), ExOutcome::Quit));
    assert!(matches!(run(&mut b, &mut st, "qa!"), ExOutcome::Quit));
    assert!(matches!(run(&mut b, &mut st, "wqa"), ExOutcome::Write { target: None, force: false, quit_after: true }));
}

#[test]
fn write_and_edit_commands_name_the_work() {
    let mut b = buf("a\n");
    let mut st = state();
    assert!(matches!(run(&mut b, &mut st, "w"), ExOutcome::Write { target: None, force: false, quit_after: false }));
    match run(&mut b, &mut st, "w  out.txt ") {
        ExOutcome::Write { target: Some(t), force: false, quit_after: false } => assert_eq!(t, "out.txt"),
        _ => panic!("expected a write to out.txt"),
    }
    assert!(matches!(run(&mut b, &mut st, "w!"), ExOutcome::Write { target: None, force: true, quit_after: false }));
    assert!(matches!(run(&mut b, &mut st, "x"), ExOutcome::Write { target: None, force: false, quit_after: true }));
    assert!(matches!(run(&mut b, &mut st, "wqa"), ExOutcome::Quit));
    assert_eq!(message(run(&mut b, &mut st, "e")), "E32: no file name");
    assert!(matches!(run(&mut b, &mut st, "e!"), ExOutcome::Reload));
    match run(&mut b, &mut st, "edit other.rs") {
        ExOutcome::Open(p) => assert_eq!(p, "other.rs"),
        _ => panic!("expected an open"),
    }
}

#[test]
fn other_commands_pass_to_the_editor() {
    let mut b = buf("a\nb\n");
    let mut st = state();
    match run(&mut b, &mut st, "1,2fold") {
        ExOutcome::Pass { name, rest, range } => {
            assert_eq!(name, "fold");
            assert_eq!(rest, "");
            assert_eq!(range, Some((0, 1)));
        }
        _ => panic!("expected a pass"),
    }
    assert_eq!(text(&b), "a\nb\n");
}

#[test]
fn far_and_range_errors_become_messages() {
    let mut b = buf("a\n");
    let mut st = state();
    assert_eq!(message(run(&mut b, &mut st, "'z")), "E20: mark not set: z");
    match run(&mut b, &mut st, "cfar /foo/bar/") {
        ExOutcome::Far { body, pattern } => {
            assert_eq!(body, "s/foo/bar/");
            assert_eq!(pattern, "foo");
        }
        _ => panic!("expected a far plan"),
    }
}

#[test]
fn run_plan_runs_a_planned_command() {
    let mut b = buf("x\n  y\n");
    let mut st = state();
    let plan = plan_ex(b.line_count(), 0, &[], None, "$");
    assert!(matches!(plan, ExPlan::Goto(1)));
    assert_eq!(message(run_plan(&mut b, &mut st, plan)), "");
    assert_eq!((b.cursor_line, b.cursor_col), (1, 2));
}

#[test]
fn later_n_after_earlier_n_gives_the_text_back() {
    let mut b = buf("one\n");
    let mut st = state();
    run(&mut b, &mut st, "s/one/two/");
    run(&mut b, &mut st, "s/two/three/");
    run(&mut b, &mut st, "s/three/four/");
    assert_eq!(message(run(&mut b, &mut st, "ea 2")), "2 changes earlier");
    assert_eq!(text(&b), "two\n");
    assert_eq!(message(run(&mut b, &mut st, "later 2")), "2 changes later");
    assert_eq!(text(&b), "four\n");
    assert_eq!(message(run(&mut b, &mut st, "earlier 3")), "3 changes earlier");
    assert_eq!(text(&b), "one\n");
}
