use vaayu::command::{cmdline_key, CmdlineStep};
use vaayu::key::Key;
use vaayu::command::{buffer_target, ex_count, plan_ex, BufferStep, ExPlan};

fn plan(raw: &str) -> ExPlan {
    plan_ex(10, 4, &[('a', 2)], None, raw)
}

#[test]
fn blank_command_does_nothing() {
    assert!(matches!(plan("   "), ExPlan::Nothing));
}

#[test]
fn bare_address_goes_to_its_line_clamped() {
    assert!(matches!(plan("$"), ExPlan::Goto(9)));
    assert!(matches!(plan(":+3".trim_start_matches(':')), ExPlan::Goto(7)));
    assert!(matches!(plan("99"), ExPlan::Goto(9)));
    assert!(matches!(plan("'a"), ExPlan::Goto(2)));
    assert!(matches!(plan("2,5"), ExPlan::Goto(4)));
}

#[test]
fn unset_mark_fails() {
    match plan("'z,$d") {
        ExPlan::Fail(m) => assert_eq!(m, "E20: mark not set: z"),
        _ => panic!("expected a failure"),
    }
}

#[test]
fn substitute_gets_explicit_or_visual_range() {
    match plan("%s/a/b/g") {
        ExPlan::Substitute { body, range } => {
            assert_eq!(body, "s/a/b/g");
            assert_eq!(range, Some((0, 9)));
        }
        _ => panic!("expected a substitute"),
    }
    match plan_ex(10, 4, &[], Some(7), "s/x/y/") {
        ExPlan::Substitute { body, range } => {
            assert_eq!(body, "s/x/y/");
            assert_eq!(range, Some((4, 7)));
        }
        _ => panic!("expected a substitute"),
    }
    match plan_ex(10, 4, &[], Some(1), "2,3s#x#y#") {
        ExPlan::Substitute { range, .. } => assert_eq!(range, Some((1, 2))),
        _ => panic!("expected a substitute"),
    }
}

#[test]
fn far_forms_take_their_body() {
    match plan("cfar /a/b/") {
        ExPlan::Far(b) => assert_eq!(b, " /a/b/"),
        _ => panic!("expected far"),
    }
    match plan("cfar/a/b/") {
        ExPlan::Far(b) => assert_eq!(b, "/a/b/"),
        _ => panic!("expected far"),
    }
}

#[test]
fn other_commands_run_by_name() {
    match plan("  set wrap ") {
        ExPlan::Run { name, rest, range } => {
            assert_eq!(name, "set");
            assert_eq!(rest, " wrap");
            assert_eq!(range, None);
        }
        _ => panic!("expected a command"),
    }
    match plan(".,+2fold") {
        ExPlan::Run { name, rest, range } => {
            assert_eq!(name, "fold");
            assert_eq!(rest, "");
            assert_eq!(range, Some((4, 6)));
        }
        _ => panic!("expected a command"),
    }
    match plan("sort") {
        ExPlan::Run { name, .. } => assert_eq!(name, "sort"),
        _ => panic!("sort is not a substitute"),
    }
}

#[test]
fn ex_counts_default_and_floor() {
    assert_eq!(ex_count(" 4 ", 1, true), 4);
    assert_eq!(ex_count("", 1, true), 1);
    assert_eq!(ex_count("0", 1, true), 1);
    assert_eq!(ex_count("x", 3, false), 3);
    assert_eq!(ex_count("0", 3, false), 0);
}

#[test]
fn ex_counts_read_numbers_as_usize_parsing_does() {
    assert_eq!(ex_count("+7", 1, false), 7);
    assert_eq!(ex_count("+", 2, false), 2);
    assert_eq!(ex_count("-3", 2, false), 2);
    assert_eq!(ex_count("12a", 2, false), 2);
    assert_eq!(ex_count("18446744073709551615", 2, false), usize::MAX);
    assert_eq!(ex_count("18446744073709551616", 2, false), 2);
    assert_eq!(ex_count("\u{3000}9\u{2028}", 2, false), 9);
}

#[test]
fn buffer_steps_wrap_and_skip_current() {
    assert_eq!(buffer_target(BufferStep::Next, 3, 2), Some(0));
    assert_eq!(buffer_target(BufferStep::Prev, 3, 0), Some(2));
    assert_eq!(buffer_target(BufferStep::Prev, 3, 2), Some(1));
    assert_eq!(buffer_target(BufferStep::Next, 1, 0), None);
    assert_eq!(buffer_target(BufferStep::Number(2), 3, 0), Some(1));
    assert_eq!(buffer_target(BufferStep::Number(1), 3, 0), None);
    assert_eq!(buffer_target(BufferStep::Number(4), 3, 0), None);
    assert_eq!(buffer_target(BufferStep::Number(0), 3, 0), None);
}

use vaayu::buffer::FileFormat;
use vaayu::command::{set_action, SetAction, SetFlag, SetNumber};

#[test]
fn set_flags_on_and_off() {
    assert!(matches!(set_action(" wrap "), SetAction::Flag(SetFlag::Wrap, true)));
    assert!(matches!(set_action("nocul"), SetAction::Flag(SetFlag::CursorLine, false)));
    assert!(matches!(set_action("laststatus3"), SetAction::Flag(SetFlag::GlobalStatusline, true)));
    assert!(matches!(set_action("nogstl"), SetAction::Flag(SetFlag::GlobalStatusline, false)));
    assert!(matches!(set_action("et"), SetAction::Flag(SetFlag::ExpandTab, true)));
    assert!(matches!(set_action("todo"), SetAction::Flag(SetFlag::TodoHighlight, true)));
}

#[test]
fn set_values() {
    assert!(matches!(set_action("cc=80"), SetAction::ColorColumn(80)));
    assert!(matches!(set_action("colorcolumn="), SetAction::ColorColumn(0)));
    match set_action("cc=x") {
        SetAction::Error(m) => assert_eq!(m, "colorcolumn must be a number (0 disables)"),
        _ => panic!("expected an error"),
    }
    assert!(matches!(set_action("ff?"), SetAction::ShowFileFormat));
    assert!(matches!(set_action("fileformat=dos"), SetAction::SetFileFormat(FileFormat::Dos)));
    match set_action("ff=win") {
        SetAction::Error(m) => assert_eq!(m, "fileformat must be unix, dos, or mac"),
        _ => panic!("expected an error"),
    }
    assert!(matches!(set_action("ts=4"), SetAction::Number(SetNumber::Tabstop, 4)));
    assert!(matches!(set_action("so=0"), SetAction::Number(SetNumber::ScrollOff, 0)));
    match set_action("ts=0") {
        SetAction::Error(m) => assert_eq!(m, "Unknown or invalid :set option: ts=0"),
        _ => panic!("expected an error"),
    }
    match set_action("bogus=1") {
        SetAction::Error(m) => assert_eq!(m, "Unknown or invalid :set option: bogus=1"),
        _ => panic!("expected an error"),
    }
    assert!(matches!(set_action("bogus"), SetAction::Usage));
}

use vaayu::command::range_in_bounds;

#[test]
fn range_bounds_catch_overflowing_numbers() {
    assert!(range_in_bounds(10, 4, &[], "5,$d"));
    assert!(range_in_bounds(10, 4, &[], "%s/a/b/"));
    assert!(range_in_bounds(10, 4, &[], "set wrap"));
    assert!(range_in_bounds(10, 4, &[], "9223372036854775807"));
    assert!(!range_in_bounds(10, 4, &[], "99999999999999999999"));
    assert!(!range_in_bounds(10, 4, &[], ".+9223372036854775807"));
    assert!(!range_in_bounds(10, 4, &[], "1,+99999999999999999999"));
    assert!(range_in_bounds(10, 4, &[('a', 3)], "'a+2"));
}

use vaayu::command::{far_files, far_plan};

#[test]
fn far_bodies_are_normalized_and_checked() {
    assert_eq!(far_plan(" /foo/bar/g "), Ok(("s/foo/bar/g".to_string(), "foo".to_string())));
    assert_eq!(far_plan("s#a+#b#"), Ok(("s#a+#b#".to_string(), "a+".to_string())));
    assert_eq!(far_plan(""), Err("E486: pattern required".to_string()));
    assert_eq!(far_plan("/foo"), Err("E486: incomplete substitute (need cfar/pat/repl/)".to_string()));
    assert_eq!(far_plan("//x/"), Err("E486: incomplete substitute (need cfar/pat/repl/)".to_string()));
    match far_plan("/a(/b/") {
        Err(m) => assert_eq!(m, "bad pattern: a("),
        Ok(_) => panic!("an unclosed group must be refused"),
    }
}

#[test]
fn far_files_are_listed_once_in_order() {
    let paths = vec![
        Some("a.rs".to_string()),
        None,
        Some("b.rs".to_string()),
        Some("a.rs".to_string()),
        Some("c.rs".to_string()),
    ];
    assert_eq!(far_files(&paths), vec!["a.rs".to_string(), "b.rs".to_string(), "c.rs".to_string()]);
    assert!(far_files(&Vec::new()).is_empty());
}

#[test]
fn command_line_keys_edit_run_and_browse() {
    let mut line = String::new();
    let mut hist: Vec<String> = vec!["w".to_string()];
    let mut browse: Option<usize> = None;
    let mut draft = String::new();
    assert!(matches!(cmdline_key(&mut line, &mut hist, &mut browse, &mut draft, Key::Char('s')), CmdlineStep::Edit));
    assert!(matches!(cmdline_key(&mut line, &mut hist, &mut browse, &mut draft, Key::Char('e')), CmdlineStep::Edit));
    assert_eq!(line, "se");
    cmdline_key(&mut line, &mut hist, &mut browse, &mut draft, Key::Up);
    assert_eq!((line.as_str(), browse, draft.as_str()), ("w", Some(0), "se"));
    cmdline_key(&mut line, &mut hist, &mut browse, &mut draft, Key::Ctrl('n'));
    assert_eq!((line.as_str(), browse, draft.as_str()), ("se", None, ""));
    assert!(matches!(cmdline_key(&mut line, &mut hist, &mut browse, &mut draft, Key::Backspace), CmdlineStep::Edit));
    assert_eq!(line, "s");
    assert!(matches!(cmdline_key(&mut line, &mut hist, &mut browse, &mut draft, Key::Tab), CmdlineStep::Complete(true)));
    match cmdline_key(&mut line, &mut hist, &mut browse, &mut draft, Key::Enter) {
        CmdlineStep::Submit(l) => assert_eq!(l, "s"),
        _ => panic!("Enter runs the line"),
    }
    assert_eq!(line, "");
    assert_eq!(hist, vec!["w".to_string(), "s".to_string()]);
    assert!(matches!(cmdline_key(&mut line, &mut hist, &mut browse, &mut draft, Key::Backspace), CmdlineStep::Cancel));
    line.push('x');
    assert!(matches!(cmdline_key(&mut line, &mut hist, &mut browse, &mut draft, Key::Esc), CmdlineStep::Cancel));
    assert_eq!(line, "");
}
