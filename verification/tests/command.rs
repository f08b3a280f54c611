use vaayu::command::{
    history_step, is_far, is_path_command, is_substitute, parse_substitute_body, push_history,
    split_command, substitute_pattern,
};

#[test]
fn history_skips_blanks_and_repeats_and_is_capped() {
    let mut h: Vec<String> = Vec::new();
    push_history(&mut h, "w");
    push_history(&mut h, "w");
    push_history(&mut h, "");
    push_history(&mut h, "q");
    assert_eq!(h, vec!["w".to_string(), "q".to_string()]);
    for i in 0..250 {
        push_history(&mut h, &format!("cmd{i}"));
    }
    assert_eq!(h.len(), 200);
    assert_eq!(h[199], "cmd249");
}

#[test]
fn history_browsing_saves_and_restores_the_draft() {
    let hist = vec!["one".to_string(), "two".to_string()];
    let mut browse = None;
    let mut draft = String::new();
    let mut line = "typed".to_string();
    history_step(&hist, &mut browse, &mut draft, &mut line, true);
    assert_eq!((browse, line.as_str(), draft.as_str()), (Some(1), "two", "typed"));
    history_step(&hist, &mut browse, &mut draft, &mut line, true);
    assert_eq!((browse, line.as_str()), (Some(0), "one"));
    history_step(&hist, &mut browse, &mut draft, &mut line, true);
    assert_eq!(browse, Some(0));
    history_step(&hist, &mut browse, &mut draft, &mut line, false);
    history_step(&hist, &mut browse, &mut draft, &mut line, false);
    assert_eq!((browse, line.as_str(), draft.as_str()), (None, "typed", ""));
}

#[test]
fn command_names_are_classified() {
    assert_eq!(split_command("e  foo.rs"), ("e".to_string(), "  foo.rs".to_string()));
    assert_eq!(split_command("w"), ("w".to_string(), String::new()));
    assert!(is_path_command("vsplit"));
    assert!(!is_path_command("set"));
    assert!(is_substitute("s"));
    assert!(is_substitute("s/a/b/"));
    assert!(!is_substitute("sort"));
    assert!(is_far("cfar/a/b/"));
    assert!(!is_far("cfar"));
    assert!(!is_far("cfarx"));
}

#[test]
fn substitute_bodies_split_on_unescaped_delimiters() {
    assert_eq!(
        parse_substitute_body("s/a\\/b/c/g"),
        Some(("a/b".to_string(), "c".to_string(), "g".to_string()))
    );
    assert_eq!(parse_substitute_body("  s#x#y"), Some(("x".to_string(), "y".to_string(), String::new())));
    assert_eq!(parse_substitute_body("s/only"), None);
    assert_eq!(parse_substitute_body("sx/a/b"), None);
    assert_eq!(parse_substitute_body("s/a\\.b/c/"), Some(("a\\.b".to_string(), "c".to_string(), String::new())));
}

#[test]
fn in_progress_substitute_patterns() {
    assert_eq!(substitute_pattern("%s/fo\\/o/bar"), Some("fo\\/o".to_string()));
    assert_eq!(substitute_pattern("1,5s#x"), Some("x".to_string()));
    assert_eq!(substitute_pattern("set nu"), None);
    assert_eq!(substitute_pattern("s//"), None);
    assert_eq!(substitute_pattern("s"), None);
}

fn range(lc: usize, cur: usize, marks: &[(char, usize)], cmd: &str) -> Result<(Option<(usize, usize)>, String), String> {
    vaayu::command::parse_range(lc, cur, marks, cmd)
}

#[test]
fn ranges_percent_numbers_and_dot() {
    assert_eq!(range(10, 4, &[], "%d"), Ok((Some((0, 9)), "d".to_string())));
    assert_eq!(range(10, 4, &[], "  3,5p"), Ok((Some((2, 4)), "p".to_string())));
    assert_eq!(range(10, 4, &[], ".,+2s/a/b/"), Ok((Some((4, 6)), "s/a/b/".to_string())));
    assert_eq!(range(10, 4, &[], "$"), Ok((Some((9, 9)), String::new())));
    assert_eq!(range(10, 4, &[], "999"), Ok((Some((9, 9)), String::new())));
}

#[test]
fn ranges_semicolon_rebases_and_order_is_normalized() {
    assert_eq!(range(10, 0, &[], "5;+1"), Ok((Some((4, 5)), String::new())));
    assert_eq!(range(10, 0, &[], "5,+1"), Ok((Some((1, 4)), String::new())));
    assert_eq!(range(10, 3, &[], "+"), Ok((Some((4, 4)), String::new())));
    assert_eq!(range(10, 0, &[], "-"), Ok((Some((0, 0)), String::new())));
    assert_eq!(range(10, 3, &[], "2,"), Ok((Some((1, 1)), String::new())));
}

#[test]
fn ranges_marks_and_missing_ranges() {
    let marks = [('a', 2), ('b', 7)];
    assert_eq!(range(10, 0, &marks, "'a,'bd"), Ok((Some((2, 7)), "d".to_string())));
    assert_eq!(range(10, 0, &marks, "'z"), Err("E20: mark not set: z".to_string()));
    assert_eq!(range(10, 0, &marks, "'"), Err("E20: mark not set".to_string()));
    assert_eq!(range(10, 0, &marks, " w"), Ok((None, " w".to_string())));
}
