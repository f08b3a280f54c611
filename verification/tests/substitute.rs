use vaayu::substitute::substitute_lines;

fn lines(ls: &[&str]) -> Vec<String> {
    ls.iter().map(|s| s.to_string()).collect()
}

#[test]
fn substitute_replaces_the_first_match_or_all_with_g() {
    let r = substitute_lines(&lines(&["a a", "b"]), 4, "a", "x", "", false, false, None).unwrap();
    assert_eq!(r, vec![(4, "a a".to_string(), "x a".to_string()), (5, "b".to_string(), "b".to_string())]);
    let r = substitute_lines(&lines(&["a a"]), 0, "a", "x", "g", false, false, None).unwrap();
    assert_eq!(r[0].2, "x x");
}

#[test]
fn substitute_case_rules() {
    let r = substitute_lines(&lines(&["Foo foo"]), 0, "foo", "x", "g", true, false, None).unwrap();
    assert_eq!(r[0].2, "x x", "ignorecase");
    let r = substitute_lines(&lines(&["Foo foo"]), 0, "Foo", "x", "g", true, true, None).unwrap();
    assert_eq!(r[0].2, "x foo", "smartcase: an upper-case char matches case");
    let r = substitute_lines(&lines(&["Foo foo"]), 0, "foo", "x", "gI", true, false, None).unwrap();
    assert_eq!(r[0].2, "Foo x", "I keeps case");
    let r = substitute_lines(&lines(&["Foo"]), 0, "foo", "x", "i", false, false, None).unwrap();
    assert_eq!(r[0].2, "x");
}

#[test]
fn substitute_expands_groups_and_reports_errors() {
    let r = substitute_lines(&lines(&["ab"]), 0, "(a)(b)", "$2$1", "", false, false, None).unwrap();
    assert_eq!(r[0].2, "ba");
    assert_eq!(
        substitute_lines(&lines(&["a"]), 0, "a", "x", "gz", false, false, None),
        Err("unsupported substitute flag (supported: g i I)".to_string())
    );
    let e = substitute_lines(&lines(&["a"]), 0, "(", "x", "", false, false, None).unwrap_err();
    assert!(e.starts_with("bad pattern: "), "{e}");
}

#[test]
fn empty_pattern_reuses_the_last_search_or_is_refused() {
    let r = substitute_lines(&lines(&["a b"]), 0, "", "x", "", false, false, Some("b")).unwrap();
    assert_eq!(r[0].2, "a x");
    assert_eq!(
        substitute_lines(&lines(&["a"]), 0, "", "x", "zz", false, false, None),
        Err("E35: no previous regular expression".to_string())
    );
}
