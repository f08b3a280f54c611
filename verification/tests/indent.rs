use vaayu::indent::{
    detect, editorconfig, editorconfig_eol, editorconfig_extras, glob_matches, is_root, modeline,
    parse_bool, parse_editorconfig, resolve, IndentSource, Partial,
};
use vaayu::buffer::FileFormat;

fn chars(s: &str) -> Vec<char> {
    s.chars().collect()
}

#[test]
fn falls_back_to_config_default() {
    let s = resolve(&[], None, "plain text\nno hints\n", 4, 4, true);
    assert_eq!(s.source, IndentSource::Default);
    assert_eq!(s.shiftwidth, 4);
    assert!(s.expandtab);
}

#[test]
fn detects_two_space_indent() {
    let text = "fn f() {\n  a();\n  if x {\n    b();\n  }\n}\n";
    let s = resolve(&[], None, text, 4, 4, true);
    assert_eq!(s.source, IndentSource::Detected);
    assert!(s.expandtab);
    assert_eq!(s.shiftwidth, 2);
}

#[test]
fn detects_tabs() {
    let text = "fn f() {\n\ta();\n\tif x {\n\t\tb();\n\t}\n}\n";
    let s = resolve(&[], None, text, 4, 4, true);
    assert_eq!(s.source, IndentSource::Detected);
    assert!(!s.expandtab);
}

#[test]
fn modeline_overrides_detection() {
    let text = "a\nb\n// vim: set sw=2 ts=2 et:\n";
    let s = resolve(&[], None, text, 4, 4, true);
    assert_eq!(s.source, IndentSource::Modeline);
    assert_eq!(s.shiftwidth, 2);
    assert_eq!(s.tabstop, 2);
    assert!(s.expandtab);
}

#[test]
fn modeline_noexpandtab() {
    let text = "// vi: noet sw=8\n".to_string() + &"x\n".repeat(10);
    let s = resolve(&[], None, &text, 4, 4, true);
    assert_eq!(s.source, IndentSource::Modeline);
    assert!(!s.expandtab);
    assert_eq!(s.shiftwidth, 8);
}

#[test]
fn editorconfig_extras_reads_trim_final_and_maxlen() {
    let ec = vec!["root = true\n[*]\ntrim_trailing_whitespace = true\ninsert_final_newline = true\n\
             max_line_length = 100\n[*.md]\ntrim_trailing_whitespace = false\nmax_line_length = 0\n"
        .to_string()];
    let e = editorconfig_extras(&ec, "a.rs");
    assert_eq!(e.trim_trailing, Some(true));
    assert_eq!(e.final_newline, Some(true));
    assert_eq!(e.max_line_length, Some(100));
    let e = editorconfig_extras(&ec, "b.md");
    assert_eq!(e.trim_trailing, Some(false), "md keeps trailing ws");
    assert_eq!(e.final_newline, Some(true), "final newline inherited from [*]");
    assert_eq!(e.max_line_length, Some(0));
}

#[test]
fn editorconfig_end_of_line_maps_to_fileformat() {
    let ec = vec!["root = true\n[*]\nend_of_line = crlf\n[*.lf]\nend_of_line = lf\n".to_string()];
    assert_eq!(editorconfig_eol(&ec, "a.txt"), Some(FileFormat::Dos));
    assert_eq!(editorconfig_eol(&ec, "b.lf"), Some(FileFormat::Unix));
    assert_eq!(editorconfig_eol(&[], "zzz.txt"), None);
}

#[test]
fn editorconfig_overrides_detection() {
    let ec = vec!["root = true\n[*.rs]\nindent_style = space\nindent_size = 3\n".to_string()];
    let s = resolve(&ec, Some("f.rs"), "fn f() {\n\ta();\n}\n", 4, 4, true);
    assert_eq!(s.source, IndentSource::EditorConfig);
    assert!(s.expandtab);
    assert_eq!(s.shiftwidth, 3);
    assert_eq!(s.tabstop, 3);
}

#[test]
fn editorconfig_glob_does_not_match_other_extensions() {
    let ec = vec!["root = true\n[*.py]\nindent_style = space\nindent_size = 4\n".to_string()];
    let s = resolve(&ec, Some("f.rs"), "fn f() {\n\ta();\n}\n", 4, 4, true);
    assert_eq!(s.source, IndentSource::Detected);
}

#[test]
fn nearest_editorconfig_wins_and_root_stops_the_search() {
    let near = "[*]\nindent_size = 2\n".to_string();
    let far = "[*]\nindent_size = 8\n".to_string();
    let root = "root = true\n[*.c]\nindent_style = tab\n".to_string();
    let p = editorconfig(&[near.clone(), far.clone()], "x.rs").unwrap();
    assert_eq!(p.shiftwidth, Some(2));
    assert_eq!(editorconfig(&[root.clone(), far.clone()], "x.rs"), None);
    assert_eq!(editorconfig(&["# nothing\n".to_string(), far], "x.rs").unwrap().shiftwidth, Some(8));
}

#[test]
fn tab_width_defaults_to_indent_size() {
    let p = parse_editorconfig("[*]\nindent_size = 5\n", "a").unwrap();
    assert_eq!(p, Partial { tabstop: Some(5), shiftwidth: Some(5), expandtab: None });
    assert_eq!(parse_editorconfig("[*.x]\nindent_size = 5\n", "a"), None);
}

#[test]
fn small_parsers() {
    assert!(glob_matches(&chars("*"), &chars("anything")));
    assert!(glob_matches(&chars("*.rs"), &chars("main.rs")));
    assert!(!glob_matches(&chars("*.rs"), &chars("main.py")));
    assert!(glob_matches(&chars("Makefile"), &chars("Makefile")));
    assert_eq!(parse_bool(&chars("TRUE")), Some(true));
    assert_eq!(parse_bool(&chars("no")), None);
    assert!(is_root("# c\n  ROOT=TRUE \n"));
    assert!(!is_root("root = false\n"));
}

#[test]
fn modeline_and_detection_directly() {
    assert_eq!(modeline("x\n"), None);
    assert_eq!(modeline("/* vim: ts=3 */\n").unwrap().tabstop, Some(3));
    assert_eq!(detect("no indent\n"), None);
    assert_eq!(detect("  a\n    b\n").unwrap().shiftwidth, Some(2));
}
