use vaayu::config::Autocmd;
use vaayu::events::{autocmd_applies, glob_match, glob_regex, Event};

#[test]
fn event_names_round_trip_case_insensitively() {
    assert_eq!(Event::BufWritePost.name(), "BufWritePost");
    assert_eq!(Event::from_name("bufenter"), Some(Event::BufEnter));
    assert_eq!(Event::from_name("FILETYPE"), Some(Event::FileType));
    assert_eq!(Event::from_name("Nope"), None);
}

#[test]
fn globs_translate_to_anchored_regexes() {
    assert_eq!(glob_regex("*.rs"), "^.*\\.rs$");
    assert_eq!(glob_regex("a?c"), "^a.c$");
    assert!(glob_match("*", "anything"));
    assert!(glob_match("*.rs", "main.rs"));
    assert!(!glob_match("*.rs", "main.py"));
}

#[test]
fn autocmds_match_event_and_pattern() {
    let a = Autocmd { event: "BufWritePost".to_string(), pattern: "*.rs".to_string(), command: "echo".to_string() };
    assert!(autocmd_applies(&a, Event::BufWritePost, "main.rs", "/p/main.rs"));
    assert!(!autocmd_applies(&a, Event::BufEnter, "main.rs", "/p/main.rs"));
    assert!(!autocmd_applies(&a, Event::BufWritePost, "main.py", "/p/main.py"));
}
