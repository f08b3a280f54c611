use vaayu::completion::{is_word_char, kind_label, words, Source};

#[test]
fn completion_match_is_case_insensitive_and_fuzzy() {
    assert!(vaayu::completion::matches("from_millis", "from_"));
    assert!(vaayu::completion::matches("from_millis", "fm"));
    assert!(vaayu::completion::matches("Duration", "dur"));
    assert!(!vaayu::completion::matches("ZERO", "from_"));
    assert!(!vaayu::completion::matches("new", "from_"));
}

#[test]
fn kind_label_maps_known_lsp_completion_item_kinds() {
    assert_eq!(kind_label(3), "fn");
    assert_eq!(kind_label(6), "var");
    assert_eq!(kind_label(7), "class");
    assert_eq!(kind_label(14), "keyword");
}

#[test]
fn kind_label_falls_back_for_an_unknown_kind() {
    assert_eq!(kind_label(0), "lsp");
    assert_eq!(kind_label(999), "lsp");
}

#[test]
fn kind_label_covers_both_ends_of_the_table() {
    assert_eq!(kind_label(1), "text");
    assert_eq!(kind_label(20), "enum member");
    assert_eq!(kind_label(25), "type param");
    assert_eq!(kind_label(26), "lsp");
}

#[test]
fn word_chars_are_alphanumerics_and_underscore() {
    assert!(is_word_char('a'));
    assert!(is_word_char('Z'));
    assert!(is_word_char('7'));
    assert!(is_word_char('_'));
    assert!(is_word_char('é'));
    assert!(!is_word_char('-'));
    assert!(!is_word_char(' '));
}

#[test]
fn matching_needs_the_prefix_in_order() {
    assert!(vaayu::completion::matches("anything", ""));
    assert!(!vaayu::completion::matches("", "a"));
    assert!(!vaayu::completion::matches("ba", "ab"));
    assert!(vaayu::completion::matches("ÄBC", "äb"));
}

#[test]
fn words_are_split_at_non_word_chars_and_deduplicated() {
    assert_eq!(
        words("foo(bar, foo_2) + bar"),
        vec!["foo".to_string(), "bar".to_string(), "foo_2".to_string()]
    );
    assert!(words("  ,;  ").is_empty());
    assert_eq!(words("x"), vec!["x".to_string()]);
}

#[test]
fn completion_sources_compare_by_variant() {
    assert_eq!(Source::Buffer, Source::Buffer);
    assert_ne!(Source::Lsp, Source::Path);
}
