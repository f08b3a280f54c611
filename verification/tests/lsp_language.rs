use vaayu::language::{language, root, utf16_col, utf16_to_col};
use vaayu::lsp::{candidates_for, lang_id_for_extension};

#[test]
fn utf16_columns_count_surrogate_pairs() {
    assert_eq!(utf16_col("a😀b", 2), 3);
    assert_eq!(utf16_col("abc", 99), 3);
    assert_eq!(utf16_to_col("a😀b", 3), 2);
    assert_eq!(utf16_to_col("a😀b", 2), 1);
    assert_eq!(utf16_to_col("ab", 9), 2);
}

#[test]
fn languages_from_file_names() {
    assert_eq!(language("main.RS"), Some("rust"));
    assert_eq!(language("a.tsx"), Some("typescript"));
    assert_eq!(language(".bashrc"), None);
    assert_eq!(language("Makefile"), None);
    assert_eq!(language("x.unknown"), None);
    assert_eq!(lang_id_for_extension("yml"), Some("yaml"));
}

#[test]
fn server_candidates_per_language() {
    assert_eq!(candidates_for("rust"), vec![vec!["rust-analyzer"]]);
    assert_eq!(candidates_for("python").len(), 3);
    assert!(candidates_for("cobol").is_empty());
}

#[test]
fn project_root_is_the_nearest_marked_ancestor() {
    let dirs = vec!["/p/src".to_string(), "/p".to_string(), "/".to_string()];
    assert_eq!(root(&dirs, &[false, true, true]), "/p");
    assert_eq!(root(&dirs, &[false, false, false]), "/p/src");
}

#[test]
fn utf16_offsets_convert_back_to_columns() {
    let s = "a\u{1F600}b";
    for c in 0..5 {
        assert_eq!(utf16_to_col(s, utf16_col(s, c)), c.min(3));
    }
}
