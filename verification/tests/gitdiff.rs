use vaayu::gitdiff::{spans_of_changes, ChangeKind, LineOp};
use vaayu::gitdiff::{word_diff_spans, GitGutter, Sign};

fn gutter(head: &str) -> GitGutter {
    GitGutter::with_head(Some(head.to_string()))
}

#[test]
fn word_diff_spans_highlights_only_the_changed_word() {
    let spans = word_diff_spans("let x = old_value;", "let x = new_value;");
    assert_eq!(spans, vec![(8, 18)]);
    assert_eq!(&"let x = new_value;"[8..18], "new_value;");
}

#[test]
fn word_diff_spans_is_empty_for_identical_lines() {
    assert_eq!(word_diff_spans("same line", "same line"), Vec::new());
}

#[test]
fn refresh_records_a_pure_deletion_anchored_at_the_next_surviving_line() {
    let mut g = gutter("a\nb\nc\nd\n");
    g.refresh("a\nd\n", 1);
    assert_eq!(
        g.deleted_before.get(&1),
        Some(&vec!["b".to_string(), "c".to_string()])
    );
    assert_eq!(g.signs.get(&1), Some(&Sign::Removed));
}

#[test]
fn refresh_pairs_replaced_lines_for_a_word_diff() {
    let mut g = gutter("one\ntwo\n");
    g.refresh("one\nTWO\n", 1);
    assert_eq!(g.word_diff.get(&1), Some(&vec![(0, 3)]));
    assert!(g.deleted_before.is_empty());
}

#[test]
fn refresh_anchors_a_replace_blocks_leftover_removed_lines_after_it() {
    let mut g = gutter("a\nb\nc\n");
    g.refresh("A\n", 1);
    assert_eq!(
        g.deleted_before.get(&0),
        Some(&vec!["b".to_string(), "c".to_string()])
    );
    assert!(g.word_diff.contains_key(&0));
}

#[test]
fn refresh_is_a_no_op_when_the_seq_is_unchanged() {
    let mut g = gutter("a\n");
    g.refresh("a\nb\n", 5);
    assert!(g.signs.contains_key(&1));
    g.refresh("a\n", 5);
    assert!(g.signs.contains_key(&1));
}

#[test]
fn a_file_without_a_head_blob_is_all_added() {
    let mut g = GitGutter::with_head(None);
    g.refresh("x\ny\n", 1);
    assert_eq!(g.signs.get(&0), Some(&Sign::Added));
    assert_eq!(g.signs.get(&1), Some(&Sign::Added));
    assert!(g.deleted_before.is_empty());
}

#[test]
fn a_new_seq_recomputes_from_scratch() {
    let mut g = gutter("a\n");
    g.refresh("a\nb\n", 1);
    assert_eq!(g.signs.get(&1), Some(&Sign::Added));
    g.refresh("a\n", 2);
    assert!(g.signs.is_empty());
}

#[test]
fn gutter_fills_from_given_line_ops() {
    let mut g = GitGutter::with_head(Some("a\nb\nc\n".to_string()));
    let ops = vec![
        LineOp::Equal { old_index: 0, new_index: 0, len: 1 },
        LineOp::Replace { old_index: 1, old_len: 1, new_index: 1, new_len: 1 },
        LineOp::Equal { old_index: 2, new_index: 2, len: 1 },
        LineOp::Insert { old_index: 3, new_index: 3, new_len: 1 },
    ];
    g.fill_from_ops("a\nB\nc\nd\n", &ops);
    assert_eq!(g.signs.get(&1), Some(&Sign::Modified));
    assert_eq!(g.signs.get(&3), Some(&Sign::Added));
    assert_eq!(g.signs.len(), 2);
    assert!(g.word_diff.contains_key(&1));
    let ops = vec![
        LineOp::Equal { old_index: 0, new_index: 0, len: 1 },
        LineOp::Delete { old_index: 1, old_len: 1, new_index: 1 },
        LineOp::Equal { old_index: 2, new_index: 1, len: 1 },
    ];
    g.fill_from_ops("a\nc\n", &ops);
    assert_eq!(g.signs.get(&1), Some(&Sign::Removed));
    assert_eq!(g.signs.len(), 1);
    assert_eq!(g.deleted_before.get(&1), Some(&vec!["b".to_string()]));
}

#[test]
fn inserted_word_runs_make_one_span() {
    let ch = vec![
        (ChangeKind::Equal, "foo ".to_string()),
        (ChangeKind::Delete, "bar".to_string()),
        (ChangeKind::Insert, "baz".to_string()),
        (ChangeKind::Insert, " qux".to_string()),
        (ChangeKind::Equal, " end".to_string()),
        (ChangeKind::Insert, "!".to_string()),
    ];
    assert_eq!(spans_of_changes(&ch), vec![(4, 11), (15, 16)]);
}
