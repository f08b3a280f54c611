use vaayu::buffer::Buffer;
use vaayu::completion::WordIndex;

fn buf(text: &str, line: usize, col: usize) -> Buffer {
    let mut b = Buffer::empty(1);
    b.rope = ropey::Rope::from_str(text);
    b.cursor_line = line;
    b.cursor_col = col;
    b
}

fn labels(items: &[vaayu::completion::Item]) -> Vec<String> {
    items.iter().map(|i| i.label.clone()).collect()
}

#[test]
fn word_index_offers_nearest_words_and_skips_the_word_under_the_cursor() {
    let b = buf("foo_bar foo\nfoo_baz\nfood\n", 2, 3);
    let mut ix = WordIndex::new(&b);
    let items = ix.candidates(&b, "foo", 2);
    assert_eq!(labels(&items), vec!["foo_baz".to_string(), "foo_bar".to_string()]);
    assert_eq!(items[0].insert_text, "foo_baz");
}

#[test]
fn word_index_keeps_cached_lines_until_the_line_count_changes() {
    let mut b = buf("foo_bar\nx\nfoo\n", 2, 3);
    let mut ix = WordIndex::new(&b);
    assert_eq!(labels(&ix.candidates(&b, "foo", 2)), vec!["foo_bar".to_string()]);
    // Same line count: line 0 stays cached as it was read.
    b.rope = ropey::Rope::from_str("zzz\nx\nfoo\n");
    assert_eq!(labels(&ix.candidates(&b, "foo", 2)), vec!["foo_bar".to_string()]);
    // Another line count: the index is rebuilt.
    b.rope = ropey::Rope::from_str("zzz\nx\nfoo\nfoo_qux\n");
    assert_eq!(labels(&ix.candidates(&b, "foo", 2)), vec!["foo_qux".to_string()]);
}

#[test]
fn word_index_drops_lines_far_from_the_cursor() {
    let mut text = String::from("far_word\n");
    for _ in 0..300 {
        text.push_str("x\n");
    }
    text.push_str("far\n");
    let b = buf(&text, 301, 3);
    let mut ix = WordIndex::new(&b);
    assert!(ix.candidates(&b, "far", 301).is_empty());
    let near = buf(&text, 1, 0);
    assert_eq!(labels(&ix.candidates(&near, "far", 1)), vec!["far_word".to_string()]);
}
