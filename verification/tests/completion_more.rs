use vaayu::completion::batch_items;
use vaayu::buffer::Buffer;
use vaayu::completion::{buffer_word_candidates, path_candidates, path_parts, path_prefix, word_prefix, Source};

fn buf(text: &str) -> Buffer {
    let mut b = Buffer::empty(1);
    b.rope = ropey::Rope::from_str(text);
    b
}

#[test]
fn path_prefix_captures_the_whole_partial_path() {
    let b = buf("src/fo\n");
    assert_eq!(path_prefix(&b, 0, 6), Some((0, "src/fo".to_string())));
}

#[test]
fn path_prefix_is_none_without_a_slash() {
    let b = buf("foo-bar.baz\n");
    assert_eq!(path_prefix(&b, 0, 11), None);
}

#[test]
fn path_prefix_stops_at_a_quote() {
    let b = buf("\"src/fo\n");
    assert_eq!(path_prefix(&b, 0, 7), Some((1, "src/fo".to_string())));
}

#[test]
fn word_prefix_takes_identifier_chars_before_the_cursor() {
    let b = buf("let foo_bar = x\n");
    assert_eq!(word_prefix(&b, 0, 11), (4, "foo_bar".to_string()));
    assert_eq!(word_prefix(&b, 0, 99), (14, "x".to_string()));
    assert_eq!(word_prefix(&b, 0, 12), (12, String::new()));
}

#[test]
fn path_candidates_lists_matching_entries_dirs_first_sorted() {
    let entries = vec![
        ("foo_file.rs".to_string(), false),
        ("bar.rs".to_string(), false),
        (".hidden_foo".to_string(), false),
        ("foo_dir".to_string(), true),
    ];
    let items = path_candidates("fo", entries);
    let labels: Vec<_> = items.iter().map(|i| i.label.as_str()).collect();
    assert_eq!(labels, vec!["foo_dir/", "foo_file.rs"]);
    assert_eq!(items[0].insert_text, "foo_dir/");
    assert_eq!(items[0].source, Source::Path);
    assert!(path_candidates("sub/fo", Vec::new()).is_empty());
}

#[test]
fn path_candidates_insert_text_includes_the_directory_portion() {
    let items = path_candidates("nested/tar", vec![("target.txt".to_string(), false)]);
    assert_eq!(items.len(), 1);
    assert_eq!(items[0].insert_text, "nested/target.txt");
    assert_eq!(path_parts("a/b/c"), ("a/b/".to_string(), "c".to_string()));
    assert_eq!(path_parts("c"), (String::new(), "c".to_string()));
}

#[test]
fn dotfiles_are_offered_for_a_dot_prefix() {
    let items = path_candidates(".h", vec![(".hidden".to_string(), false), ("h".to_string(), true)]);
    assert_eq!(items.len(), 1);
    assert_eq!(items[0].label, ".hidden");
}

#[test]
fn buffer_words_nearest_first_then_alphabetical() {
    let b = buf("alpha alpine\nzeta\nalps al alpha\n");
    let items = buffer_word_candidates(&b, "al", 2);
    let labels: Vec<_> = items.iter().map(|i| i.label.as_str()).collect();
    assert_eq!(labels, vec!["alps", "alpha", "alpine"]);
    assert!(items.iter().all(|i| i.source == Source::Buffer && i.insert_text == i.label));
    assert!(buffer_word_candidates(&b, "", 0).is_empty());
}

#[test]
fn server_batches_keep_matches_in_order_up_to_the_cap() {
    let filters: Vec<String> = vec!["push".into(), "pop".into(), "PushBack".into(), "len".into()];
    assert_eq!(batch_items(&filters, "pu"), vec![0, 2]);
    assert_eq!(batch_items(&filters, ""), vec![0, 1, 2, 3]);
    let many: Vec<String> = (0..250).map(|i| format!("item{i}")).collect();
    let kept = batch_items(&many, "item");
    assert_eq!(kept.len(), 200);
    assert_eq!(kept[199], 199);
}
