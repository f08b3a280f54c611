use vaayu::buffer::{decode_bytes, encode_bytes, normalize_content, Buffer, Encoding, FileFormat, Fold, SaveError};

fn buf(text: &str) -> Buffer {
    let mut b = Buffer::empty(1);
    b.rope = ropey::Rope::from_str(text);
    b.mark_saved();
    b
}

fn text(b: &Buffer) -> String {
    b.rope.to_string()
}

#[test]
fn empty_buffer_is_one_blank_line() {
    let b = Buffer::empty(7);
    assert_eq!(text(&b), "\n");
    assert_eq!(b.id, 7);
    assert_eq!(b.line_count(), 1);
    assert!(!b.is_modified());
}

#[test]
fn normalize_detects_dos_mac_and_bom() {
    assert_eq!(normalize_content("a\r\nb\r\n"), ("a\nb\n".to_string(), FileFormat::Dos, false));
    assert_eq!(normalize_content("a\rb\r"), ("a\nb\n".to_string(), FileFormat::Mac, false));
    assert_eq!(normalize_content("\u{feff}x\n"), ("x\n".to_string(), FileFormat::Unix, true));
}

#[test]
fn fileformat_names_and_endings() {
    assert_eq!(FileFormat::Dos.name(), "dos");
    assert_eq!(FileFormat::parse("mac"), Some(FileFormat::Mac));
    assert_eq!(FileFormat::parse("amiga"), None);
    assert_eq!(FileFormat::Dos.eol(), "\r\n");
}

#[test]
fn decode_and_encode_round_trip_utf16() {
    let bytes = encode_bytes("hé\n", Encoding::Utf16Le);
    assert_eq!(bytes, vec![0xFF, 0xFE, b'h', 0, 0xE9, 0, b'\n', 0]);
    assert_eq!(decode_bytes(&bytes), ("hé\n".to_string(), Encoding::Utf16Le));
    assert_eq!(decode_bytes(b"plain"), ("plain".to_string(), Encoding::Utf8));
}

#[test]
fn line_queries_exclude_the_line_break() {
    let b = buf("ab\r\ncd\n\n");
    assert_eq!(b.line_count(), 3);
    assert_eq!(b.line_len(0), 2);
    assert_eq!(b.line_text(1), "cd");
    assert_eq!(b.char_idx(1, 10), 6);
    assert_eq!(b.pos_from_char_idx(5), (1, 1));
}

#[test]
fn first_non_blank_and_column_clamps() {
    let b = buf("  x = 1\n\n");
    assert_eq!(b.first_non_blank(0), 2);
    assert_eq!(b.first_non_blank(1), 0);
    assert_eq!(b.clamp_col_insert(0, 99), 7);
    assert_eq!(b.clamp_col_normal(0, 99), 6);
    assert_eq!(b.clamp_col_normal(1, 5), 0);
}

#[test]
fn insert_and_delete_edit_the_text() {
    let mut b = buf("hello\n");
    b.insert_char(0, 5, '!');
    assert_eq!(text(&b), "hello!\n");
    b.insert_str(0, 0, "oh, ");
    assert_eq!(text(&b), "oh, hello!\n");
    assert_eq!(b.delete_char_range(0, 4), "oh, ");
    assert_eq!(text(&b), "hello!\n");
    assert_eq!(b.delete_char_range(3, 3), "");
    assert_eq!(b.edit_seq, 3);
}

#[test]
fn undo_redo_and_modified_state() {
    let mut b = buf("one\n");
    b.begin_edit();
    b.insert_str_at(3, " two");
    b.commit_edit();
    assert!(b.is_modified());
    assert!(b.undo());
    assert_eq!(text(&b), "one\n");
    assert!(!b.is_modified());
    assert!(b.redo());
    assert_eq!(text(&b), "one two\n");
    assert!(!b.redo());
}

#[test]
fn undo_with_empty_history_does_nothing() {
    let mut b = buf("x\n");
    assert!(!b.undo());
    assert_eq!(text(&b), "x\n");
    assert_eq!(b.edit_seq, 0);
}

#[test]
fn unchanged_commit_keeps_redo_history() {
    let mut b = buf("a\n");
    b.begin_edit();
    b.insert_char_at(0, 'b');
    b.commit_edit();
    assert!(b.undo());
    b.begin_edit();
    b.commit_edit();
    assert!(b.redo());
    assert_eq!(text(&b), "ba\n");
}

#[test]
fn folds_shift_with_inserted_lines() {
    let mut b = buf("a\nb\nc\nd\ne\n");
    b.folds.push(Fold { start: 2, end: 4, closed: true });
    b.insert_char(0, 1, '\n');
    assert_eq!(b.folds, vec![Fold { start: 3, end: 5, closed: true }]);
    assert!(b.line_hidden(4));
    assert!(!b.line_hidden(3));
    assert_eq!(b.visible_line_below(3), 5);
    assert_eq!(b.visible_line_above(5), 3);
    assert_eq!(b.closed_fold_starting_at(3), Some(Fold { start: 3, end: 5, closed: true }));
}

#[test]
fn folds_stamp_changes_with_closed_folds() {
    let mut b = buf("a\nb\nc\n");
    assert_eq!(b.folds_stamp(), 0);
    b.folds.push(Fold { start: 0, end: 1, closed: true });
    assert_eq!(b.folds_stamp(), (1_000_003u64 * 1 + 2));
}

#[test]
fn encoded_uses_the_line_ending_and_bom() {
    let mut b = buf("a\nb\n");
    b.fileformat = FileFormat::Dos;
    b.bom = true;
    assert_eq!(b.encoded(), "\u{feff}a\r\nb\r\n");
    assert_eq!(b.encoded_bytes(), "\u{feff}a\r\nb\r\n".as_bytes().to_vec());
}

#[test]
fn save_checks_refuse_in_order() {
    let b = Buffer::empty(1);
    assert_eq!(b.check_save(false, None), Err(SaveError::NoFileName));
    let b = Buffer::from_contents(2, std::path::PathBuf::from("/tmp/f.txt"), Some(b"x\r\n".to_vec()));
    assert_eq!(text(&b), "x\n");
    assert_eq!(b.fileformat, FileFormat::Dos);
    assert_eq!(b.check_save(true, Some(b"x\n".to_vec())), Err(SaveError::ReadOnly));
    assert_eq!(b.check_save(false, Some(b"y\n".to_vec())), Err(SaveError::ChangedOnDisk));
    assert_eq!(b.check_save(false, Some(b"x\r\n".to_vec())), Ok(()));
    assert!(!b.changed_on_disk(Some(b"x\n".to_vec())));
    assert!(b.changed_on_disk(Some(b"z\n".to_vec())));
    assert!(!b.changed_on_disk(None));
}

#[test]
fn reload_replaces_text_and_clears_history() {
    let mut b = buf("abc\ndef\n");
    b.begin_edit();
    b.insert_char_at(0, 'z');
    b.commit_edit();
    b.cursor_line = 1;
    b.cursor_col = 3;
    b.reload_from(b"q\n");
    assert_eq!(text(&b), "q\n");
    assert!(!b.undo());
    assert_eq!((b.cursor_line, b.cursor_col), (1, 0));
    assert!(!b.is_modified());
}

#[test]
fn undo_snapshots_round_trip() {
    let mut b = buf("a\n");
    b.begin_edit();
    b.insert_char_at(0, 'x');
    b.commit_edit();
    let snaps = b.undo_snapshots();
    assert_eq!(snaps, vec![("a\n".to_string(), (0, 0))]);
    let mut c = buf("xa\n");
    c.restore_undo_snapshots(snaps);
    assert!(c.undo());
    assert_eq!(text(&c), "a\n");
}

#[test]
fn text_range_clamps_the_end() {
    let b = buf("hello\n");
    assert_eq!(b.text_range(1, 3), "el");
    assert_eq!(b.text_range(4, 100), "o\n");
    assert_eq!(b.text_range(5, 2), "");
}

#[test]
fn apply_indent_reads_editorconfig_and_modeline() {
    let mut b = Buffer::from_contents(3, std::path::PathBuf::from("/p/a.rs"), Some(b"fn f() {\n\tx();\n}\n".to_vec()));
    let ec = vec!["root = true\n[*.rs]\nindent_style = space\nindent_size = 3\nend_of_line = crlf\ninsert_final_newline = true\n".to_string()];
    b.apply_indent(&ec, Some("a.rs"), 4, 4, true);
    assert_eq!((b.tabstop, b.shiftwidth, b.expandtab), (3, 3, true));
    assert_eq!(b.fileformat, FileFormat::Dos);
    assert_eq!(b.ec_final_newline, Some(true));
    assert_eq!(b.ec_trim_trailing, None);
}

#[test]
fn line_byte_ranges_count_utf8_and_skip_the_break() {
    let b = buf("ab\n\u{e9}x\r\nz");
    assert_eq!(b.line_byte_range(0), (0, 2));
    assert_eq!(b.line_byte_range(1), (3, 6));
    assert_eq!(b.line_byte_range(2), (8, 9));
    assert_eq!(b.line_byte_range(9), (9, 9));
}

#[test]
fn every_encoding_reads_back_what_it_wrote() {
    let t = "a\u{e9}\u{1F600}\nz";
    for e in [Encoding::Utf8, Encoding::Utf16Le, Encoding::Utf16Be] {
        assert_eq!(decode_bytes(&encode_bytes(t, e)), (t.to_string(), e));
    }
    let lone = [0xFFu8, 0xFE, 0x3D, 0xD8, 0x41, 0x00];
    assert_eq!(decode_bytes(&lone).0, "\u{FFFD}A", "an unpaired surrogate reads as U+FFFD");
}

#[test]
fn saved_text_loads_back_with_its_format() {
    for (f, bom) in [(FileFormat::Unix, false), (FileFormat::Dos, true), (FileFormat::Mac, false)] {
        let mut b = buf("a\nb\n");
        b.fileformat = f;
        b.bom = bom;
        assert_eq!(normalize_content(&b.encoded()), ("a\nb\n".to_string(), f, bom));
    }
}

#[test]
fn edits_apply_from_the_last_range_to_the_first() {
    let mut b = buf("let a = 1;\nlet b = 2;\n");
    let edits = vec![
        (19, 20, "3".to_string()),
        (4, 5, "alpha".to_string()),
        (0, 0, "// x\n".to_string()),
    ];
    b.apply_edits(&edits);
    assert_eq!(text(&b), "// x\nlet alpha = 1;\nlet b = 3;\n");
}
