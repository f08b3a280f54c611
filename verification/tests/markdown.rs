use vaayu::markdown::{is_markdown_name, render, wrap_lines, Line, Preview, Span, SpanStyle};

fn texts(lines: &[Line]) -> Vec<Vec<String>> {
    lines.iter().map(|l| l.iter().map(|s| s.text.clone()).collect()).collect()
}

fn plain() -> SpanStyle {
    SpanStyle::default()
}

fn dim() -> SpanStyle {
    SpanStyle { dim: true, ..SpanStyle::default() }
}

#[test]
fn strikethrough_and_link_preserved() {
    let src = "This is a paragraph with **bold text**, *italic text*, and `inline code`.\nIt also has ~~strikethrough~~ and a [link](https://example.com).\n";
    let lines = render(src);
    let joined: String = lines.iter().flat_map(|l| l.iter()).map(|s| s.text.as_str()).collect();
    assert!(joined.contains("strikethrough"), "lost strikethrough text: {:?}", joined);
    assert!(joined.contains("link"), "lost link text: {:?}", joined);
}

#[test]
fn heading_and_emphasis_styles() {
    let lines = render("# Title\n\nSome *it* text\n");
    assert_eq!(
        texts(&lines),
        vec![vec![], vec!["Title".to_string()], vec![], vec!["Some ".to_string(), "it".to_string(), " text".to_string()]]
    );
    assert_eq!(lines[1][0].style, SpanStyle { bold: true, heading: 1, ..SpanStyle::default() });
    assert_eq!(lines[3][0].style, plain());
    assert_eq!(lines[3][1].style, SpanStyle { italic: true, ..SpanStyle::default() });
}

#[test]
fn ordered_list_numbers_from_its_start() {
    let lines = render("3. a\n4. b\n");
    assert_eq!(
        texts(&lines),
        vec![vec!["3. ".to_string(), "a".to_string()], vec!["4. ".to_string(), "b".to_string()], vec![]]
    );
}

#[test]
fn nested_bullets_are_indented() {
    let lines = render("- a\n  - b\n");
    let t = texts(&lines);
    assert_eq!(
        t[0],
        vec!["\u{2022} ".to_string(), "a".to_string(), "  \u{2022} ".to_string(), "b".to_string()]
    );
}

#[test]
fn table_columns_are_padded_with_a_rule_under_the_head() {
    let lines = render("| a | bb |\n|---|---|\n| ccc | d |\n");
    assert_eq!(
        texts(&lines),
        vec![
            vec!["a   ".to_string(), "\u{2502} ".to_string(), "bb ".to_string()],
            vec!["\u{2500}\u{2500}\u{2500}\u{2500}\u{253c}\u{2500}\u{2500}\u{2500}".to_string()],
            vec!["ccc ".to_string(), "\u{2502} ".to_string(), "d  ".to_string()],
            vec![],
        ]
    );
    assert!(lines[0][0].style.bold);
    assert!(!lines[2][0].style.bold);
    assert_eq!(lines[1][0].style, dim());
}

#[test]
fn fenced_code_block_keeps_its_lines() {
    let lines = render("```rust\nfn x\n```\n");
    assert_eq!(
        texts(&lines),
        vec![vec![], vec!["```rust".to_string()], vec!["fn x".to_string()], vec!["```".to_string()], vec![]]
    );
    assert!(lines[2][0].style.code_block);
}

#[test]
fn quote_lines_get_a_bar_and_dim_italic_text() {
    let lines = render("> hi\n");
    assert_eq!(texts(&lines), vec![vec![], vec!["\u{258e} ".to_string(), "hi".to_string()], vec![]]);
    assert_eq!(lines[1][1].style, SpanStyle { dim: true, italic: true, ..SpanStyle::default() });
}

#[test]
fn rule_and_task_marks() {
    let lines = render("- [x] done\n- [ ] todo\n\n---\n");
    let t = texts(&lines);
    assert_eq!(t[0], vec!["\u{2022} ".to_string(), "[x] ".to_string(), "done".to_string()]);
    assert_eq!(t[1], vec!["\u{2022} ".to_string(), "[ ] ".to_string(), "todo".to_string()]);
    assert!(t.iter().any(|l| l == &vec!["\u{2500}".repeat(40)]));
}

#[test]
fn wrap_breaks_at_the_last_space() {
    let line = vec![Span { text: "aaaa bbbb cccc".to_string(), style: plain() }];
    let out = wrap_lines(&vec![line], 10);
    assert_eq!(texts(&out), vec![vec!["aaaa bbbb".to_string()], vec!["cccc".to_string()]]);
}

#[test]
fn wrap_hard_breaks_a_long_run_and_keeps_styles() {
    let line = vec![
        Span { text: "abcdefgh".to_string(), style: plain() },
        Span { text: "ijklmnop".to_string(), style: dim() },
    ];
    let out = wrap_lines(&vec![line], 3);
    assert_eq!(
        texts(&out),
        vec![vec!["abcdefgh".to_string(), "ij".to_string()], vec!["klmnop".to_string()]]
    );
    assert_eq!(out[1][0].style, dim());
}

#[test]
fn wrap_leaves_short_and_empty_lines() {
    let out = wrap_lines(&vec![vec![], vec![Span { text: "short".to_string(), style: plain() }]], 80);
    assert_eq!(texts(&out), vec![vec![], vec!["short".to_string()]]);
}

#[test]
fn preview_refreshes_only_when_stale() {
    let mut p = Preview::new();
    assert!(p.needs_refresh(1, 80));
    p.refresh("# Hi\n", 1, 80);
    assert!(!p.needs_refresh(1, 80));
    assert!(p.needs_refresh(2, 80));
    assert!(p.needs_refresh(1, 40));
    assert_eq!(texts(&p.lines), vec![vec![], vec!["Hi".to_string()]]);
    p.scroll = 7;
    p.refresh("plain\n", 1, 80);
    assert_eq!(p.scroll, 7);
    p.refresh("plain\n", 2, 80);
    assert_eq!(p.scroll, 1);
}

#[test]
fn markdown_names_by_extension() {
    assert!(is_markdown_name("README.md"));
    assert!(is_markdown_name("notes.MarkDown"));
    assert!(!is_markdown_name("main.rs"));
    assert!(!is_markdown_name(".md"));
    assert!(!is_markdown_name("md"));
}
