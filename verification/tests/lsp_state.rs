use vaayu::lsp::{diagnostics_now, Diagnostic, Progress, ProgressTable, ServerDiagnostics, Severity};

fn diag(line: usize, message: &str) -> Diagnostic {
    Diagnostic { line, col: 0, end_line: line, end_col: 1, severity: Severity::Warning, message: message.to_string() }
}

#[test]
fn diagnostics_merge_every_server_for_a_file() {
    let mut s = ServerDiagnostics { entries: Vec::new() };
    s.record("rust", "/p/a.rs", vec![diag(1, "unused")]);
    s.record("typos", "/p/a.rs", vec![diag(2, "spelling")]);
    s.record("rust", "/p/b.rs", vec![diag(3, "other file")]);
    s.record("rust", "/p/a.rs", vec![diag(4, "newer")]);
    let msgs: Vec<String> = s.visible("/p/a.rs").into_iter().map(|d| d.message).collect();
    assert_eq!(msgs, vec!["newer", "spelling"]);
    assert_eq!(s.entries.len(), 3);
    assert!(s.visible("/p/c.rs").is_empty());
    assert!(diagnostics_now(false, false));
    assert!(!diagnostics_now(false, true));
    assert!(diagnostics_now(true, true));
}

fn progress(title: Option<&str>, message: Option<&str>, percentage: Option<u32>) -> Progress {
    Progress {
        title: title.map(str::to_string),
        message: message.map(str::to_string),
        percentage,
    }
}

#[test]
fn progress_begins_reports_and_ends() {
    let mut t = ProgressTable { entries: Vec::new() };
    assert_eq!(t.status_text(), None);
    t.update("rust", "1", "begin", progress(Some("Indexing"), None, Some(0)));
    t.update("rust", "1", "report", progress(None, Some("3/10 crates"), Some(30)));
    assert_eq!(t.status_text().as_deref(), Some("Indexing 30% — 3/10 crates"));
    t.update("py", "x", "report", progress(None, None, None));
    assert_eq!(t.status_text().as_deref(), Some("Indexing 30% — 3/10 crates · Working…"));
    t.update("rust", "1", "end", progress(None, None, None));
    assert_eq!(t.status_text().as_deref(), Some("Working…"));
    t.update("py", "x", "other", progress(Some("t"), None, None));
    assert_eq!(t.status_text().as_deref(), Some("Working…"));
    t.update("py", "x", "end", progress(None, None, None));
    assert_eq!(t.status_text(), None);
}
