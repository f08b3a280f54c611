use std::collections::HashMap;
use std::path::PathBuf;

use vaayu::language::{plan_reply, stale_requests, ReplyPlan, RequestContext};

fn ctx(path: &str, revision: u64, client: &str) -> RequestContext {
    RequestContext {
        kind: "hover".to_string(),
        path: PathBuf::from(path),
        revision,
        client: client.to_string(),
        versions: HashMap::new(),
    }
}

#[test]
fn current_requests_match_file_and_revision() {
    let c = ctx("/p/a.rs", 3, "rust");
    let a = PathBuf::from("/p/a.rs");
    let b = PathBuf::from("/p/b.rs");
    assert!(c.is_current(Some(&a), 3));
    assert!(!c.is_current(Some(&a), 4));
    assert!(!c.is_current(Some(&b), 3));
    assert!(!c.is_current(None, 3));
}

#[test]
fn stale_requests_are_listed_in_order() {
    let pending = vec![
        (1, ctx("/p/a.rs", 3, "rust")),
        (2, ctx("/p/a.rs", 2, "rust")),
        (3, ctx("/p/b.rs", 3, "py")),
    ];
    let a = PathBuf::from("/p/a.rs");
    assert_eq!(
        stale_requests(&pending, Some(&a), 3),
        vec![(2, "rust".to_string()), (3, "py".to_string())]
    );
    assert_eq!(stale_requests(&pending, None, 3).len(), 3);
}

#[test]
fn replies_are_dropped_shown_ignored_or_delivered() {
    let c = ctx("/p/a.rs", 3, "rust");
    let a = PathBuf::from("/p/a.rs");
    assert!(matches!(plan_reply(None, None, Some(&a), 3), ReplyPlan::Drop));
    match plan_reply(Some(&c), Some("boom".to_string()), Some(&a), 3) {
        ReplyPlan::ShowError(e) => assert_eq!(e, "boom"),
        _ => panic!("expected the error"),
    }
    assert!(matches!(plan_reply(Some(&c), None, Some(&a), 4), ReplyPlan::Stale));
    assert!(matches!(plan_reply(Some(&c), None, Some(&a), 3), ReplyPlan::Deliver));
}

use vaayu::language::{covering, request_for, RequestShape};
use vaayu::lsp::{Diagnostic, Severity};

#[test]
fn request_kinds_map_to_methods_and_capabilities() {
    assert_eq!(request_for("hover"), Some(("textDocument/hover", "hoverProvider", RequestShape::Position)));
    assert_eq!(
        request_for("format"),
        Some(("textDocument/formatting", "documentFormattingProvider", RequestShape::Format))
    );
    assert_eq!(
        request_for("organizeImports"),
        Some(("textDocument/codeAction", "codeActionProvider", RequestShape::OrganizeImports))
    );
    assert_eq!(request_for("workspaceSymbols").map(|r| r.2), Some(RequestShape::Query));
    assert_eq!(request_for("bogus"), None);
}

fn diag(line: usize, col: usize, end_line: usize, end_col: usize) -> Diagnostic {
    Diagnostic { line, col, end_line, end_col, severity: Severity::Error, message: String::new() }
}

#[test]
fn code_actions_send_the_diagnostics_under_the_cursor() {
    let ds = vec![diag(1, 4, 1, 9), diag(0, 0, 3, 0), diag(2, 0, 2, 5), diag(1, 9, 1, 12)];
    assert_eq!(covering(&ds, 1, 9), vec![0, 1, 3]);
    assert_eq!(covering(&ds, 1, 3), vec![1]);
    assert_eq!(covering(&ds, 4, 0), Vec::<usize>::new());
}

use vaayu::language::signature_text;

#[test]
fn signature_help_lists_labels_one_per_line() {
    let v: serde_json::Value = serde_json::from_str(
        r#"{"signatures":[{"label":"f(a: i32)"},{"doc":"x"},{"label":"f(a: i32, b: u8)"}],"activeSignature":0}"#,
    )
    .unwrap();
    assert_eq!(signature_text(&v), "f(a: i32)\nf(a: i32, b: u8)");
    let none: serde_json::Value = serde_json::from_str(r#"{"signatures":7}"#).unwrap();
    assert_eq!(signature_text(&none), "");
    assert_eq!(signature_text(&serde_json::Value::Null), "");
}
