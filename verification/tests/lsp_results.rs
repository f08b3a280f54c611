use serde_json::Value;
use vaayu::lsp_results::{
    plan_workspace_edit, WorkspacePlan, raw_edits, locations, code_actions, code_lenses, document_links, highlights, hover_text, inlay_hints, plan_language_result,
    ResultPlan,
};

fn json(s: &str) -> Value {
    serde_json::from_str(s).unwrap()
}

#[test]
fn links_need_a_target_and_show_the_tooltip() {
    let v = json(
        r#"[{"range":{"start":{"line":2,"character":5}},"target":"https://a","tooltip":"Open a"},
            {"range":{"start":{"line":3,"character":0}}},
            {"range":{"start":{"line":4}},"target":"file:///b"}]"#,
    );
    let ls = document_links(&v);
    assert_eq!(ls.len(), 2);
    assert_eq!((ls[0].line, ls[0].units, ls[0].label.as_str(), ls[0].target.as_str()), (2, 5, "Open a", "https://a"));
    assert_eq!((ls[1].line, ls[1].units, ls[1].label.as_str()), (4, 0, "file:///b"));
    assert!(document_links(&Value::Null).is_empty());
}

#[test]
fn lenses_need_a_command() {
    let v = json(
        r#"[{"range":{"start":{"line":7}},"command":{"title":"Run test","command":"x"}},
            {"range":{"start":{"line":8}}},
            {"range":{"start":{"line":9}},"command":{"command":"y"}}]"#,
    );
    let ls = code_lenses(&v);
    assert_eq!(ls.len(), 2);
    assert_eq!((ls[0].line, ls[0].title.as_str()), (7, "Run test"));
    assert_eq!(ls[0].command["command"], "x");
    assert_eq!((ls[1].line, ls[1].title.as_str()), (9, "Run"));
}

#[test]
fn hint_labels_join_parts_and_pad() {
    let v = json(
        r#"[{"position":{"line":1,"character":4},"label":": i32","paddingLeft":true},
            {"position":{"line":2,"character":6},"label":[{"value":"a"},{"tooltip":"t"},{"value":"b"}],"paddingRight":true},
            {"position":{"line":3,"character":0},"label":5}]"#,
    );
    let hs = inlay_hints(&v);
    assert_eq!(hs.len(), 3);
    assert_eq!((hs[0].line, hs[0].units, hs[0].label.as_str()), (1, 4, " : i32"));
    assert_eq!((hs[1].line, hs[1].units, hs[1].label.as_str()), (2, 6, "ab "));
    assert_eq!(hs[2].label, "");
}

#[test]
fn highlight_ranges_in_order() {
    let v = json(
        r#"[{"range":{"start":{"line":1,"character":2},"end":{"line":1,"character":5}}},
            {"range":{"start":{"line":4,"character":0},"end":{"line":5,"character":1}}}]"#,
    );
    assert_eq!(highlights(&v), vec![(1, 2, 1, 5), (4, 0, 5, 1)]);
}

#[test]
fn actions_list_preferred_first_with_reasons() {
    let v = json(
        r#"[{"title":"Extract"},
            {"title":"Fix import","isPreferred":true},
            {"title":"Inline","disabled":{"reason":"not here"}},
            {"kind":"quickfix"}]"#,
    );
    let titles: Vec<String> = code_actions(&v).into_iter().map(|a| a.title).collect();
    assert_eq!(titles, vec!["* Fix import", "Extract", "Inline (disabled: not here)", "Code action"]);
}

#[test]
fn hover_text_reads_strings_markup_and_lists() {
    assert_eq!(hover_text(Some(&json(r#""plain""#))), "plain");
    assert_eq!(hover_text(Some(&json(r#"{"kind":"markdown","value":"**x**"}"#))), "**x**");
    assert_eq!(hover_text(Some(&json(r#"["a",{"language":"rust","value":"fn f()"},7]"#))), "a\nfn f()\n");
    assert_eq!(hover_text(None), "");
}

#[test]
fn plans_follow_the_request_kind() {
    let empty = json("[]");
    assert!(matches!(
        plan_language_result("completion_resolve:3:1", &empty, true, Some("completion_resolve:3:1"), false),
        ResultPlan::ResolveCompletion { matched: true }
    ));
    assert!(matches!(
        plan_language_result("completion_resolve:3:1", &empty, true, Some("completion_resolve:3:2"), false),
        ResultPlan::ResolveCompletion { matched: false }
    ));
    assert!(matches!(plan_language_result("completion_resolve:3:1", &empty, false, None, false), ResultPlan::Nothing));
    match plan_language_result("hover", &json(r#"{"contents":"doc"}"#), false, None, false) {
        ResultPlan::Show { title, text } => assert_eq!((title.as_str(), text.as_str()), ("Hover", "doc")),
        _ => panic!("expected text"),
    }
    match plan_language_result("documentLinks", &empty, false, None, false) {
        ResultPlan::Message(m) => assert_eq!(m, "No document links found"),
        _ => panic!("expected a message"),
    }
    match plan_language_result("codeLens", &empty, false, None, false) {
        ResultPlan::Lenses { lenses, message } => {
            assert!(lenses.is_empty());
            assert_eq!(message.as_deref(), Some("No code lenses"));
        }
        _ => panic!("expected lenses"),
    }
    let hints = json(r#"[{"position":{"line":0,"character":0},"label":"x"},{"position":{"line":1,"character":0},"label":"y"}]"#);
    match plan_language_result("inlayHints", &hints, false, None, false) {
        ResultPlan::Hints { hints, message } => {
            assert_eq!(hints.len(), 2);
            assert_eq!(message, "2 inlay hint(s) — Esc to clear");
        }
        _ => panic!("expected hints"),
    }
    match plan_language_result("documentHighlight", &empty, false, None, false) {
        ResultPlan::Highlights { message, .. } => assert_eq!(message, "No other occurrences found"),
        _ => panic!("expected highlights"),
    }
    assert!(matches!(plan_language_result("definition", &empty, false, None, false), ResultPlan::Locations { auto_jump: true, .. }));
    assert!(matches!(plan_language_result("references", &empty, false, None, false), ResultPlan::Locations { auto_jump: false, .. }));
    assert!(matches!(plan_language_result("outline", &empty, false, None, true), ResultPlan::OutlineNodes));
    assert!(matches!(plan_language_result("outline", &empty, false, None, false), ResultPlan::Locations { auto_jump: false, .. }));
    match plan_language_result("format", &Value::Null, false, None, false) {
        ResultPlan::Message(m) => assert_eq!(m, "No formatting edits"),
        _ => panic!("expected a message"),
    }
    assert!(matches!(plan_language_result("format", &empty, false, None, false), ResultPlan::Format));
    match plan_language_result("organizeImports", &empty, false, None, false) {
        ResultPlan::Message(m) => assert_eq!(m, "No organize-imports action available"),
        _ => panic!("expected a message"),
    }
    match plan_language_result("organizeImports", &json(r#"[{"title":"Organize"}]"#), false, None, false) {
        ResultPlan::OrganizeImports(a) => assert_eq!(a["title"], "Organize"),
        _ => panic!("expected the action"),
    }
    match plan_language_result("execute", &empty, false, None, false) {
        ResultPlan::Message(m) => assert_eq!(m, "Code action completed"),
        _ => panic!("expected a message"),
    }
    assert!(matches!(plan_language_result("bogus", &empty, false, None, false), ResultPlan::Nothing));
}

#[test]
fn locations_read_links_symbols_and_children() {
    let v = json(
        r#"[{"uri":"file:///a.rs","range":{"start":{"line":3,"character":4}}},
            {"targetUri":"file:///b.rs","targetSelectionRange":{"start":{"line":5,"character":1}},"targetRange":{}},
            {"name":"S","location":{"uri":"file:///c.rs","range":{"start":{"line":7,"character":0}}}},
            {"name":"outer","selectionRange":{"start":{"line":1,"character":2}},
             "children":[{"name":"inner","range":{"start":{"line":2,"character":6}}}]},
            {"name":"no range"}]"#,
    );
    let ls = locations(&v);
    let got: Vec<(Option<String>, usize, usize, String)> =
        ls.into_iter().map(|l| (l.uri, l.line, l.units, l.name)).collect();
    assert_eq!(
        got,
        vec![
            (Some("file:///a.rs".to_string()), 3, 4, String::new()),
            (Some("file:///b.rs".to_string()), 5, 1, String::new()),
            (Some("file:///c.rs".to_string()), 7, 0, "S".to_string()),
            (None, 1, 2, "outer".to_string()),
            (None, 2, 6, "inner".to_string()),
        ]
    );
}

#[test]
fn locations_stop_at_the_cap() {
    let one = r#"{"uri":"file:///a.rs","range":{"start":{"line":0,"character":0}}}"#;
    let text = format!("[{}]", vec![one; 5100].join(","));
    assert_eq!(locations(&json(&text)).len(), 5000);
}

#[test]
fn format_replies_apply_to_the_buffer() {
    let v = json(
        r#"[{"range":{"start":{"line":0,"character":4},"end":{"line":0,"character":5}},"newText":"alpha"},
            {"replace":{"start":{"line":1,"character":0},"end":{"line":1,"character":0}},"newText":"// "}]"#,
    );
    let es = raw_edits(&v).unwrap();
    assert_eq!(es.len(), 2);
    let mut b = vaayu::buffer::Buffer::empty(1);
    b.rope = ropey::Rope::from_str("let a = 1;\nlet b = 2;\n");
    let changes = vaayu::language::validate_edits(&b.rope, &es).unwrap();
    b.apply_edits(&changes);
    assert_eq!(b.rope.to_string(), "let alpha = 1;\n// let b = 2;\n");
    let bad = raw_edits(&json(r#"[{"newText":"x"}]"#)).unwrap();
    assert!(bad[0].range.is_none());
    assert_eq!(vaayu::language::validate_edits(&b.rope, &bad), Err("missing edit range".to_string()));
    assert!(raw_edits(&json("{}")).is_none());
}

#[test]
fn workspace_edits_list_documents_or_refuse() {
    let v = json(
        r#"{"changes":{"file:///a.rs":[{"range":{"start":{"line":0,"character":0},"end":{"line":0,"character":1}},"newText":"x"}]},
            "documentChanges":[{"textDocument":{"uri":"file:///b.rs","version":3},"edits":[]}]}"#,
    );
    match plan_workspace_edit(&v) {
        Ok(WorkspacePlan::Docs(d)) => {
            assert_eq!(d.len(), 2);
            assert_eq!((d[0].uri.as_str(), d[0].edits.len(), d[0].version), ("file:///a.rs", 1, None));
            assert_eq!((d[1].uri.as_str(), d[1].edits.len(), d[1].version), ("file:///b.rs", 0, Some(3)));
        }
        _ => panic!("expected documents"),
    }
    let ops = json(r#"{"documentChanges":[{"kind":"create","uri":"file:///c.rs"}]}"#);
    assert!(matches!(plan_workspace_edit(&ops), Ok(WorkspacePlan::Resource)));
    assert!(matches!(plan_workspace_edit(&Value::Null), Err(m) if m == "No workspace edits returned"));
    let bad = json(r#"{"changes":{"file:///a.rs":{}}}"#);
    assert!(matches!(plan_workspace_edit(&bad), Err(m) if m == "invalid edits"));
    let no_uri = json(r#"{"documentChanges":[{"textDocument":{},"edits":[]}]}"#);
    assert!(matches!(plan_workspace_edit(&no_uri), Err(m) if m == "missing document URI"));
}
