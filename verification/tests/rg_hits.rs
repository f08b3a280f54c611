use vaayu::jobs::rg_hits;

fn parse(s: &str) -> serde_json::Value {
    serde_json::from_str(s).unwrap()
}

const MATCH: &str = r#"{"type":"match","data":{"path":{"text":"src/a.rs"},"lines":{"text":"let é = foo(foo);\n"},"line_number":3,"absolute_offset":0,"submatches":[{"match":{"text":"foo"},"start":9,"end":12},{"match":{"text":"foo"},"start":13,"end":16}]}}"#;

#[test]
fn each_submatch_is_a_hit_at_its_char_column() {
    let hits = rg_hits(&parse(MATCH), 5000);
    let line = "let é = foo(foo);".to_string();
    assert_eq!(
        hits,
        vec![
            ("src/a.rs".to_string(), 2, 8, line.clone()),
            ("src/a.rs".to_string(), 2, 12, line),
        ]
    );
}

#[test]
fn hits_stop_at_the_room_left() {
    assert_eq!(rg_hits(&parse(MATCH), 1).len(), 1);
    assert_eq!(rg_hits(&parse(MATCH), 0).len(), 0);
}

#[test]
fn other_messages_and_pathless_matches_give_nothing() {
    assert!(rg_hits(&parse(r#"{"type":"begin","data":{"path":{"text":"src/a.rs"}}}"#), 10).is_empty());
    assert!(rg_hits(&parse(r#"{"type":"match","data":{"path":{"bytes":"AAE="},"submatches":[{"start":0}]}}"#), 10).is_empty());
    assert!(rg_hits(&parse(r#"[1,2]"#), 10).is_empty());
}

#[test]
fn a_start_inside_a_char_counts_as_column_zero() {
    let v = parse(r#"{"type":"match","data":{"path":{"text":"b"},"lines":{"text":"é x"},"line_number":1,"submatches":[{"start":1}]}}"#);
    assert_eq!(rg_hits(&v, 10), vec![("b".to_string(), 0, 0, "é x".to_string())]);
}
