use vaayu::completion::{documentation_text, item_documentation, Item, Source};

fn item_with_raw(raw: Option<serde_json::Value>) -> Item {
    Item {
        label: "x".to_string(),
        insert_text: "x".to_string(),
        detail: None,
        source: Source::Lsp,
        edit: None,
        raw,
        snippet: false,
        additional: Vec::new(),
        kind: None,
    }
}

fn json(text: &str) -> serde_json::Value {
    serde_json::from_str(text).unwrap()
}

#[test]
fn item_documentation_reads_a_plain_string() {
    let item = item_with_raw(Some(json("{\"documentation\": \"some docs\"}")));
    assert_eq!(item_documentation(&item), Some("some docs".into()));
}

#[test]
fn item_documentation_reads_markup_content() {
    let item = item_with_raw(Some(json("{\"documentation\": {\"kind\": \"markdown\", \"value\": \"**bold** docs\"}}")));
    assert_eq!(item_documentation(&item), Some("**bold** docs".into()));
}

#[test]
fn item_documentation_is_none_when_absent_or_blank() {
    assert_eq!(item_documentation(&item_with_raw(None)), None);
    assert_eq!(item_documentation(&item_with_raw(Some(json("{}")))), None);
    assert_eq!(
        item_documentation(&item_with_raw(Some(json("{\"documentation\": \"   \"}")))),
        None,
        "whitespace-only documentation should count as absent"
    );
}

#[test]
fn documentation_text_is_trimmed_and_blank_is_none() {
    assert_eq!(documentation_text(Some("  a b \n".to_string())), Some("a b".to_string()));
    assert_eq!(documentation_text(Some(" \t".to_string())), None);
    assert_eq!(documentation_text(None), None);
}

#[test]
fn item_documentation_ignores_other_shapes() {
    assert_eq!(item_documentation(&item_with_raw(Some(json("{\"documentation\": 3}")))), None);
    assert_eq!(item_documentation(&item_with_raw(Some(json("{\"documentation\": {\"kind\": \"plaintext\"}}")))), None);
}
