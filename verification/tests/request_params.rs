use vaayu::buffer::Buffer;
use vaayu::language::{request_params, RequestParams, RequestShape};
use vaayu::lsp::{Diagnostic, Severity};

fn buf(text: &str, line: usize, col: usize) -> Buffer {
    let mut b = Buffer::empty(1);
    b.rope = ropey::Rope::from_str(text);
    b.cursor_line = line;
    b.cursor_col = col;
    b
}

fn pos(p: &RequestParams) -> (usize, usize) {
    match p {
        RequestParams::Position(q) | RequestParams::References(q) | RequestParams::WholeRange(q) | RequestParams::OrganizeImports(q) => {
            (q.line, q.character)
        }
        _ => panic!("expected a position"),
    }
}

#[test]
fn cursor_position_counts_utf16_units() {
    let b = buf("ab\n\u{1D11E}x\n", 1, 1);
    let p = request_params(&b, RequestShape::Position, None, &vec![]).unwrap();
    assert_eq!(pos(&p), (1, 2));
    let p = request_params(&b, RequestShape::References, None, &vec![]).unwrap();
    assert_eq!(pos(&p), (1, 2));
}

#[test]
fn whole_range_ends_after_the_last_line() {
    let b = buf("ab\ncd\n", 0, 0);
    assert_eq!(pos(&request_params(&b, RequestShape::WholeRange, None, &vec![]).unwrap()), (2, 0));
    let b = buf("ab\ncdé", 0, 0);
    assert_eq!(pos(&request_params(&b, RequestShape::OrganizeImports, None, &vec![]).unwrap()), (1, 3));
}

#[test]
fn rename_needs_a_name() {
    let b = buf("x\n", 0, 0);
    assert!(matches!(request_params(&b, RequestShape::Rename, None, &vec![]), Err(m) if m == "Usage: :rename new_name"));
    assert!(matches!(request_params(&b, RequestShape::Rename, Some(""), &vec![]), Err(m) if m == "Usage: :rename new_name"));
    match request_params(&b, RequestShape::Rename, Some("y"), &vec![]) {
        Ok(RequestParams::Rename { position, new_name }) => {
            assert_eq!((position.line, position.character), (0, 0));
            assert_eq!(new_name, "y");
        }
        _ => panic!("expected a rename"),
    }
}

#[test]
fn query_format_and_document_carry_their_values() {
    let mut b = buf("x\n", 0, 0);
    b.tabstop = 2;
    b.expandtab = false;
    assert!(matches!(request_params(&b, RequestShape::Query, None, &vec![]), Ok(RequestParams::Query(q)) if q.is_empty()));
    assert!(matches!(request_params(&b, RequestShape::Query, Some("Foo"), &vec![]), Ok(RequestParams::Query(q)) if q == "Foo"));
    assert!(matches!(
        request_params(&b, RequestShape::Format, None, &vec![]),
        Ok(RequestParams::Format { tab_size: 2, insert_spaces: false })
    ));
    assert!(matches!(request_params(&b, RequestShape::Document, None, &vec![]), Ok(RequestParams::Document)));
}

#[test]
fn action_request_carries_the_covering_diagnostics() {
    let b = buf("let x = 1;\n", 0, 4);
    let d = |line, col, end_line, end_col| Diagnostic { line, col, end_line, end_col, severity: Severity::Error, message: String::new() };
    let diags = vec![d(0, 0, 0, 3), d(0, 4, 0, 5), d(0, 2, 1, 0)];
    match request_params(&b, RequestShape::Actions, None, &diags) {
        Ok(RequestParams::Actions { position, diagnostics }) => {
            assert_eq!((position.line, position.character), (0, 4));
            assert_eq!(diagnostics, vec![1, 2]);
        }
        _ => panic!("expected code actions"),
    }
}
