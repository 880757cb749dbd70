use docugen::document::{DocumentTemplate, Partial};
use docugen::parser::{document_template, string_literal, tag, ParseErrorKind};

#[test]
fn parser_test_ascii_string_literal() {
    let raw = "HELLO_WORLD";
    let expected_string_literal = Partial::StringLiteral("HELLO_WORLD".to_string());

    assert_eq!(expected_string_literal, string_literal(raw, 0).unwrap().0);
}

#[test]
#[should_panic]
fn parser_test_unescaped_left_brace() {
    let raw = "{";
    string_literal(raw, 0).unwrap();
}

#[test]
fn parser_test_escaped_left_brace() {
    let raw = "\\{";
    let expected_string_literal = Partial::StringLiteral("{".to_string());

    assert_eq!(expected_string_literal, string_literal(raw, 0).unwrap().0);
}

#[test]
#[should_panic]
fn parser_test_unescaped_right_brace() {
    let raw = "}";
    string_literal(raw, 0).unwrap();
}

#[test]
fn parser_test_escaped_right_brace() {
    let raw = "\\}";
    let expected_string_literal = Partial::StringLiteral("}".to_string());

    assert_eq!(expected_string_literal, string_literal(raw, 0).unwrap().0);
}

#[test]
#[should_panic]
fn parser_test_unescaped_backslash() {
    let raw = "\\";
    string_literal(raw, 0).unwrap();
}

#[test]
fn parser_test_escaped_backslash() {
    let raw = "\\\\";
    let expected_string_literal = Partial::StringLiteral("\\".to_string());

    assert_eq!(expected_string_literal, string_literal(raw, 0).unwrap().0);
}

#[test]
#[should_panic]
fn parser_test_empty_tag() {
    let raw = "{{}}";
    tag(raw, 0).unwrap();
}

#[test]
fn parser_test_tag() {
    let raw = "{{abc}}";
    let expected_tag = Partial::Tag("abc".to_string());
    assert_eq!(expected_tag, tag(raw, 0).unwrap().0);
}

#[test]
fn test_tag_id_with_middle_underscore() {
    let raw = "{{ a_c }}";
    let expected_tag = Partial::Tag("a_c".to_string());
    assert_eq!(expected_tag, tag(raw, 0).unwrap().0);
}

#[test]
fn test_tag_id_with_starting_underscore() {
    let raw = "{{ _x }}";
    let expected_tag = Partial::Tag("_x".to_string());
    assert_eq!(expected_tag, tag(raw, 0).unwrap().0);
}

#[test]
fn test_tag_id_with_trailing_underscore() {
    let raw = "{{ a_ }}";
    let expected_tag = Partial::Tag("a_".to_string());
    assert_eq!(expected_tag, tag(raw, 0).unwrap().0);
}

#[test]
fn parser_test_tag_whitespace() {
    let raw = "{{ \t xxxx   }}";
    let expected_tag = Partial::Tag("xxxx".to_string());
    assert_eq!(expected_tag, tag(raw, 0).unwrap().0);
}

#[test]
#[should_panic]
fn parser_test_malformed_tag() {
    let raw = "{{ \t separated identifiers illegal }}";
    tag(raw, 0).unwrap();
}

#[test]
fn parser_test_document_template() {
    let raw = "abc {{def}} ghi";
    let expected_document_template = DocumentTemplate::with_partials(&vec![
        Partial::StringLiteral("abc ".to_string()),
        Partial::Tag("def".to_string()),
        Partial::StringLiteral(" ghi".to_string()),
    ]);

    assert_eq!(expected_document_template, document_template(raw).unwrap());
}

#[test]
fn test_empty_template() {
    assert_eq!(DocumentTemplate::new(), document_template("").unwrap());
}

#[test]
fn test_literal_run_merges_escapes() {
    let raw = "a\\{b";
    let expected = DocumentTemplate::with_partials(&[Partial::StringLiteral("a{b".to_string())]);
    assert_eq!(expected, document_template(raw).unwrap());
}

#[test]
fn test_bare_left_brace_error() {
    let err = document_template("{").unwrap_err();
    assert_eq!(0, err.position);
}

#[test]
fn test_bare_right_brace_error() {
    let err = document_template("}").unwrap_err();
    assert_eq!(ParseErrorKind::BareSpecialCharacter, err.kind);
    assert_eq!(0, err.position);
}

#[test]
fn test_invalid_escape_error() {
    let err = document_template("\\x").unwrap_err();
    assert_eq!(ParseErrorKind::BareSpecialCharacter, err.kind);
    assert_eq!(0, err.position);
}

#[test]
fn test_error_position_inside_literal_run() {
    let err = document_template("ab\\x").unwrap_err();
    assert_eq!(ParseErrorKind::BareSpecialCharacter, err.kind);
    assert_eq!(2, err.position);
}

#[test]
fn test_error_position_after_fragments() {
    let err = document_template("ab{{c}}}").unwrap_err();
    assert_eq!(ParseErrorKind::BareSpecialCharacter, err.kind);
    assert_eq!(7, err.position);
}

#[test]
fn test_unterminated_tag_error() {
    let err = document_template("{{abc").unwrap_err();
    assert_eq!(ParseErrorKind::UnterminatedTag, err.kind);
    assert_eq!(5, err.position);
}

#[test]
fn test_empty_identifier_error() {
    let err = document_template("{{}}").unwrap_err();
    assert_eq!(ParseErrorKind::EmptyIdentifier, err.kind);
    assert_eq!(2, err.position);
}

#[test]
fn test_internal_whitespace_error() {
    let err = document_template("{{ a b }}").unwrap_err();
    assert_eq!(ParseErrorKind::InvalidIdentifier, err.kind);
    assert_eq!(5, err.position);
}

#[test]
fn test_round_trip_plain_text() {
    let raw = "plain text, no specials at all.";
    let template = document_template(raw).unwrap();
    let filled = template.saturate(&[]).unwrap();
    assert_eq!(raw, filled.document());
}
