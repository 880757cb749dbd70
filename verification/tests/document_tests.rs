use docugen::document::{DocumentTemplate, Partial, TagPair, TemplateError};

#[test]
fn document_test_no_tags() {
    let template = DocumentTemplate::new();
    let saturated = template.saturate(&[]);
    assert!(saturated.is_ok());
}

#[test]
fn document_test_one_tag() {
    let template = DocumentTemplate::with_partials(&[
        Partial::StringLiteral("Hello ".to_string()),
        Partial::Tag("name".to_string()),
        Partial::StringLiteral(", welcome!".to_string()),
    ]);

    let filled_document = template
        .saturate(&[TagPair {
            key: "name".to_string(),
            value: "Joe".to_string(),
        }])
        .unwrap();

    let expected_string = "Hello Joe, welcome!".to_string();

    assert_eq!(expected_string, filled_document.document());
}

#[test]
#[should_panic]
fn test_non_existent_tag() {
    let template = DocumentTemplate::with_partials(&[Partial::Tag("name".to_string())]);

    template
        .saturate(&[TagPair {
            key: "Hello".to_string(),
            value: "___".to_string(),
        }])
        .unwrap();
}

#[test]
#[should_panic]
fn non_existent_tag() {
    let template = DocumentTemplate::with_partials(&[Partial::Tag("name".to_string())]);

    template
        .saturate(&[TagPair {
            key: "Hello".to_string(),
            value: "___".to_string(),
        }])
        .unwrap();
}

#[test]
fn test_multiple_tags() {
    let template = DocumentTemplate::with_partials(&[
        Partial::StringLiteral("<S1>".to_string()),
        Partial::Tag("T1".to_string()),
        Partial::StringLiteral("<S2>".to_string()),
        Partial::Tag("T2".to_string()),
        Partial::Tag("T1".to_string()),
        Partial::Tag("T3".to_string()),
    ]);

    let filled_document = template
        .saturate(&[
            TagPair {
                key: "T1".to_string(),
                value: "T1V".to_string(),
            },
            TagPair {
                key: "T2".to_string(),
                value: "T2V".to_string(),
            },
            TagPair {
                key: "T3".to_string(),
                value: "T3V".to_string(),
            },
        ])
        .unwrap();

    let expected_string = "<S1>T1V<S2>T2VT1VT3V".to_string();

    assert_eq!(expected_string, filled_document.document());
}

#[test]
fn test_missing_tag_error_names_identifier() {
    let template = DocumentTemplate::with_partials(&[
        Partial::StringLiteral("Hello ".to_string()),
        Partial::Tag("name".to_string()),
    ]);

    let err = template
        .saturate(&[TagPair {
            key: "other".to_string(),
            value: "x".to_string(),
        }])
        .unwrap_err();

    assert_eq!(err, TemplateError::MissingRequiredTagValue("name".to_string()));
}

#[test]
fn test_unused_pairs_ignored() {
    let template = DocumentTemplate::with_partials(&[Partial::StringLiteral(
        "nothing to fill".to_string(),
    )]);

    let filled_document = template
        .saturate(&[
            TagPair {
                key: "unused".to_string(),
                value: "ignored".to_string(),
            },
            TagPair {
                key: "also_unused".to_string(),
                value: "ignored too".to_string(),
            },
        ])
        .unwrap();

    assert_eq!("nothing to fill", filled_document.document());
}

#[test]
fn test_duplicate_keys_first_wins() {
    let template = DocumentTemplate::with_partials(&[Partial::Tag("k".to_string())]);

    let filled_document = template
        .saturate(&[
            TagPair {
                key: "k".to_string(),
                value: "first".to_string(),
            },
            TagPair {
                key: "k".to_string(),
                value: "second".to_string(),
            },
        ])
        .unwrap();

    assert_eq!("first", filled_document.document());
}

#[test]
fn test_saturate_or_error_lookup() {
    let pairs = [
        TagPair {
            key: "a".to_string(),
            value: "1".to_string(),
        },
        TagPair {
            key: "b".to_string(),
            value: "2".to_string(),
        },
    ];

    assert_eq!(
        Ok(&"2".to_string()),
        docugen::document::saturate_or_error(&pairs, &"b".to_string())
    );
    assert_eq!(
        Err(TemplateError::MissingRequiredTagValue("c".to_string())),
        docugen::document::saturate_or_error(&pairs, &"c".to_string())
    );
}

#[test]
fn test_add_partial_appends() {
    let mut template = DocumentTemplate::new();
    template.add_partial(&Partial::StringLiteral("Hi ".to_string()));
    template.add_partial(&Partial::Tag("name".to_string()));

    assert_eq!(
        DocumentTemplate::with_partials(&[
            Partial::StringLiteral("Hi ".to_string()),
            Partial::Tag("name".to_string()),
        ]),
        template
    );
}
