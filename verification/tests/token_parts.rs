use bril_passes::tokens::{
    extract_character_from_token, extract_string_from_token, Diagnostic, Span,
};

#[test]
fn a_token_in_quotes_holds_what_is_between_them() {
    assert_eq!(extract_string_from_token("\"lib/util.bril\""), Some("lib/util.bril"));
    assert_eq!(extract_string_from_token("\"\""), Some(""));
    assert_eq!(extract_string_from_token("\"grüße\""), Some("grüße"));
    assert_eq!(extract_string_from_token("'a'"), Some("a"));
}

#[test]
fn the_token_of_a_character_holds_its_second_character() {
    assert_eq!(extract_character_from_token("'a'"), Some('a'));
    assert_eq!(extract_character_from_token("'ü'"), Some('ü'));
    assert_eq!(extract_character_from_token("''"), Some('\''));
    assert_eq!(extract_character_from_token("'"), None);
    assert_eq!(extract_character_from_token(""), None);
}

#[test]
fn notes_are_kept_in_the_order_given() {
    let at = Span { start: 3, end: 7 };
    let d = Diagnostic::new("unknown operation".to_string(), at)
        .label("used here".to_string(), Span { start: 9, end: 12 })
        .explain("operations are written in lower case".to_string());
    assert_eq!(d.message, "unknown operation");
    assert_eq!(d.span, at);
    assert_eq!(
        d.labels,
        [
            ("used here".to_string(), Some(Span { start: 9, end: 12 })),
            ("operations are written in lower case".to_string(), None),
        ]
    );
    let plain = Diagnostic::new("x".to_string(), at);
    assert!(plain.labels.is_empty());
}
