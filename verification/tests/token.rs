use yajl::token::{tokenize_spans, Token, TokenKind};

#[test]
fn token_new_keeps_its_parts() {
    let t = Token::new("\"a\"", TokenKind::String, 1..4);
    assert_eq!(t.text, "\"a\"");
    assert_eq!(t.kind, TokenKind::String);
    assert_eq!(t.span, 1..4);
}

#[test]
fn tokenize_spans_finds_each_kind() {
    let text = br#"{"Hello": "world"}"#;
    assert_eq!(
        tokenize_spans(text),
        vec![
            (TokenKind::LeftCurly, 0, 1),
            (TokenKind::String, 1, 8),
            (TokenKind::Colon, 8, 9),
            (TokenKind::String, 10, 17),
            (TokenKind::RightCurly, 17, 18),
        ]
    );
    assert_eq!(tokenize_spans(b"\"\""), vec![(TokenKind::String, 0, 2)]);
    assert_eq!(tokenize_spans(b""), vec![]);
}

#[test]
fn tokenize_spans_passes_over_what_is_no_token() {
    // other characters are passed over whole, multi-byte ones too
    assert_eq!(tokenize_spans("[ é{".as_bytes()), vec![(TokenKind::LeftCurly, 4, 5)]);
    // a string with a backslash stops there; the rest is read afresh
    assert_eq!(tokenize_spans(b"\"a\\\" \"b\""), vec![(TokenKind::String, 3, 6)]);
    // a quote that is never closed runs to the end
    assert_eq!(tokenize_spans(b"\"ab\\cd\" :"), vec![]);
    assert_eq!(tokenize_spans(b"\"ab{:"), vec![]);
}
