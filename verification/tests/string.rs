use stepq::p21::{decode_string, Lexer, Span, TokenKind};
use stepq::{Error, Result};

fn decode_bytes(src: &[u8]) -> Result<String> {
    let token = Lexer::new(src).next().expect("a token")?;
    assert_eq!(token.kind, TokenKind::String);
    decode_string(src, token.span)
}

fn decode(literal: &str) -> Result<String> {
    decode_bytes(literal.as_bytes())
}

#[test]
fn plain_text_is_borrowed() {
    let src = b"'Bracket, left'";
    let span = Span {
        start: 0,
        end: src.len(),
    };
    assert_eq!(decode_string(src, span).unwrap(), "Bracket, left");
}

#[test]
fn directives_and_escapes() {
    for (literal, expected) in [
        ("''", ""),
        ("'it''s'", "it's"),
        (r"'C:\\parts\\a.stp'", r"C:\parts\a.stp"),
        (r"'C:\parts\a.stp'", r"C:\parts\a.stp"),
        (r"'caf\X\E9'", "café"),
        (r"'caf\S\i'", "café"),
        (r"'\PA\caf\S\i'", "café"),
        (r"'\X2\00E9004C\X0\'", "éL"),
        (r"'\X2\D83DDE00\X0\'", "😀"),
        (r"'\X4\0001F600\X0\ ok'", "😀 ok"),
        (r"'\X2\\X0\'", ""),
        (r"'a\N\b\T\c'", "a\nb\tc"),
        ("'wrapped\r\n text'", "wrapped text"),
        ("'caf\u{e9}'", "café"),
    ] {
        assert_eq!(decode(literal).unwrap(), expected, "{literal}");
    }
}

#[test]
fn latin1_bytes_are_accepted() {
    assert_eq!(decode_bytes(b"'caf\xE9'").unwrap(), "café");
}

#[test]
fn malformed_directives_are_errors() {
    for (literal, needle) in [
        (r"'\X2\00E\X0\'", "4 hexadecimal digits"),
        (r"'\X2\00E9'", "4 hexadecimal digits"),
        (r"'\X4\FFFFFFFF\X0\'", "invalid Unicode"),
        (r"'\X2\DE00\X0\'", "invalid Unicode"),
        (r"'\X\ZZ'", "two hexadecimal digits"),
        (r"'\PB\\S\a'", "ISO 8859-2"),
    ] {
        let message = decode(literal).unwrap_err().to_string();
        assert!(message.contains(needle), "{literal}: {message}");
    }
}

#[test]
fn errors_point_into_the_literal() {
    let Err(Error::Syntax { column, .. }) = decode(r"'\X2\00E\X0\'") else {
        panic!("expected a syntax error");
    };
    assert_eq!(column, 6);
}

#[test]
fn non_string_span_is_an_error() {
    let src = b"#1=A(2);";
    let span = Span { start: 5, end: 6 };
    assert!(decode_string(src, span).is_err());
    let out_of_bounds = Span { start: 4, end: 99 };
    assert!(decode_string(src, out_of_bounds).is_err());
}
