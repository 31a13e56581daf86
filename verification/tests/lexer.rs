use stepq::p21::{Lexer, Token, TokenKind};
use stepq::p21::TokenKind as K;
use stepq::Error;

fn lex(src: &str) -> Vec<Token> {
    let mut lexer = Lexer::new(src.as_bytes());
    let mut tokens = Vec::new();
    while let Some(token) = lexer.next() {
        tokens.push(token.expect("input lexes"));
    }
    tokens
}

fn kinds(src: &str) -> Vec<TokenKind> {
    lex(src).into_iter().map(|t| t.kind).collect()
}

fn texts(src: &str) -> Vec<&str> {
    lex(src)
        .iter()
        .map(|t| std::str::from_utf8(t.span.slice(src.as_bytes())).unwrap())
        .collect()
}

fn syntax_error(src: &str) -> (usize, usize, String) {
    let mut lexer = Lexer::new(src.as_bytes());
    while let Some(item) = lexer.next() {
        if let Err(err) = item {
            match err {
                Error::Syntax {
                    line,
                    column,
                    message,
                    ..
                } => return (line, column, message),
                other => panic!("expected a syntax error for {src:?}, got {other:?}"),
            }
        }
    }
    panic!("expected a syntax error for {src:?}")
}

#[test]
fn minimal_file() {
    let src = "ISO-10303-21;\nHEADER;\nFILE_SCHEMA(('AUTOMOTIVE_DESIGN'));\nENDSEC;\n\
               DATA;\n#1=PRODUCT('a','b',$,(#2));\nENDSEC;\nEND-ISO-10303-21;\n";
    let texts = texts(src);
    assert_eq!(texts[..2], ["ISO-10303-21", ";"]);
    assert_eq!(texts[texts.len() - 2..], ["END-ISO-10303-21", ";"]);
    let data = texts.iter().position(|&t| t == "#1").unwrap();
    assert_eq!(
        texts[data..=data + 14],
        [
            "#1", "=", "PRODUCT", "(", "'a'", ",", "'b'", ",", "$", ",", "(", "#2", ")", ")", ";"
        ]
    );
}

#[test]
fn token_kinds() {
    assert_eq!(
        kinds("( ) , ; = $ *"),
        [
            K::LeftParen,
            K::RightParen,
            K::Comma,
            K::Semicolon,
            K::Equals,
            K::Dollar,
            K::Asterisk
        ]
    );
    assert_eq!(
        kinds("#42 #ORIGIN @7 <part.stp#frame>"),
        [K::InstanceName(42), K::ConstantName, K::ValueName, K::Resource]
    );
    assert_eq!(
        kinds("PRODUCT !ACME_THING &SCOPE ENDSCOPE"),
        [K::Keyword, K::UserKeyword, K::Keyword, K::Keyword]
    );
    assert_eq!(
        kinds(".T. .UNSPECIFIED. \"0FF\" \"3\""),
        [K::Enumeration, K::Enumeration, K::Binary, K::Binary]
    );
}

#[test]
fn numbers() {
    assert_eq!(kinds("0 42 -7 +3"), [K::Integer; 4]);
    assert_eq!(kinds("0. 1.5 -1.E-5 +2.25E+10 2.5e3 1E5"), [K::Real; 6]);
    assert_eq!(texts("(-1.E-5,3)"), ["(", "-1.E-5", ",", "3", ")"]);
}

#[test]
fn complex_instance() {
    assert_eq!(
        texts("#2=(LENGTH_UNIT()NAMED_UNIT(*)SI_UNIT(.MILLI.,.METRE.));"),
        [
            "#2",
            "=",
            "(",
            "LENGTH_UNIT",
            "(",
            ")",
            "NAMED_UNIT",
            "(",
            "*",
            ")",
            "SI_UNIT",
            "(",
            ".MILLI.",
            ",",
            ".METRE.",
            ")",
            ")",
            ";"
        ]
    );
}

#[test]
fn hash_inside_string_is_not_a_reference() {
    let kinds = kinds("#9=PROPERTY_DEFINITION('volume of #602','',#8);");
    assert!(!kinds.contains(&TokenKind::InstanceName(602)));
    assert_eq!(kinds.iter().filter(|&&k| k == TokenKind::String).count(), 2);
}

#[test]
fn string_literals() {
    assert_eq!(
        texts(r"'it''s' '' '''' 'a\b'"),
        ["'it''s'", "''", "''''", r"'a\b'"]
    );
    assert_eq!(texts("'long\r\nline''' ;"), ["'long\r\nline'''", ";"]);
}

#[test]
fn comments_and_whitespace_are_skipped() {
    let src = "\u{FEFF}/* lead */FILE_NAME(/* name */'x',\t/* multi\nline */'y')\r\n\0";
    assert_eq!(texts(src), ["FILE_NAME", "(", "'x'", ",", "'y'", ")"]);
    assert!(lex("  /**/ \n ").is_empty());
}

#[test]
fn lexer_errors_report_position() {
    let (line, column, message) = syntax_error("DATA;\n#1=A('open);\n");
    assert_eq!((line, column), (2, 6));
    assert!(message.contains("unterminated string"), "{message}");

    let (line, column, message) = syntax_error("A;\n  /* never closed");
    assert_eq!((line, column), (2, 3));
    assert!(message.contains("unterminated comment"), "{message}");
}

#[test]
fn malformed_input_is_rejected() {
    for (src, needle) in [
        ("#1=A({);", "unexpected character '{'"),
        ("#1=A(/);", "unexpected character '/'"),
        ("A \u{e9}", "unexpected byte 0xC3"),
        ("(- 1)", "expected a digit after the sign"),
        ("(1.E)", "expected digits in exponent"),
        ("(.T)", "unterminated enumeration"),
        ("(..)", "expected a name after '.'"),
        ("(\"4F\")", "unused bit count"),
        ("(\"0FG\")", "binary literal"),
        ("#99999999999999999999=A();", "64 bits"),
        ("# 1", "expected a name after '#'"),
        ("@ 1", "expected a name after '@'"),
        ("! A", "expected a name after '!'"),
        ("<http://example.com", "unterminated resource"),
    ] {
        let (_, _, message) = syntax_error(src);
        assert!(message.contains(needle), "{src:?}: {message}");
    }
}

#[test]
fn iterator_stops_after_an_error() {
    let mut lexer = Lexer::new(b"A { B C");
    assert!(matches!(lexer.next(), Some(Ok(_))));
    assert!(matches!(lexer.next(), Some(Err(_))));
    assert!(lexer.next().is_none());
    assert!(lexer.next().is_none());
}

#[test]
fn megabyte_single_line() {
    let refs = 200_000;
    let mut src = String::from("#1=POLY_LOOP('',(");
    for i in 0..refs {
        if i > 0 {
            src.push(',');
        }
        src.push_str("#12345");
    }
    src.push_str("));");
    assert!(src.len() > 1_000_000);
    let tokens = lex(&src);
    let refs_seen = tokens
        .iter()
        .filter(|t| t.kind == TokenKind::InstanceName(12345))
        .count();
    assert_eq!(refs_seen, refs);
}

#[test]
fn next_token_continues_after_an_error() {
    let mut lexer = Lexer::new(b"A { B");
    assert!(matches!(lexer.next_token(), Ok(Some(_))));
    assert_eq!(lexer.offset(), 1);
    assert!(lexer.next_token().is_err());
    assert_eq!(lexer.source(), b"A { B");
}
