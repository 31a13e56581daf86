use stepq::express::lexer::{tokenize, Kind};

fn texts(src: &str) -> Vec<(Kind, &str)> {
    tokenize(src.as_bytes())
        .unwrap()
        .into_iter()
        .map(|t| (t.kind, &src[t.start..t.end]))
        .collect()
}

#[test]
fn tokens_and_remarks() {
    let src = "ENTITY a_1; (* outer (* nested *) still *) x : SET [1:?] OF 'it''s'; -- tail (*\n 2.5E-3 \"0041\" END_ENTITY;";
    assert_eq!(
        texts(src),
        [
            (Kind::Ident, "ENTITY"),
            (Kind::Ident, "a_1"),
            (Kind::Symbol, ";"),
            (Kind::Ident, "x"),
            (Kind::Symbol, ":"),
            (Kind::Ident, "SET"),
            (Kind::Symbol, "["),
            (Kind::Integer, "1"),
            (Kind::Symbol, ":"),
            (Kind::Symbol, "?"),
            (Kind::Symbol, "]"),
            (Kind::Ident, "OF"),
            (Kind::String, "'it''s'"),
            (Kind::Symbol, ";"),
            (Kind::Real, "2.5E-3"),
            (Kind::String, "\"0041\""),
            (Kind::Ident, "END_ENTITY"),
            (Kind::Symbol, ";"),
        ]
    );
}

#[test]
fn index_after_integer_is_not_a_real() {
    assert_eq!(
        texts("a[1].b"),
        [
            (Kind::Ident, "a"),
            (Kind::Symbol, "["),
            (Kind::Integer, "1"),
            (Kind::Symbol, "]"),
            (Kind::Symbol, "."),
            (Kind::Ident, "b"),
        ]
    );
}

#[test]
fn unterminated_input_is_an_error() {
    for src in ["(* open (* nested *)", "'open", "\"0041"] {
        assert!(tokenize(src.as_bytes()).is_err(), "{src}");
    }
}

#[test]
fn remark_errors_point_at_the_remark() {
    let err = tokenize(b"a (* open").unwrap_err();
    assert!(err.to_string().contains("unterminated remark"));
    assert_eq!(texts("1. 1.5e2").len(), 3);
}
