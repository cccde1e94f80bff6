use mrp::error::ParseErrorKind::{
    ExpectedToken, OutOfBoundsCaptureIndex, UndeclaredIdentifier, UnexpectedToken, UnsupportedToken,
};
use mrp::error::{ParseError, ParseErrorKind, Piece, Segment, Style};
use mrp::lexer::TokenKind::{Arrow, CaptureIndex, Colon, End, Ident, Literal, Lparen, Rparen, Type};
use mrp::lexer::{Token, TokenKind, TokenText};
use mrp::parser::compile;

fn assert_error(input: &str, kind: ParseErrorKind) {
    let err = compile(input).unwrap_err();
    assert_eq!(err, ParseError { input, kind });
}

#[test]
fn expecting_identifier() {
    assert_error(
        "a(:int)",
        ParseErrorKind::ExpectedToken {
            expected: TokenKind::Ident,
            found: TokenKind::Colon,
            text: ":",
            position: 2,
        },
    );

    assert_error(
        "a(n:int)->(",
        ParseErrorKind::ExpectedToken {
            expected: TokenKind::Ident,
            found: TokenKind::End,
            text: "",
            position: 11,
        },
    );

    assert_error(
        "a(n:int)->()",
        ParseErrorKind::ExpectedToken {
            expected: TokenKind::Ident,
            found: TokenKind::Rparen,
            text: ")",
            position: 11,
        },
    );
}

#[test]
fn expecting_capture_closing_paren() {
    assert_error(
        "(n:int",
        ExpectedToken {
            expected: Rparen,
            found: End,
            text: "",
            position: 6,
        },
    );

    assert_error(
        "(n:int ",
        ExpectedToken {
            expected: Rparen,
            found: Literal,
            text: " ",
            position: 6,
        },
    );

    assert_error(
        "(n:int->(n)",
        ExpectedToken {
            expected: Rparen,
            found: Arrow,
            text: "->",
            position: 6,
        },
    );
}

#[test]
fn expecting_replacement_exp_after_arrow() {
    assert_error(
        "wer324->",
        UnexpectedToken {
            unexpected: End,
            previous: Arrow,
            position: 8,
        },
    );
}

#[test]
fn rejecting_undeclared_identifers() {
    assert_error(
        "a->(n)",
        UndeclaredIdentifier {
            ident: "n",
            declared: vec![],
            position: 4,
        },
    );

    assert_error(
        "a(a:int)(ell:dig)->(n)",
        UndeclaredIdentifier {
            ident: "n",
            declared: vec!["a", "ell"],
            position: 20,
        },
    );
}

#[test]
fn expecting_types() {
    assert_error(
        "t(n:)8",
        ParseErrorKind::ExpectedToken {
            expected: TokenKind::Type,
            found: TokenKind::Rparen,
            text: ")",
            position: 4,
        },
    );

    assert_error(
        "t(n:di)8",
        ParseErrorKind::UnsupportedToken(Token {
            kind: TokenKind::Type,
            text: TokenText::Slice("di"),
            start: 4,
        }),
    );
}

#[test]
fn expecting_a_colon_after_a_capture_name() {
    assert_error(
        "(n int)",
        ExpectedToken {
            expected: Colon,
            found: Literal,
            text: " int",
            position: 2,
        },
    );
}

#[test]
fn rejecting_an_unnamed_capture_of_unknown_type() {
    assert_error(
        "a(num)",
        UnsupportedToken(Token {
            kind: Ident,
            text: TokenText::Slice("num"),
            start: 2,
        }),
    );
    assert_error(
        "(\u{e9})",
        UnsupportedToken(Token {
            kind: Ident,
            text: TokenText::Slice("\u{e9}"),
            start: 1,
        }),
    );
}

#[test]
fn rejecting_capture_indices_out_of_bounds() {
    assert_error(
        "a(int)b(n:dig)->(2)",
        OutOfBoundsCaptureIndex {
            index: 2,
            number_declared: 1,
            position: 17,
        },
    );
    assert_error(
        "a(int)->(0)",
        OutOfBoundsCaptureIndex {
            index: 0,
            number_declared: 1,
            position: 9,
        },
    );
    assert_error(
        "a(int)->(99999999999999999999999)",
        OutOfBoundsCaptureIndex {
            index: usize::MAX,
            number_declared: 1,
            position: 9,
        },
    );
}

#[test]
fn error_locations() {
    assert_eq!(compile("t(n:di)8").unwrap_err().error_location(), 4);
    assert_eq!(compile("wer324->").unwrap_err().error_location(), 8);
    assert_eq!(compile("a->(n)").unwrap_err().error_location(), 4);
}

#[test]
fn token_kind_descriptions() {
    assert_eq!(Literal.description(), "literal");
    assert_eq!(Type.description(), "type keyword");
    assert_eq!(Ident.description(), "identifier");
    assert_eq!(Arrow.description(), "pattern separator");
    assert_eq!(End.description(), "end of expression");
    assert_eq!(Colon.description(), "special character");
    assert_eq!(CaptureIndex.description(), "capture index");
}

fn plain(t: &str) -> Segment {
    Segment { style: Style::Plain, piece: Piece::Text(t) }
}

fn styled(style: Style, t: &str) -> Segment {
    Segment { style, piece: Piece::Text(t) }
}

#[test]
fn diagnostic_of_an_undeclared_identifier() {
    let err = compile("a(a:int)(ell:dig)->(n)").unwrap_err();
    assert_eq!(
        err.diagnostic(),
        vec![
            plain("\n"),
            styled(Style::Source, "a(a:int)(ell:dig)->(n)"),
            plain("\n"),
            Segment { style: Style::Plain, piece: Piece::Spaces(20) },
            styled(Style::Pointer, "\u{21B3}"),
            plain(" "),
            styled(Style::Pointer, "@col"),
            plain(":"),
            Segment { style: Style::Column, piece: Piece::Number(20) },
            plain(" "),
            plain("undeclared identifier "),
            styled(Style::Found, "n"),
            plain("; declared: "),
            styled(Style::Expected, "a"),
            plain(", "),
            styled(Style::Expected, "ell"),
        ]
    );
}

#[test]
fn message_of_an_unsupported_type() {
    let err = compile("t(n:di)8").unwrap_err();
    assert_eq!(
        err.kind.message(),
        vec![
            plain("unsupported token: "),
            styled(Style::Found, "type keyword"),
            plain(" "),
            styled(Style::Quoted, "\""),
            styled(Style::Quoted, "di"),
            styled(Style::Quoted, "\""),
            plain(" - supported types are: "),
            styled(Style::TypeName, "int"),
            plain(", "),
            styled(Style::TypeName, "dig"),
        ]
    );
}

#[test]
fn message_of_an_expected_token() {
    let err = compile("(ident:)").unwrap_err();
    assert_eq!(
        err.kind.message(),
        vec![
            plain("expected "),
            styled(Style::Expected, "type keyword"),
            plain(", but found a "),
            styled(Style::Found, "special character"),
            plain(", "),
            styled(Style::Quoted, "\""),
            styled(Style::Quoted, ")"),
            styled(Style::Quoted, "\""),
        ]
    );
}

#[test]
fn message_of_an_unexpected_token_and_a_bad_index() {
    let err = compile("wer324->").unwrap_err();
    assert_eq!(
        err.kind.message(),
        vec![
            plain("unexpected "),
            styled(Style::Found, "end of expression"),
            plain(", after a "),
            styled(Style::Expected, "pattern separator"),
        ]
    );
    let err = compile("a(int)->(3)").unwrap_err();
    assert_eq!(
        err.kind.message(),
        vec![
            plain("capture index "),
            Segment { style: Style::Found, piece: Piece::Number(3) },
            plain(" is out of bounds; unnamed captures declared: "),
            Segment { style: Style::Expected, piece: Piece::Number(1) },
        ]
    );
}
