use mrp::error::{ParseError, ParseErrorKind};
use mrp::lexer::{Lexer, TokenKind};
use mrp::parser::{
    compile, AbstractMatchingExpression, AbstractReplaceExpression, CaptureType, MatchExpression,
    Parser, ReplaceExpression,
};

#[test]
fn test_literal_expression() {
    let input = "abc";
    let mut p = Parser::new(Lexer::new(input));

    assert_eq!(
        p.parse_match_exp().unwrap(),
        MatchExpression::new(vec![AbstractMatchingExpression::Literal("abc")])
    );

    let input = "1234";
    let mut p = Parser::new(Lexer::new(input));

    assert_eq!(
        p.parse_match_exp().unwrap(),
        MatchExpression::new(vec![AbstractMatchingExpression::Literal("1234")],)
    )
}

#[test]
fn test_capture_expression() {
    let input = "(num:int)";
    let mut p = Parser::new(Lexer::new(input));

    assert_eq!(
        p.parse_match_exp().unwrap(),
        MatchExpression::new(vec![AbstractMatchingExpression::Capture {
            identifier: Some("num"),
            identifier_type: CaptureType::Int
        }])
    );
}

#[test]
fn test_simple_match_expression() {
    let input = "abc(d:dig)";
    let mut p = Parser::new(Lexer::new(input));

    assert_eq!(
        p.parse_match_exp().unwrap(),
        MatchExpression::new(vec![
            AbstractMatchingExpression::Literal("abc"),
            AbstractMatchingExpression::Capture {
                identifier: Some("d"),
                identifier_type: CaptureType::Digit
            }
        ])
    )
}

#[test]
fn test_multiple_captures_in_match_expression() {
    let input = "abc235(d:dig)zap(num:int)(d:int)";
    let mut p = Parser::new(Lexer::new(input));

    assert_eq!(
        p.parse_match_exp().unwrap(),
        MatchExpression::new(vec![
            AbstractMatchingExpression::Literal("abc235"),
            AbstractMatchingExpression::Capture {
                identifier: Some("d"),
                identifier_type: CaptureType::Digit
            },
            AbstractMatchingExpression::Literal("zap"),
            AbstractMatchingExpression::Capture {
                identifier: Some("num"),
                identifier_type: CaptureType::Int
            },
            AbstractMatchingExpression::Capture {
                identifier: Some("d"),
                identifier_type: CaptureType::Int
            },
        ])
    )
}

#[test]
fn test_wrong_capture_syntax() {
    let source = "(ident:)";
    let mut p = Parser::new(Lexer::new(source));
    assert_eq!(
        p.parse_match_exp().unwrap_err(),
        ParseError {
            input: source,
            kind: ParseErrorKind::ExpectedToken {
                expected: TokenKind::Type,
                found: TokenKind::Rparen,
                text: ")",
                position: 7
            }
        }
    );
}

#[test]
fn test_simple_match_and_replace_expression() {
    let input = "(num:int)asdf->lul(num)";
    let mut p = Parser::new(Lexer::new(input));

    assert_eq!(
        p.parse_match_exp().unwrap(),
        MatchExpression::new(vec![
            AbstractMatchingExpression::Capture {
                identifier: Some("num"),
                identifier_type: CaptureType::Int
            },
            AbstractMatchingExpression::Literal("asdf"),
        ])
    );

    assert_eq!(
        p.parse_replacement_exp(vec!["num"], 0).unwrap(),
        ReplaceExpression {
            expressions: vec![
                AbstractReplaceExpression::Literal("lul"),
                AbstractReplaceExpression::Identifier("num")
            ]
        }
    )
}

#[test]
fn unnamed_captures_and_their_indices() {
    let e = compile("img(int)_(n:dig)(dig)->(2)-(n)-(1)").unwrap();
    assert_eq!(
        e.mex.expressions,
        vec![
            AbstractMatchingExpression::Literal("img"),
            AbstractMatchingExpression::Capture {
                identifier: None,
                identifier_type: CaptureType::Int
            },
            AbstractMatchingExpression::Literal("_"),
            AbstractMatchingExpression::Capture {
                identifier: Some("n"),
                identifier_type: CaptureType::Digit
            },
            AbstractMatchingExpression::Capture {
                identifier: None,
                identifier_type: CaptureType::Digit
            },
        ]
    );
    assert_eq!(
        e.rex.expressions,
        vec![
            AbstractReplaceExpression::CaptureIndex(2),
            AbstractReplaceExpression::Literal("-"),
            AbstractReplaceExpression::Identifier("n"),
            AbstractReplaceExpression::Literal("-"),
            AbstractReplaceExpression::CaptureIndex(1),
        ]
    );
}

#[test]
fn a_pattern_without_arrow_has_an_empty_replacement() {
    let e = compile("ab(n:int)").unwrap();
    assert_eq!(e.mex.expressions.len(), 2);
    assert!(e.rex.expressions.is_empty());
}

#[test]
fn get_expression_by_index() {
    let e = compile("ab(n:int)").unwrap();
    assert_eq!(
        e.mex.get_expression(0),
        Some(AbstractMatchingExpression::Literal("ab"))
    );
    assert_eq!(e.mex.get_expression(2), None);
}
