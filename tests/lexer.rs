use mrp::lexer::TokenKind::{Arrow, CaptureIndex, Colon, End, Ident, Literal, Lparen, Rparen, Type};
use mrp::lexer::{Lexer, Token, TokenKind, TokenText};

fn token<'s>(kind: TokenKind, start: usize) -> Token<'s> {
    Token {
        kind,
        text: TokenText::Slice(match kind {
            Lparen => "(",
            Rparen => ")",
            Colon => ":",
            Arrow => "->",
            _ => unreachable!("bad test case"),
        }),
        start,
    }
}

fn token_string(kind: TokenKind, text: &str, start: usize) -> Token {
    Token {
        kind,
        text: TokenText::Slice(text),
        start,
    }
}

#[test]
fn one_char_sequence() {
    let mut l = Lexer::new("abcna");
    assert_eq!(l.next_token(), token_string(Literal, "abcna", 0));
}

#[test]
fn one_literal_and_one_digit_capture() {
    let mut l = Lexer::new("a5(d:dig)");

    assert_eq!(l.next_token(), token_string(Literal, "a5", 0));
    assert_eq!(l.next_token(), token(Lparen, 2));
    assert_eq!(l.next_token(), token_string(Ident, "d", 3));
    assert_eq!(l.next_token(), token(Colon, 4));
    assert_eq!(l.next_token(), token_string(Type, "dig", 5));
    assert_eq!(l.next_token(), token(Rparen, 8));
}

#[test]
fn one_literal_letter_and_one_integer_capture() {
    let mut l = Lexer::new("z(i:int)");
    assert_eq!(l.next_token(), token_string(Literal, "z", 0));
    assert_eq!(l.next_token(), token(Lparen, 1));
    assert_eq!(l.next_token(), token_string(Ident, "i", 2));
    assert_eq!(l.next_token(), token(Colon, 3));
    assert_eq!(l.next_token(), token_string(Type, "int", 4));
    assert_eq!(l.next_token(), token(Rparen, 7));
}

#[test]
fn two_intersperced_captures() {
    let mut l = Lexer::new("iawe10(x:dig)zap(i:int)");

    assert_eq!(l.next_token(), token_string(Literal, "iawe10", 0));
    assert_eq!(l.next_token(), token(Lparen, 6));
    assert_eq!(l.next_token(), token_string(Ident, "x", 7));
    assert_eq!(l.next_token(), token(Colon, 8));
    assert_eq!(l.next_token(), token_string(Type, "dig", 9));
    assert_eq!(l.next_token(), token(Rparen, 12));

    assert_eq!(l.next_token(), token_string(Literal, "zap", 13));
    assert_eq!(l.next_token(), token(Lparen, 16));
    assert_eq!(l.next_token(), token_string(Ident, "i", 17));
    assert_eq!(l.next_token(), token(Colon, 18));
    assert_eq!(l.next_token(), token_string(Type, "int", 19));
    assert_eq!(l.next_token(), token(Rparen, 22));
}

#[test]
fn two_consecutive_captures() {
    let mut l = Lexer::new("a5(d:dig)(num:int)");
    assert_eq!(l.next_token(), token_string(Literal, "a5", 0));
    assert_eq!(l.next_token(), token(Lparen, 2));
    assert_eq!(l.next_token(), token_string(Ident, "d", 3));
    assert_eq!(l.next_token(), token(Colon, 4));
    assert_eq!(l.next_token(), token_string(Type, "dig", 5));
    assert_eq!(l.next_token(), token(Rparen, 8));

    assert_eq!(l.next_token(), token(Lparen, 9));
    assert_eq!(l.next_token(), token_string(Ident, "num", 10));
    assert_eq!(l.next_token(), token(Colon, 13));
    assert_eq!(l.next_token(), token_string(Type, "int", 14));
    assert_eq!(l.next_token(), token(Rparen, 17));
}

#[test]
fn simple_match_and_replacement() {
    let mut l = Lexer::new("a(n:dig)->(n)b");
    assert_eq!(l.next_token(), token_string(Literal, "a", 0));
    assert_eq!(l.next_token(), token(Lparen, 1));
    assert_eq!(l.next_token(), token_string(Ident, "n", 2));
    assert_eq!(l.next_token(), token(Colon, 3));
    assert_eq!(l.next_token(), token_string(Type, "dig", 4));
    assert_eq!(l.next_token(), token(Rparen, 7));
    assert_eq!(l.next_token(), token(Arrow, 8));
    assert_eq!(l.next_token(), token(Lparen, 10));
    assert_eq!(l.next_token(), token_string(Ident, "n", 11));
    assert_eq!(l.next_token(), token(Rparen, 12));
    assert_eq!(l.next_token(), token_string(Literal, "b", 13));
}

#[test]
fn end_token_repeats_at_the_end() {
    let mut l = Lexer::new("ab");
    assert_eq!(l.next_token(), token_string(Literal, "ab", 0));
    let end = Token { kind: End, text: TokenText::Empty, start: 2 };
    assert_eq!(l.next_token(), end);
    assert_eq!(l.next_token(), end);
}

#[test]
fn digits_after_a_paren_are_a_capture_index() {
    let mut l = Lexer::new("x->(12)y");
    assert_eq!(l.next_token(), token_string(Literal, "x", 0));
    assert_eq!(l.next_token(), token(Arrow, 1));
    assert_eq!(l.next_token(), token(Lparen, 3));
    assert_eq!(l.next_token(), token_string(CaptureIndex, "12", 4));
    assert_eq!(l.next_token(), token(Rparen, 6));
    assert_eq!(l.next_token(), token_string(Literal, "y", 7));
}

#[test]
fn a_dash_without_arrow_starts_a_new_literal() {
    let mut l = Lexer::new("a-b->c");
    assert_eq!(l.next_token(), token_string(Literal, "a", 0));
    assert_eq!(l.next_token(), token_string(Literal, "-b", 1));
    assert_eq!(l.next_token(), token(Arrow, 3));
    assert_eq!(l.next_token(), token_string(Literal, "c", 5));
    let mut l = Lexer::new("x-->y");
    assert_eq!(l.next_token(), token_string(Literal, "x", 0));
    assert_eq!(l.next_token(), token_string(Literal, "-", 1));
    assert_eq!(l.next_token(), token(Arrow, 2));
    assert_eq!(l.next_token(), token_string(Literal, "y", 4));
}

#[test]
fn a_word_never_splits_a_character() {
    let mut l = Lexer::new("(\u{e9}x)");
    assert_eq!(l.next_token(), token(Lparen, 0));
    assert_eq!(l.next_token(), token_string(Ident, "\u{e9}x", 1));
    assert_eq!(l.next_token(), token(Rparen, 4));
    assert_eq!(TokenText::Slice("\u{e9}x").len(), 3);
}

#[test]
fn lexer_keeps_its_input() {
    let l = Lexer::new("a(n:int)");
    assert_eq!(l.input(), "a(n:int)");
    assert_eq!(TokenText::Empty.len(), 0);
    assert_eq!(TokenText::Slice("int").as_str(), "int");
}
