use mrp::lexer::Lexer;
use mrp::matcher::{match_on, Matches};
use mrp::parser::{compile_match, Parser};

#[test]
fn one() {
    let exp = Parser::new(Lexer::new("abc")).parse_match_exp().unwrap();
    assert_eq!(match_on(exp, "b"), false);
}

#[test]
fn two() {
    let exp = Parser::new(Lexer::new("ab")).parse_match_exp().unwrap();
    assert_eq!(match_on(exp, "abc"), true);
}

#[test]
fn three() {
    let exp = Parser::new(Lexer::new("abc")).parse_match_exp().unwrap();
    assert_eq!(match_on(exp, "abab5"), false);
}

#[test]
fn four() {
    let exp = Parser::new(Lexer::new("ab(n:int)"))
        .parse_match_exp()
        .unwrap();
    assert_eq!(match_on(exp, "ab345"), true);
}

#[test]
fn sub_str_at_the_end() {
    let exp = Parser::new(Lexer::new("ab(n:int)"))
        .parse_match_exp()
        .unwrap();
    assert_eq!(match_on(exp, "helloab345"), true);
}

#[test]
fn five() {
    let exp = Parser::new(Lexer::new("ab(n:int)love(i:int)"))
        .parse_match_exp()
        .unwrap();
    assert_eq!(match_on(exp, "abb"), false);
}

#[test]
fn pattern_two_capture_groups() {
    let exp = Parser::new(Lexer::new("ab(n:int)love(i:int)"))
        .parse_match_exp()
        .unwrap();
    let text = "ab321love78";

    assert_eq!(exp.find_at(text, 0).unwrap().as_str(), text);
    let cap = exp.find_at_capturing(text, 0).1;
    assert_eq!(cap.get("n").unwrap(), "321");
    assert_eq!(cap.get("i").unwrap(), "78");
}

#[test]
fn pattern_muliple_matches() {
    let pattern = compile_match("xy(n:int)").unwrap();
    let text = "wxy10xy33asdfxy81";
    let mut matches = Matches::new(pattern, text);

    assert_eq!(matches.next().unwrap().as_str(), "xy10");
    assert_eq!(matches.next().unwrap().as_str(), "xy33");
    assert_eq!(matches.next().unwrap().as_str(), "xy81");
}
