use mrp::captures::{CaptureName, Captures};
use mrp::lexer::Lexer;
use mrp::matcher::Matches;
use mrp::parser::{compile, compile_match, Parser};
use mrp::MatchAndReplacer;

fn assert_match_on(pattern: &str, input: &str, expected: bool) {
    let exp = Parser::new(Lexer::new(pattern)).parse_match_exp().unwrap();
    assert_eq!(Matches::new(exp, input).count() > 0, expected);
}

#[test]
fn match_counts() {
    assert_match_on("abc", "b", false);
    assert_match_on("ab", "abc", true);
    assert_match_on("abc", "abab5", false);
    assert_match_on("ab(n:int)", "ab345", true);
    assert_match_on("ab(n:int)", "helloab345", true);
    assert_match_on("ab(n:int)love(i:int)", "abb", false);
}

#[test]
fn matcher_two_capture_groups() {
    let exp = Parser::new(Lexer::new("ab(n:int)love(i:int)"))
        .parse_match_exp()
        .unwrap();
    let text = "ab321love78";

    assert_eq!(exp.find_at(text, 0).unwrap().as_str(), text);

    let cap = exp.find_at_capturing(text, 0).1;

    assert_eq!(cap.get("n").unwrap(), "321");
    assert_eq!(cap.get("i").unwrap(), "78");
}

#[test]
fn digit_capture_group() {
    let exp = Parser::new(Lexer::new("digit(d:dig)"))
        .parse_match_exp()
        .unwrap();
    let text = "aewrdigit276yoypa";

    assert_eq!(exp.find_at(text, 0).unwrap().as_str(), "digit2");
    let cap = exp.find_at_capturing(text, 0).1;
    assert_eq!(cap.get("d").unwrap(), "2");
}

#[test]
fn three_capture_groups() {
    let exp = Parser::new(Lexer::new("ab(n:int)love(i:int)ly(d:dig)"))
        .parse_match_exp()
        .unwrap();
    let text = "ab321love78ly8";

    assert_eq!(exp.find_at(text, 0).unwrap().as_str(), text);
    let cap = exp.find_at_capturing(text, 0).1;
    assert_eq!(cap.get("n").unwrap(), "321");
    assert_eq!(cap.get("i").unwrap(), "78");
    assert_eq!(cap.get("d").unwrap(), "8");
}

#[test]
fn int_capture_group_at_the_begining() {
    let exp = Parser::new(Lexer::new("(n:int)love(i:int)ly(d:dig)"))
        .parse_match_exp()
        .unwrap();
    let text = "ab321love78ly8";

    assert_eq!(exp.find_at(text, 0).unwrap().as_str(), &text[2..]);

    let cap = exp.find_at_capturing(text, 0).1;
    assert_eq!(cap.get("n").unwrap(), "321");
    assert_eq!(cap.get("i").unwrap(), "78");
    assert_eq!(cap.get("d").unwrap(), "8");
}

#[test]
fn special() {
    let exp = compile_match("hello(as:dig)->oh(as)hi").unwrap();
    assert_eq!(exp.find_at("ashello090", 0).unwrap().as_str(), "hello0");
}

#[test]
fn matcher_muliple_matches() {
    let pattern = compile_match("xy(n:int)").unwrap();
    let text = "wxy10xy33asdfxy81";
    let mut matches = Matches::new(pattern, text);

    assert_eq!(matches.next().unwrap().as_str(), "xy10");
    assert_eq!(matches.next().unwrap().as_str(), "xy33");
    assert_eq!(matches.next().unwrap().as_str(), "xy81");
}

#[test]
fn whole_string_match_and_capture() {
    let exp = compile_match("abc(n:int)").unwrap();
    let (m, cap) = exp.find_at_capturing("abc235", 0);
    let m = m.unwrap();
    assert_eq!((m.start, m.end), (0, 6));
    assert_eq!(m.as_str(), "abc235");
    assert_eq!(cap.get("n"), Some("235"));
}

#[test]
fn capture_stops_at_a_non_digit() {
    let exp = compile_match("abc(n:int)").unwrap();
    let m = exp.find_at("abc235as", 0).unwrap();
    assert_eq!(m.as_str(), "abc235");
    assert_eq!((m.start, m.end), (0, 6));
}

#[test]
fn leading_text_is_skipped() {
    let exp = compile_match("abc(n:int)").unwrap();
    let (m, cap) = exp.find_at_capturing("aaabc235", 0);
    let m = m.unwrap();
    assert_eq!(m.start, 2);
    assert_eq!(m.as_str(), "abc235");
    assert_eq!(cap.get("n"), Some("235"));
}

#[test]
fn global_search_finds_three_matches() {
    let exp = compile_match("abc(n:int)").unwrap();
    let text = "aaabc235fnabc8iw6788abc9923";
    let mut it = exp.find_iter(text);
    assert_eq!(it.next().unwrap().as_str(), "abc235");
    assert_eq!(it.next().unwrap().as_str(), "abc8");
    assert_eq!(it.next().unwrap().as_str(), "abc9923");
    assert!(it.next().is_none());
    let exp = compile_match("abc(n:int)").unwrap();
    assert_eq!(exp.find_iter(text).count(), 3);
}

#[test]
fn search_from_a_later_start() {
    let exp = compile_match("xy(n:int)").unwrap();
    let m = exp.find_at("wxy10xy33", 5).unwrap();
    assert_eq!((m.start, m.end), (5, 9));
    assert!(exp.find_at("wxy10xy33", 9).is_none());
}

#[test]
fn integer_captures_do_not_give_back_digits() {
    let exp = compile_match("(n:int)5").unwrap();
    assert!(exp.find_at("1235", 0).is_none());
    let exp = compile_match("(n:int)x5").unwrap();
    assert_eq!(exp.find_at("123x5", 0).unwrap().as_str(), "123x5");
}

#[test]
fn two_integer_captures_in_a_row_never_match() {
    let exp = compile_match("(a:int)(b:int)").unwrap();
    assert!(exp.find_at("12x", 0).is_none());
    assert!(exp.find_at("12", 0).is_none());
}

#[test]
fn a_failed_literal_after_a_capture_keeps_the_capture() {
    // A literal that fails moves the scan on without restarting the program.
    let exp = compile_match("(d:dig)ab").unwrap();
    let (m, cap) = exp.find_at_capturing("5xab", 0);
    let m = m.unwrap();
    assert_eq!((m.start, m.end), (2, 4));
    assert_eq!(cap.get("d"), Some("5"));

    let exp = compile_match("x(d:dig)y").unwrap();
    let (m, cap) = exp.find_at_capturing("x1zx2y", 0);
    assert_eq!(m.unwrap().as_str(), "y");
    assert_eq!(cap.get("d"), Some("1"));
}

#[test]
fn a_failed_digit_restarts_the_program() {
    let exp = compile_match("a(d:dig)(e:dig)").unwrap();
    let (m, cap) = exp.find_at_capturing("a1za2b3", 0);
    assert!(m.is_none());
    assert_eq!(cap.get("d"), None);
    assert_eq!(cap.get("e"), None);

    let exp = compile_match("x(d:dig)(e:dig)").unwrap();
    let (m, cap) = exp.find_at_capturing("x1zzx23", 0);
    let m = m.unwrap();
    assert_eq!((m.start, m.end), (4, 7));
    assert_eq!(cap.get("d"), Some("2"));
    assert_eq!(cap.get("e"), Some("3"));
}

#[test]
fn a_failed_capture_drops_its_attempt_from_the_replacement() {
    let strat = MatchAndReplacer::new(compile("x(d:dig)(e:dig)->(d)(e)").unwrap());
    assert_eq!(strat.apply("x1zzx23").unwrap(), "x1zz23");
}

#[test]
fn a_failed_capture_moves_the_match_start() {
    let exp = compile_match("(d:dig)").unwrap();
    let m = exp.find_at("ab5", 0).unwrap();
    assert_eq!((m.start, m.end), (2, 3));
    let exp = compile_match("a(d:dig)").unwrap();
    assert_eq!(exp.find_at("axa5", 0).unwrap().as_str(), "a5");
}

#[test]
fn unnamed_captures_are_numbered_from_one() {
    let exp = compile_match("a(int)b(n:dig)(dig)").unwrap();
    let (m, cap) = exp.find_at_capturing("xa12b34", 0);
    assert_eq!(m.unwrap().as_str(), "a12b34");
    assert_eq!(cap.get_ordinal(1), Some("12"));
    assert_eq!(cap.get_ordinal(2), Some("4"));
    assert_eq!(cap.get("n"), Some("3"));
    assert_eq!(cap.get_ordinal(3), None);
}

#[test]
fn an_empty_input_has_no_match() {
    let exp = compile_match("a").unwrap();
    assert!(exp.find_at("", 0).is_none());
    let exp = compile_match("a").unwrap();
    assert_eq!(exp.find_iter("").count(), 0);
}

#[test]
fn captures_keep_the_first_of_a_name() {
    let mut c = Captures::new();
    assert_eq!(c.get("a"), None);
    c.put(CaptureName::Named("a"), "1");
    c.put(CaptureName::Ordinal(1), "22");
    c.put(CaptureName::Named("a"), "3");
    assert_eq!(c.get("a"), Some("1"));
    assert_eq!(c.get_ordinal(1), Some("22"));
    assert_eq!(c.get("b"), None);
    assert_eq!(c.get_ordinal(2), None);
}
