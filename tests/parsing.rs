use collada::combinators::Parser;
use collada::lexical::{parse_digit, parse_lookahead, parse_token, parse_until, parse_until_l, parse_ws};
use collada::numeric::{parse_float, parse_integer, parse_scientific, Number};

fn approx(n: &Number) -> f64 {
    let digits = format!("{}{}", n.whole, n.frac);
    let mut m: f64 = 0.0;
    for c in digits.chars() {
        m = m * 10.0 + c.to_digit(10).unwrap() as f64;
    }
    let v = m * 10f64.powi(n.exponent - n.frac.chars().count() as i32);
    if n.negative { -v } else { v }
}

#[test]
fn parsing_a_digit_test() {
    assert_eq!(parse_digit().parse("123"), Some(("23", 1)));
}

#[test]
fn parsing_squares_test() {
    assert_eq!(parse_digit().map(|x: u32| { x * x }).parse("23asd"), Some(("3asd", 4)));
}

#[test]
fn parsing_many_digits_test() {
    assert_eq!(parse_digit().many().parse("123abc"), Some(("abc", vec![1, 2, 3])));
}

#[test]
fn parse_and_test() {
    assert_eq!(parse_digit().and(parse_token("hello")).parse("8hello_asf"), Some(("_asf", (8, "hello"))));
    assert_eq!((parse_digit().many()).and(parse_token("_")).parse("123_rest"), Some(("rest", (vec![1, 2, 3], "_"))));
    assert_eq!(parse_digit().and(parse_digit()).parse("12345"), Some(("345", (1, 2))));
}

#[test]
fn parse_or_test() {
    assert_eq!(parse_token("false").or(parse_token("true")).parse("true rest"), Some((" rest", "true")));
    assert_eq!(parse_token("false").or(parse_token("true")).parse("false rest"), Some((" rest", "false")));
    assert_eq!(parse_token("false").or(parse_token("true")).parse("troe"), None);
}

#[test]
fn parse_floats_test() {
    let (rest, n) = parse_float().parse("12.623rest").unwrap();
    assert_eq!(rest, "rest");
    assert_eq!(n, Number { negative: false, whole: "12", frac: "623", exponent: 0 });
    assert!((approx(&n) as f32 - 12.623001).abs() < 1e-5);
    let (rest, n) = parse_float().parse("12").unwrap();
    assert_eq!(rest, "");
    assert_eq!(n, Number { negative: false, whole: "12", frac: "", exponent: 0 });
    assert_eq!(approx(&n) as f32, 12.0);
}

#[test]
fn parse_integer_test() {
    assert_eq!(parse_integer().parse("21 jump street"), Some((" jump street", 21)));
}

#[test]
fn parse_scientific_test() {
    let (rest, n) = parse_scientific().parse("-1.234e-2").unwrap();
    assert_eq!(rest, "");
    assert_eq!(n, Number { negative: true, whole: "1", frac: "234", exponent: -2 });
    assert!((approx(&n) as f32 - (-0.012339999)).abs() < 1e-7);
}

#[test]
fn parse_ws_test() {
    assert_eq!(parse_ws().parse("     rest"), Some(("rest", ())));
    assert_eq!(parse_ws().parse("nowhitespace"), None);
    assert_eq!(parse_ws().parse("no whitespace start"), None);
}

#[test]
fn parse_until_test() {
    assert_eq!(parse_until('?').parse("asdf?rest"), Some(("?rest", "asdf")));
    assert_eq!(parse_until(' ').parse("test/>"), Some(("test/>", "")));
}

#[test]
fn parse_maybe_test() {
    assert_eq!(parse_token("hello").maybe().parse("helloworld"), Some(("world", "hello")));
    assert_eq!(parse_token("hello").maybe().parse("dontfailpls"), Some(("dontfailpls", "")));
}

#[test]
fn parse_until_l_test() {
    assert_eq!(parse_until_l(vec!['l', 'w', 'o']).parse("hello world"), Some(("llo world", "he")));
    assert_eq!(parse_until_l(vec!['a', 'b', 'c']).parse("hello world"), Some(("hello world", "")));
}

#[test]
fn lookahead_consumes_nothing() {
    assert_eq!(parse_lookahead("<").parse("<a>"), Some(("<a>", ())));
    assert_eq!(parse_lookahead("<").parse("a<"), None);
}

#[test]
fn integer_negative_and_wrapping() {
    assert_eq!(parse_integer().parse("-42x"), Some(("x", -42)));
    assert_eq!(parse_integer().parse("-x"), None);
    assert_eq!(parse_integer().parse("4294967297"), Some(("", 1)));
}

#[test]
fn many_needs_one_success() {
    assert_eq!(parse_digit().many().parse("abc"), None);
}

#[test]
fn many_delim_keeps_trailing_delimiter_consumed() {
    assert_eq!(parse_digit().many_delim(parse_token(",")).parse("1,2,x"), Some(("x", vec![1, 2])));
    assert_eq!(parse_digit().many_delim(parse_token(",")).parse("1,2;"), Some((";", vec![1, 2])));
}

#[test]
fn scientific_alternatives_in_order() {
    let (rest, n) = parse_scientific().parse("-1.2 ").unwrap();
    assert_eq!(rest, " ");
    assert_eq!(n, Number { negative: true, whole: "1", frac: "2", exponent: 0 });
    let (rest, n) = parse_scientific().parse("3e4").unwrap();
    assert_eq!(rest, "");
    assert_eq!(n, Number { negative: false, whole: "3", frac: "", exponent: 4 });
    let (rest, n) = parse_scientific().parse("5.5ex").unwrap();
    assert_eq!(rest, "ex");
    assert_eq!(n, Number { negative: false, whole: "5", frac: "5", exponent: 0 });
}
