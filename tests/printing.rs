use collada::combinators::Parser;
use collada::document::{collada_p, Collada, TagParameter};
use collada::printing::{collada_text, int_string};

#[test]
fn integers_are_written_in_decimal() {
    assert_eq!(int_string(0), "0");
    assert_eq!(int_string(24), "24");
    assert_eq!(int_string(-305), "-305");
    assert_eq!(int_string(i32::MIN), "-2147483648");
    assert_eq!(int_string(i32::MAX), "2147483647");
}

#[test]
fn trees_are_written_back() {
    let tree = Collada::ColladaHeader(Box::new(Collada::ColladaTag(
        "test",
        vec![TagParameter::ParameterString("hello", "world"), TagParameter::ParameterInt("n", -2)],
        Box::new(vec![Collada::ColladaString("content")]),
    )));
    assert_eq!(collada_text(&tree), "<??><test hello=\"world\" n=\"-2\">content</test>");
    assert_eq!(collada_text(&Collada::ColladaTagClosed("a", vec![])), "<a/>");
    let n = collada::numeric::Number { negative: true, whole: "1", frac: "25", exponent: -7 };
    assert_eq!(collada_text(&Collada::ColladaFloats(vec![n, n])), "-1.25e-7 -1.25e-7");
}

#[test]
fn parse_print_parse_round_trip() {
    let source = "<?xml version?>\n<COLLADA>\n  <asset id=\"a\" count=\"3\"><created>2022-08-03T14:30:24</created><up_axis>Z_UP</up_axis><empty></empty></asset>\n  <float_array count=\"5\" version=\"1.0\">-1 2.5 0 -0.125 1.5e-3</float_array>\n  <param name=\"X\" type=\"float\"/>\n</COLLADA>";
    let (rest, tree) = collada_p().parse(source).unwrap();
    assert_eq!(rest, "");
    let text = collada_text(&tree);
    let (rest2, again) = collada_p().parse(&text).unwrap();
    assert_eq!(rest2, "");
    assert_eq!(again, tree);
}
