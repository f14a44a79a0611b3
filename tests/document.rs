use collada::combinators::Parser;
use collada::document::{
    collada_floats_p, collada_p, collada_string_p, collada_tag_closed_p, collada_tag_p, tag_identifier_closed_p,
    tag_identifier_p, tag_parameter_int_p, tag_parameter_p, tag_parameter_str_p, Collada, TagParameter,
};
use collada::numeric::Number;

fn value(n: &Number) -> f64 {
    let digits = format!("{}{}", n.whole, n.frac);
    let mut m: f64 = 0.0;
    for c in digits.chars() {
        m = m * 10.0 + c.to_digit(10).unwrap() as f64;
    }
    let v = m * 10f64.powi(n.exponent - n.frac.chars().count() as i32);
    if n.negative { -v } else { v }
}

fn values(node: &Collada) -> Vec<f32> {
    match node {
        Collada::ColladaFloats(ns) => ns.iter().map(|n| value(n) as f32).collect(),
        _ => panic!("not a run of numbers: {:?}", node),
    }
}

#[test]
fn parse_collada_floats_test() {
    let (rest, node) = collada_floats_p().parse("-1 -1 1 -1 1<").unwrap();
    assert_eq!(rest, "<");
    assert_eq!(values(&node), vec![-1.0, -1.0, 1.0, -1.0, 1.0]);
}

#[test]
fn collada_parse_test1() {
    let res: Collada = Collada::ColladaHeader(Box::new(Collada::ColladaTag(
        "test",
        vec![TagParameter::ParameterString("hello", "world")],
        Box::new(vec![Collada::ColladaString("content")]),
    )));
    assert_eq!(collada_p().parse("<?header?><test hello=\"world\">content</test>"), Some(("", res)));
}

#[test]
fn collada_parse_test2() {
    let (rest, node) = collada_floats_p().parse("1.2 2 3.4<").unwrap();
    assert_eq!(rest, "<");
    assert_eq!(values(&node), vec![1.2, 2.0, 3.4]);
}

#[test]
fn collada_parse_test3() {
    let res: Collada = Collada::ColladaTag(
        "test",
        vec![TagParameter::ParameterString("hello", "world")],
        Box::new(vec![Collada::ColladaString("content")]),
    );
    assert_eq!(collada_p().parse("<test hello=\"world\">content</test>"), Some(("", res)));
}

#[test]
fn collada_parse_test4() {
    let res: Collada = Collada::ColladaTagClosed("test", vec![]);
    assert_eq!(collada_tag_closed_p().parse("<test/>"), Some(("", res)));
}

#[test]
fn collada_parse_test5() {
    let test_string: &str = "<created>2022-08-03T14:30:24</created>";
    println!("{:#?}", collada_p().parse(test_string));
    assert!(matches!(collada_p().parse(test_string), Some(_x)));
}

#[test]
fn collada_parse_test6() {
    let test_string: &str = "<source id=\"Cube_001-mesh-positions\"><float_array id=\"Cube_001-mesh-positions-array\" count=\"24\">-1 -1 -1 -1 -1 1 -1 1 -1 -1 1 1 1 -1 -1 1 -1 1 1 1 -1 1 1 1</float_array><technique_common><accessor source=\"#Cube_001-mesh-positions-array\" count=\"8\" stride=\"3\"><param name=\"X\" type=\"float\"/><param name=\"Y\" type=\"float\"/><param name=\"Z\" type=\"float\"/></accessor></technique_common></source>";
    println!("{:#?}", collada_p().parse(test_string));
    assert!(matches!(collada_p().parse(test_string), Some(_x)));
}

#[test]
fn test_vertices() {
    let test_string = "<float_array id=\"Cube_001-mesh-positions-array\" count=\"24\">-1 -1 -1 -1 -1 1 -1 1 -1 -1 1 1 1 -1 -1 1 -1 1 1 1 -1 1 1 1</float_array>";
    let (rest, node) = collada_p().parse(test_string).unwrap();
    assert_eq!(rest, "");
    match node {
        Collada::ColladaTag(name, params, content) => {
            assert_eq!(name, "float_array");
            assert_eq!(
                params,
                vec![
                    TagParameter::ParameterString("id", "Cube_001-mesh-positions-array"),
                    TagParameter::ParameterInt("count", 24)
                ]
            );
            assert_eq!(content.len(), 1);
            assert_eq!(
                values(&content[0]),
                vec![
                    -1.0, -1.0, -1.0, -1.0, -1.0, 1.0, -1.0, 1.0, -1.0, -1.0, 1.0, 1.0, 1.0, -1.0, -1.0, 1.0, -1.0,
                    1.0, 1.0, 1.0, -1.0, 1.0, 1.0, 1.0
                ]
            );
        },
        other => panic!("not a tag: {:?}", other),
    }
}

#[test]
fn self_closing_tag_through_document() {
    assert_eq!(collada_p().parse("<test/>"), Some(("", Collada::ColladaTagClosed("test", vec![]))));
}

#[test]
fn nested_tags_and_whitespace() {
    let res = Collada::ColladaTag(
        "a",
        vec![],
        Box::new(vec![
            Collada::ColladaTagClosed("b", vec![TagParameter::ParameterInt("n", -3)]),
            Collada::ColladaTag("c", vec![], Box::new(vec![Collada::ColladaNone])),
        ]),
    );
    assert_eq!(collada_p().parse("<a>\n  <b n=\"-3\"/>\n  <c></c>\n</a>rest"), Some(("rest", res)));
}

#[test]
fn closing_name_is_not_checked() {
    let res = Collada::ColladaTag("a", vec![], Box::new(vec![Collada::ColladaString("x")]));
    assert_eq!(collada_tag_p().parse("<a>x</b>"), Some(("", res)));
}

#[test]
fn text_node_and_empty_text() {
    assert_eq!(collada_string_p().parse("abc<"), Some(("<", Collada::ColladaString("abc"))));
    assert_eq!(collada_string_p().parse("<x"), Some(("<x", Collada::ColladaNone)));
}

#[test]
fn numbers_need_a_following_tag() {
    assert_eq!(collada_floats_p().parse("1 2 3"), None);
}

#[test]
fn attributes_integer_before_string() {
    assert_eq!(tag_parameter_p().parse("count=\"24\" x"), Some((" x", TagParameter::ParameterInt("count", 24))));
    assert_eq!(tag_parameter_p().parse("id=\"abc\">"), Some((">", TagParameter::ParameterString("id", "abc"))));
    assert_eq!(tag_parameter_int_p().parse("id=\"abc\""), None);
    assert_eq!(tag_parameter_str_p().parse("n=\"12\""), Some(("", TagParameter::ParameterString("n", "12"))));
}

#[test]
fn attribute_name_cannot_cross_tag_end() {
    assert_eq!(tag_parameter_p().parse("/><b c=\"d\""), None);
    assert_eq!(tag_parameter_p().parse("a><b c=\"d\""), None);
}

#[test]
fn tag_names() {
    assert_eq!(tag_identifier_p().parse("mesh id=\"m\">"), Some((" id=\"m\">", "mesh")));
    assert_eq!(tag_identifier_p().parse("p>"), Some((">", "p")));
    assert_eq!(tag_identifier_p().parse("a/>"), None);
    assert_eq!(tag_identifier_closed_p().parse("param/>"), Some(("/>", "param")));
}

#[test]
fn unicode_text_and_tabs() {
    let res = Collada::ColladaTag(
        "author",
        vec![TagParameter::ParameterString("lang", "ünï")],
        Box::new(vec![Collada::ColladaString("Zoë — 東京")]),
    );
    let tab_name = Collada::ColladaTag("author\tlang=\"ünï\"", vec![], Box::new(vec![Collada::ColladaString("x")]));
    assert_eq!(collada_p().parse("<author\tlang=\"ünï\">x</author>"), Some(("", tab_name)));
    assert_eq!(collada_p().parse("<author lang=\"ünï\">\t\nZoë — 東京</author>!"), Some(("!", res)));
}

#[test]
fn header_wraps_the_first_element() {
    let (rest, tree) = collada_p().parse("<?xml version=\"1.0\" encoding=\"utf-8\"?>\n<a/>").unwrap();
    assert_eq!(rest, "");
    assert_eq!(tree, Collada::ColladaHeader(Box::new(Collada::ColladaTagClosed("a", vec![]))));
}
