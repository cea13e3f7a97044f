use lilufo::basic::{
    display_basic_info, is_even, round_element_points, round_points_to_even, round_to_even, verify_even_points,
    FontFacts,
};
use lilufo::decimal::{integer_to_text, number_to_text};
use lilufo::outline::{is_well_formed, read_outline, write_outline, Child, Outline, OutlineError, NOT_WELL_FORMED};

fn element(name: &str, attributes: Vec<(&str, &str)>, children: Vec<Child>) -> Outline {
    Outline {
        prefix: None,
        namespace: None,
        namespaces: None,
        name: name.to_string(),
        attributes: attributes.into_iter().map(|(k, v)| (k.to_string(), v.to_string())).collect(),
        children,
    }
}

fn point(x: &str, y: &str) -> Child {
    Child::Outline(element("point", vec![("x", x), ("y", y), ("type", "line")], vec![]))
}

#[test]
fn rounds_whole_numbers() {
    assert_eq!(round_to_even("3"), "4");
    assert_eq!(round_to_even("4"), "4");
    assert_eq!(round_to_even("0"), "0");
    assert_eq!(round_to_even("1"), "2");
    assert_eq!(round_to_even("5"), "6");
    assert_eq!(round_to_even("100"), "100");
    assert_eq!(round_to_even("101"), "102");
}

#[test]
fn rounds_fractions_to_the_nearest_even_integer() {
    assert_eq!(round_to_even("2.5"), "2");
    assert_eq!(round_to_even("3.2"), "4");
    assert_eq!(round_to_even("0.9"), "0");
    assert_eq!(round_to_even("1.0"), "2");
    assert_eq!(round_to_even("199.5"), "200");
    assert_eq!(round_to_even("4.999"), "4");
    assert_eq!(round_to_even(".5"), "0");
    assert_eq!(round_to_even("5."), "6");
}

#[test]
fn halfway_values_go_away_from_zero() {
    assert_eq!(round_to_even("1"), "2");
    assert_eq!(round_to_even("-1"), "-2");
    assert_eq!(round_to_even("3"), "4");
    assert_eq!(round_to_even("-3"), "-4");
}

#[test]
fn rounds_negative_numbers() {
    assert_eq!(round_to_even("-3.7"), "-4");
    assert_eq!(round_to_even("-4"), "-4");
    assert_eq!(round_to_even("-0.5"), "-0");
    assert_eq!(round_to_even("-0"), "-0");
    assert_eq!(round_to_even("+5"), "6");
}

#[test]
fn carries_into_a_new_digit() {
    assert_eq!(round_to_even("9"), "10");
    assert_eq!(round_to_even("99"), "100");
    assert_eq!(round_to_even("1999"), "2000");
    assert_eq!(round_to_even("-999.25"), "-1000");
}

#[test]
fn drops_leading_zeros() {
    assert_eq!(round_to_even("007"), "8");
    assert_eq!(round_to_even("000"), "0");
    assert_eq!(round_to_even("0012.3"), "12");
}

#[test]
fn rounds_numbers_of_any_length_exactly() {
    assert_eq!(round_to_even("12345678901234567891"), "12345678901234567892");
    assert_eq!(round_to_even("99999999999999999999999999999"), "100000000000000000000000000000");
}

#[test]
fn text_that_is_no_number_rounds_to_zero() {
    assert_eq!(round_to_even("abc"), "0");
    assert_eq!(round_to_even(""), "0");
    assert_eq!(round_to_even("."), "0");
    assert_eq!(round_to_even("-"), "0");
    assert_eq!(round_to_even("1.2.3"), "0");
    assert_eq!(round_to_even(" 4"), "0");
    assert_eq!(round_to_even("4 "), "0");
    assert_eq!(round_to_even("٣"), "0");
    assert_eq!(round_to_even("inf"), "0");
    assert_eq!(round_to_even("-infinity"), "0");
    assert_eq!(round_to_even("NaN"), "0");
}

#[test]
fn an_exponent_moves_the_point() {
    assert_eq!(round_to_even("1e3"), "1000");
    assert_eq!(round_to_even("1.5E2"), "150");
    assert_eq!(round_to_even("25e-1"), "2");
    assert_eq!(round_to_even("35e-1"), "4");
    assert_eq!(round_to_even("2e0"), "2");
    assert_eq!(round_to_even("3e+0"), "4");
    assert_eq!(round_to_even("-1.25e1"), "-12");
    assert_eq!(round_to_even("-1.35e1"), "-14");
    assert_eq!(round_to_even("0.0015e3"), "2");
    assert_eq!(round_to_even("123.456e2"), "12346");
    assert_eq!(round_to_even("123.456e3"), "123456");
    assert_eq!(round_to_even("123.457e3"), "123458");
    assert_eq!(round_to_even("123.457e5"), "12345700");
    assert_eq!(round_to_even("5.e3"), "5000");
    assert_eq!(round_to_even(".5e1"), "6");
    assert_eq!(round_to_even("+.7E+1"), "8");
    assert_eq!(round_to_even("999e-1"), "100");
    assert_eq!(round_to_even("1e-1"), "0");
    assert_eq!(round_to_even("-1e-5"), "-0");
    assert_eq!(round_to_even("12345e-5"), "0");
    assert_eq!(round_to_even("12345e-4"), "2");
    assert_eq!(round_to_even("12345e-9"), "0");
    assert_eq!(round_to_even("007e1"), "70");
    assert_eq!(round_to_even("1e0003"), "1000");
}

#[test]
fn an_exponent_needs_digits_and_a_number_before_it() {
    assert_eq!(round_to_even("1e"), "0");
    assert_eq!(round_to_even("1e+"), "0");
    assert_eq!(round_to_even("1e-"), "0");
    assert_eq!(round_to_even("e5"), "0");
    assert_eq!(round_to_even(".e5"), "0");
    assert_eq!(round_to_even("-e5"), "0");
    assert_eq!(round_to_even("1e5x"), "0");
    assert_eq!(round_to_even("1e5.0"), "0");
    assert_eq!(round_to_even("1e 5"), "0");
    assert_eq!(round_to_even("1ee5"), "0");
    assert_eq!(round_to_even("1e+-5"), "0");
    assert!(!is_even("2e"));
    assert!(!is_even("e2"));
}

#[test]
fn exponents_of_any_size_are_read() {
    let large = format!("1{}", "0".repeat(308));
    assert_eq!(round_to_even("1e308"), large);
    assert_eq!(round_to_even("0.001e311"), large);
    assert_eq!(round_to_even("-0.01e310"), format!("-{large}"));
    assert_eq!(round_to_even("-99999e304"), format!("-99999{}", "0".repeat(304)));
    assert_eq!(round_to_even("1e-400"), "0");
    assert_eq!(round_to_even("-7e-99999999999999999999999999999999999999999999"), "-0");
    assert_eq!(round_to_even("0e999"), "0");
    assert_eq!(round_to_even("-0.000e99999999999999999999999999999999999999999999"), "-0");
}

#[test]
fn a_number_that_needs_too_many_zeros_rounds_to_zero() {
    assert_eq!(round_to_even("1e309"), "0");
    assert_eq!(round_to_even("-1e309"), "0");
    assert_eq!(round_to_even("1e400"), "0");
    assert_eq!(round_to_even("0.5e310"), "0");
    assert_eq!(round_to_even("3e99999999999999999999999999999999999999999999"), "0");
    assert_eq!(round_to_even("10e308"), format!("10{}", "0".repeat(308)));
}

#[test]
fn points_written_with_an_exponent_are_rounded_and_told() {
    let even = element("contour", vec![], vec![point("2e0", "2"), point("1E2", "40e-1")]);
    assert!(verify_even_points(&even));
    let odd = element("contour", vec![], vec![point("2e0", "2"), point("3e0", "4")]);
    assert!(!verify_even_points(&odd));
    let mut tree = element("contour", vec![], vec![point("1e3", "25e-1"), point("-1.5e1", "7E0")]);
    assert!(!verify_even_points(&tree));
    round_element_points(&mut tree);
    assert_eq!(tree, element("contour", vec![], vec![point("1000", "2"), point("-16", "8")]));
    assert!(verify_even_points(&tree));
}

#[test]
fn rounds_as_double_precision_arithmetic_does() {
    let values = [
        "0", "1", "2", "3", "-1", "-3", "2.5", "3.5", "-2.5", "0.5", "1.5", "-0.5", "199.5", "1e3", "1.5E2", "25e-1",
        "2e0", "3e0", "-35e-1", "1e15", "123.456e2", "7e-3", "1e18", "5.e2", ".5e1", "abc", "", "1e", "e1", "+4.25",
    ];
    for value in values {
        let parsed: f64 = value.parse().unwrap_or(0.0);
        let expected = ((parsed / 2.0).round() * 2.0).to_string();
        assert_eq!(round_to_even(value), expected, "rounding {value}");
        let even = value.parse::<f64>().map(|v| v.fract() == 0.0 && v as i64 % 2 == 0).unwrap_or(false);
        assert_eq!(is_even(value), even, "evenness of {value}");
    }
}

#[test]
fn tells_even_integers_written_with_an_exponent() {
    assert!(is_even("2e0"));
    assert!(is_even("1e3"));
    assert!(is_even("1E1"));
    assert!(is_even("0.2e1"));
    assert!(is_even("20e-1"));
    assert!(is_even("2.50e1") == false);
    assert!(is_even("2.40e1"));
    assert!(is_even("1200e-2"));
    assert!(is_even("0e-7"));
    assert!(is_even("0e999"));
    assert!(is_even("-4.000e0"));
    assert!(is_even("5e400"));
    assert!(!is_even("3e0"));
    assert!(!is_even("0.3e1"));
    assert!(!is_even("25e-1"));
    assert!(!is_even("2e-1"));
    assert!(!is_even("1e-400"));
    assert!(!is_even("1300e-2"));
    assert!(!is_even("0.1e0"));
    assert!(!is_even("2e-99999999999999999999999999999999999999999999"));
}

#[test]
fn rounding_twice_is_rounding_once() {
    for value in ["3", "-3.7", "2.5", "abc", "-0.5", "99", "0", "1e3", "15e-1", "-9.9e1", "1e309", "7e-9"] {
        let once = round_to_even(value);
        assert_eq!(round_to_even(&once), once);
        assert!(is_even(&once));
    }
}

#[test]
fn tells_even_integers() {
    assert!(is_even("4"));
    assert!(is_even("4.0"));
    assert!(is_even("4."));
    assert!(is_even("-2"));
    assert!(is_even("0"));
    assert!(is_even("-0"));
    assert!(is_even(".0"));
    assert!(!is_even("3"));
    assert!(!is_even("4.5"));
    assert!(!is_even("4.01"));
    assert!(!is_even("abc"));
    assert!(!is_even(""));
}

#[test]
fn rounds_every_point_of_a_tree() {
    let mut tree = element(
        "glyph",
        vec![("name", "A"), ("x", "3")],
        vec![
            Child::Comment("outline".to_string()),
            Child::Outline(element(
                "outline",
                vec![],
                vec![Child::Outline(element(
                    "contour",
                    vec![],
                    vec![point("3", "7.5"), Child::Text("t".to_string()), point("-1", "10")],
                ))],
            )),
        ],
    );
    round_element_points(&mut tree);
    let expected = element(
        "glyph",
        vec![("name", "A"), ("x", "3")],
        vec![
            Child::Comment("outline".to_string()),
            Child::Outline(element(
                "outline",
                vec![],
                vec![Child::Outline(element(
                    "contour",
                    vec![],
                    vec![point("4", "8"), Child::Text("t".to_string()), point("-2", "10")],
                ))],
            )),
        ],
    );
    assert_eq!(tree, expected);
    assert!(verify_even_points(&tree));
}

#[test]
fn rounding_a_rounded_tree_changes_nothing() {
    let mut tree = element("contour", vec![], vec![point("3", "7.5"), point("x", "8")]);
    round_element_points(&mut tree);
    let once = element("contour", vec![], vec![point("4", "8"), point("0", "8")]);
    assert_eq!(tree, once);
    round_element_points(&mut tree);
    assert_eq!(tree, once);
}

#[test]
fn the_check_finds_odd_coordinates() {
    let odd = element("contour", vec![], vec![point("4", "8"), point("4", "7")]);
    assert!(!verify_even_points(&odd));
    let fraction = element("contour", vec![], vec![point("4.5", "8")]);
    assert!(!verify_even_points(&fraction));
    let even = element("contour", vec![], vec![point("4", "8.0")]);
    assert!(verify_even_points(&even));
}

#[test]
fn the_check_does_not_judge_a_point_that_lacks_a_coordinate() {
    let lacking = element("point", vec![("x", "3")], vec![]);
    assert!(verify_even_points(&lacking));
    let no_point = element("anchor", vec![("x", "3"), ("y", "5")], vec![]);
    assert!(verify_even_points(&no_point));
}

const GLIF: &str = "<?xml version=\"1.0\" encoding=\"UTF-8\"?>\n<glyph name=\"A\" format=\"2\">\n  <advance width=\"601\"/>\n  <outline>\n    <contour>\n      <point x=\"101\" y=\"-3.5\" type=\"line\"/>\n      <point x=\"20\" y=\"700.2\" type=\"line\"/>\n    </contour>\n  </outline>\n</glyph>\n";

#[test]
fn rounds_the_points_of_an_outline_file() {
    let rounded = round_points_to_even(GLIF).unwrap();
    assert!(rounded.all_even);
    assert_ne!(rounded.text, GLIF);
    assert!(rounded.text.contains("<point x=\"102\" y=\"-4\" type=\"line\""));
    assert!(rounded.text.contains("<point x=\"20\" y=\"700\" type=\"line\""));
    assert!(rounded.text.contains("<advance width=\"601\""));
    assert!(rounded.text.contains("<glyph name=\"A\" format=\"2\">"));
    assert_eq!(
        rounded.verdict("glyphs/A_.glif"),
        "glyphs/A_.glif: All points rounded to even integers"
    );
}

#[test]
fn a_second_pass_writes_the_same_file() {
    let first = round_points_to_even(GLIF).unwrap();
    let second = round_points_to_even(&first.text).unwrap();
    assert_eq!(first.text, second.text);
    assert!(second.all_even);
}

#[test]
fn a_malformed_outline_is_refused() {
    assert!(matches!(round_points_to_even("<glyph><outline></glyph>"), Err(OutlineError::Parse(_))));
    assert!(matches!(round_points_to_even(""), Err(OutlineError::Parse(_))));
    assert!(matches!(read_outline("no xml at all"), Err(OutlineError::Parse(_))));
    assert_eq!(
        OutlineError::Parse("no root".to_string()).message(),
        "The outline could not be read: no root"
    );
    assert_eq!(
        OutlineError::Write("no sink".to_string()).message(),
        "The outline could not be written: no sink"
    );
    let said = read_outline("<a><b></a>").unwrap_err().message();
    assert!(said.len() > "The outline could not be read: ".len());
}

#[test]
fn reads_an_outline_into_a_tree() {
    let tree = read_outline("<glyph name=\"A\"><!--c--><point y=\"2\" x=\"1\"/>text</glyph>").unwrap();
    let expected = element(
        "glyph",
        vec![("name", "A")],
        vec![
            Child::Comment("c".to_string()),
            Child::Outline(element("point", vec![("y", "2"), ("x", "1")], vec![])),
            Child::Text("text".to_string()),
        ],
    );
    assert_eq!(tree, expected);
}

#[test]
fn writes_a_tree_as_text() {
    let tree = element("glyph", vec![("name", "A")], vec![point("2", "4")]);
    let text = write_outline(&tree).unwrap();
    assert_eq!(
        text,
        "<?xml version=\"1.0\" encoding=\"UTF-8\"?>\n<glyph name=\"A\">\n  <point x=\"2\" y=\"4\" type=\"line\" />\n</glyph>"
    );
    let again = read_outline(&text).unwrap();
    assert_eq!(again, element("glyph", vec![("name", "A")], vec![point("2", "4")]));
}

#[test]
fn summarises_a_font() {
    let info = display_basic_info(&FontFacts {
        family_name: Some("Lil".to_string()),
        style_name: None,
        version_major: Some(2),
        version_minor: None,
        first_layer_glyphs: Some(17),
    });
    assert_eq!(info.family_name, "Lil");
    assert_eq!(info.style_name, "N/A");
    assert_eq!(info.version_major, 2);
    assert_eq!(info.version_minor, 0);
    assert_eq!(info.glyph_count, 17);
    let lines = info.lines();
    assert_eq!(lines.len(), 13);
    assert_eq!(lines[2], " _/___@_@_\\_              .      ");
    assert_eq!(lines[5], "Lil' UFO");
    assert_eq!(lines[8], "Family Name: Lil");
    assert_eq!(lines[9], "Style Name: N/A");
    assert_eq!(lines[10], "Version Major: 2");
    assert_eq!(lines[11], "Version Minor: 0");
    assert_eq!(lines[12], "Number of Glyphs: 17");
}

#[test]
fn summarises_a_font_that_says_nothing() {
    let info = display_basic_info(&FontFacts {
        family_name: None,
        style_name: None,
        version_major: None,
        version_minor: None,
        first_layer_glyphs: None,
    });
    assert_eq!(info.family_name, "N/A");
    assert_eq!(info.version_major, 0);
    assert_eq!(info.glyph_count, 0);
}

#[test]
fn writes_integers_in_base_ten() {
    assert_eq!(number_to_text(0), "0");
    assert_eq!(number_to_text(7), "7");
    assert_eq!(number_to_text(1203), "1203");
    assert_eq!(number_to_text(u128::MAX), "340282366920938463463374607431768211455");
    assert_eq!(integer_to_text(-50), "-50");
    assert_eq!(integer_to_text(0), "0");
    assert_eq!(integer_to_text(i128::MIN), "-170141183460469231731687303715884105728");
}

#[test]
fn a_tree_that_is_not_well_formed_is_not_written() {
    let twice = element("glyph", vec![("x", "1"), ("y", "2"), ("x", "3")], vec![]);
    assert!(!is_well_formed(&twice));
    assert_eq!(write_outline(&twice), Err(OutlineError::Write(NOT_WELL_FORMED.to_string())));
    let below = element("glyph", vec![], vec![Child::Outline(element("point", vec![("a", ""), ("a", "")], vec![]))]);
    assert!(!is_well_formed(&below));
    assert!(write_outline(&below).is_err());
    let mut spaces = element("glyph", vec![("x", "1")], vec![]);
    spaces.namespaces = Some(vec![
        ("b".to_string(), "urn:b".to_string()),
        ("a".to_string(), "urn:a".to_string()),
    ]);
    assert!(!is_well_formed(&spaces));
    assert!(write_outline(&spaces).is_err());
    spaces.namespaces = Some(vec![
        ("a".to_string(), "urn:a".to_string()),
        ("b".to_string(), "urn:b".to_string()),
    ]);
    assert!(is_well_formed(&spaces));
    assert!(write_outline(&spaces).is_ok());
}

#[test]
fn what_is_read_is_well_formed_and_can_be_written() {
    let text = "<g:glyph xmlns:g=\"urn:g\" xmlns:b=\"urn:b\" xmlns:Z=\"urn:z\" xmlns=\"urn:d\" name=\"A\"><b:point x=\"1\" y=\"2\"/><?pi data?><![CDATA[raw]]></g:glyph>";
    let tree = read_outline(text).unwrap();
    assert!(is_well_formed(&tree));
    assert_eq!(tree.prefix, Some("g".to_string()));
    assert_eq!(tree.namespace, Some("urn:g".to_string()));
    let written = write_outline(&tree).unwrap();
    let again = read_outline(&written).unwrap();
    assert_eq!(again, tree);
    let rounded = round_points_to_even(text).unwrap();
    assert!(rounded.text.contains("x=\"2\" y=\"2\""));
}
