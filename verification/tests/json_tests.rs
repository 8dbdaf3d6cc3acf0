use httpcore::json::{JsonValue, Members};
use httpcore::parse::parse_json;
use httpcore::scan::split_json;

fn s(text: &str) -> String {
    text.to_string()
}

#[test]
fn empty_string() {
    assert!(parse_json("").is_none())
}

#[test]
fn empty_object() {
    assert_eq!(parse_json("{}").unwrap(), JsonValue::object(vec![]))
}

#[test]
fn empty_list() {
    assert_eq!(parse_json("[]").unwrap(), JsonValue::Array(vec![]))
}

#[test]
fn one_dimensional_object() {
    assert_eq!(
        parse_json(r#"{"a": null}"#).unwrap(),
        JsonValue::object(vec![(s("a"), JsonValue::Null)])
    )
}

#[test]
fn two_dimensional_object() {
    assert_eq!(
        parse_json(r#"{"a": {"b": null}}"#).unwrap(),
        JsonValue::object(vec![(
            s("a"),
            JsonValue::object(vec![(s("b"), JsonValue::Null)])
        )])
    )
}

#[test]
fn multiple_types_object() {
    assert_eq!(
        parse_json(r#"{"a": null, "b": 7, "c": "hello", "d": ["my life"], "e": false}"#).unwrap(),
        JsonValue::object(vec![
            (s("a"), JsonValue::Null),
            (s("b"), JsonValue::Int(7)),
            (s("c"), JsonValue::String(s("hello"))),
            (s("d"), JsonValue::Array(vec![JsonValue::String(s("my life"))])),
            (s("e"), JsonValue::Bool(false)),
        ])
    )
}

#[test]
fn multiple_types_list() {
    assert_eq!(
        parse_json("[\"test string\", 10, 10.0, null, true]").unwrap(),
        JsonValue::Array(vec![
            JsonValue::String(s("test string")),
            JsonValue::Int(10),
            JsonValue::Float(s("10.0")),
            JsonValue::Null,
            JsonValue::Bool(true)
        ])
    )
}

#[test]
fn bad_formatting() {
    assert_eq!(parse_json("{}}}"), None)
}

#[test]
fn primitive() {
    assert_eq!("\"hi\"", JsonValue::String(s("hi")).to_string());
    assert_eq!("1", JsonValue::Int(1).to_string());
    assert_eq!("1.1", JsonValue::Float(s("1.1")).to_string());
    assert_eq!("null", JsonValue::Null.to_string());
    assert_eq!("true", JsonValue::Bool(true).to_string());
    assert_eq!("false", JsonValue::Bool(false).to_string());
}

fn five_members() -> Vec<(String, JsonValue)> {
    vec![
        (s("a"), JsonValue::Null),
        (s("b"), JsonValue::Int(7)),
        (s("c"), JsonValue::String(s("hello"))),
        (s("d"), JsonValue::Array(vec![JsonValue::String(s("my life"))])),
        (s("e"), JsonValue::Bool(false)),
    ]
}

#[test]
fn json_one_dimensional_object() {
    assert_eq!(
        "{\r\n\"a\": null,\r\n\"b\": 7,\r\n\"c\": \"hello\",\r\n\"d\": [\"my life\"],\r\n\"e\": false\r\n}",
        JsonValue::object(five_members()).to_string()
    )
}

#[test]
fn one_dimensional_array() {
    assert_eq!(
        "[\"test string\", 10, 10.1, null, true]",
        JsonValue::Array(vec![
            JsonValue::String(s("test string")),
            JsonValue::Int(10),
            JsonValue::Float(s("10.1")),
            JsonValue::Null,
            JsonValue::Bool(true)
        ])
        .to_string()
    )
}

#[test]
fn json_two_dimensional_object() {
    let mut members = five_members();
    members.push((s("f"), JsonValue::object(vec![(s("g"), JsonValue::Null)])));
    assert_eq!(
        "{\r\n\"a\": null,\r\n\"b\": 7,\r\n\"c\": \"hello\",\r\n\"d\": [\"my life\"],\r\n\"e\": false,\r\n\"f\": {\r\n\"g\": null\r\n}\r\n}",
        JsonValue::object(members).to_string()
    )
}

#[test]
fn literals_parse_to_their_values() {
    assert_eq!(parse_json("null"), Some(JsonValue::Null));
    assert_eq!(parse_json("true"), Some(JsonValue::Bool(true)));
    assert_eq!(parse_json("false"), Some(JsonValue::Bool(false)));
    assert_eq!(parse_json("7"), Some(JsonValue::Int(7)));
    assert_eq!(parse_json("7.0"), Some(JsonValue::Float(s("7.0"))));
    assert_eq!(parse_json("\"x\""), Some(JsonValue::String(s("x"))));
    assert_eq!(parse_json("  \t7\r\n"), Some(JsonValue::Int(7)));
}

#[test]
fn integers_at_the_edge_of_the_range() {
    assert_eq!(parse_json("2147483647"), Some(JsonValue::Int(i32::MAX)));
    assert_eq!(parse_json("-2147483648"), Some(JsonValue::Int(i32::MIN)));
    assert_eq!(parse_json("+7"), Some(JsonValue::Int(7)));
    assert_eq!(parse_json("-0"), Some(JsonValue::Int(0)));
    assert_eq!(parse_json("2147483648"), Some(JsonValue::Float(s("2147483648"))));
    assert_eq!(parse_json("-2147483649"), Some(JsonValue::Float(s("-2147483649"))));
    assert_eq!(
        parse_json("99999999999999999999999999"),
        Some(JsonValue::Float(s("99999999999999999999999999")))
    );
}

#[test]
fn decimal_literals() {
    for text in ["1.5", "1.", ".5", "-1e5", "1E+5", "1.5e-3", "inf", "-Infinity", "NaN", "+.5e1"] {
        assert_eq!(parse_json(text), Some(JsonValue::Float(s(text))), "{}", text);
    }
    for text in [".", "e5", "1e", "1e+", "1.5.5", "-", "+", "1 2", "infinit", "nul", "True", "0x10"] {
        assert_eq!(parse_json(text), None, "{}", text);
    }
}

#[test]
fn quotes_inside_a_string_are_removed() {
    assert_eq!(parse_json("\"a\"b\""), Some(JsonValue::String(s("ab"))));
    assert_eq!(parse_json("\""), Some(JsonValue::String(s(""))));
}

#[test]
fn splitter_cuts_at_top_level_commas_only() {
    assert_eq!(split_json("a,b"), Some(vec!["a", "b"]));
    assert_eq!(split_json("a,[b,c],{d,e}"), Some(vec!["a", "[b,c]", "{d,e}"]));
    assert_eq!(split_json(""), Some(vec![]));
    assert_eq!(split_json("a,"), Some(vec!["a"]));
    assert_eq!(split_json(",a"), Some(vec!["", "a"]));
    assert_eq!(split_json("a,,b"), Some(vec!["a", "", "b"]));
}

#[test]
fn splitter_fails_on_bad_nesting() {
    assert_eq!(split_json("}"), None);
    assert_eq!(split_json("[}"), None);
    assert_eq!(split_json("{]"), None);
    assert_eq!(split_json("{"), None);
    assert_eq!(split_json("[[]"), None);
    assert_eq!(split_json("a]"), None);
}

#[test]
fn containers_drop_what_does_not_parse() {
    assert_eq!(
        parse_json("[1, oops, 2, ]"),
        Some(JsonValue::Array(vec![JsonValue::Int(1), JsonValue::Int(2)]))
    );
    assert_eq!(
        parse_json("{\"a\": 1, nocolon, \"b\": oops, \"c\": 3}"),
        Some(JsonValue::object(vec![(s("a"), JsonValue::Int(1)), (s("c"), JsonValue::Int(3))]))
    );
    assert_eq!(parse_json("[[1, 2}, 3]"), None);
}

#[test]
fn later_member_of_a_key_wins() {
    assert_eq!(
        parse_json("{\"a\": 1, \"a\": 2}"),
        Some(JsonValue::object(vec![(s("a"), JsonValue::Int(2))]))
    );
    assert_eq!(parse_json("{\"a\": 1, \"a\": 2}").unwrap().to_string(), "{\r\n\"a\": 2\r\n}");
}

#[test]
fn render_sorts_keys_whatever_the_order_of_insertion() {
    let one = JsonValue::object(vec![
        (s("b"), JsonValue::Int(2)),
        (s("a"), JsonValue::Int(1)),
        (s("c"), JsonValue::Int(3)),
    ]);
    let two = JsonValue::object(vec![
        (s("c"), JsonValue::Int(3)),
        (s("a"), JsonValue::Int(1)),
        (s("b"), JsonValue::Int(2)),
    ]);
    assert_eq!(one.to_string(), two.to_string());
    assert_eq!(one.to_string(), "{\r\n\"a\": 1,\r\n\"b\": 2,\r\n\"c\": 3\r\n}");
    assert_eq!(one, two);
    let keys = JsonValue::object(vec![(s("a b"), JsonValue::Null), (s("a"), JsonValue::Null), (s("B"), JsonValue::Null)]);
    assert_eq!(keys.to_string(), "{\r\n\"B\": null,\r\n\"a\": null,\r\n\"a b\": null\r\n}");
}

#[test]
fn integers_render_in_decimal() {
    assert_eq!(JsonValue::Int(0).to_string(), "0");
    assert_eq!(JsonValue::Int(-12).to_string(), "-12");
    assert_eq!(JsonValue::Int(i32::MIN).to_string(), "-2147483648");
    assert_eq!(JsonValue::Int(i32::MAX).to_string(), "2147483647");
}

#[test]
fn empty_containers_render() {
    assert_eq!(JsonValue::Array(vec![]).to_string(), "[]");
    assert_eq!(JsonValue::object(vec![]).to_string(), "{\r\n\r\n}");
}

#[test]
fn equality_checks_lengths_and_variants() {
    assert_ne!(
        JsonValue::Array(vec![JsonValue::Int(1)]),
        JsonValue::Array(vec![JsonValue::Int(1), JsonValue::Int(2)])
    );
    assert_ne!(JsonValue::Int(1), JsonValue::Float(s("1")));
    assert_ne!(JsonValue::Null, JsonValue::Bool(false));
    assert_ne!(
        JsonValue::object(vec![(s("a"), JsonValue::Int(1))]),
        JsonValue::object(vec![(s("a"), JsonValue::Int(2))])
    );
    assert_ne!(
        JsonValue::object(vec![(s("a"), JsonValue::Int(1))]),
        JsonValue::object(vec![(s("b"), JsonValue::Int(1))])
    );
    assert!(JsonValue::String(s("x")).same(&JsonValue::String(s("x"))));
}

#[test]
fn int_round_trips_through_render() {
    for v in [0, 7, -7, 123456, i32::MIN, i32::MAX] {
        assert_eq!(parse_json(&JsonValue::Int(v).to_string()), Some(JsonValue::Int(v)));
    }
}

#[test]
fn white_space_is_what_trim_removes() {
    for code in 0u32..0x3100 {
        if let Some(c) = char::from_u32(code) {
            assert_eq!(httpcore::text::char_is_space(c), c.is_whitespace(), "{:x}", code);
        }
    }
    for text in ["", " ", " a ", "\u{a0}a b\u{3000}\r\n", "a", "\t\t", " a", "a "] {
        assert_eq!(httpcore::text::trim(text), text.trim());
    }
}

#[test]
fn integers_read_as_the_language_reads_them() {
    for text in ["0", "7", "-7", "+7", "007", "", "-", "+", "--7", "7-", "2147483647", "2147483648",
        "-2147483648", "-2147483649", "4294967296", "12a", " 1", "1 ", "٣"] {
        assert_eq!(httpcore::text::parse_int(text), text.parse::<i32>().ok(), "{}", text);
    }
    for text in ["0", "5", "+5", "-5", "-0", "", "18446744073709551615", "18446744073709551616", "1x"] {
        assert_eq!(httpcore::text::parse_length(text), text.parse::<usize>().ok(), "{}", text);
    }
}

#[test]
fn decimal_literals_are_those_of_the_language() {
    for text in ["1.5", "1.", ".5", ".", "", "+", "-", "e", "e5", "1e5", "1e", "1e+", "1e-5", "1E5",
        "1.e5", ".e5", "-.5", "+1.5E-10", "inf", "INF", "-inf", "+infinity", "infinit", "inf ",
        "nan", "NaN", "-nan", "nanx", "1,5", "0x1p3", "1_0", "1.5f", "٣.٥", "1..5", "1e5.5", "123"] {
        assert_eq!(httpcore::scan::check_decimal(text), text.parse::<f32>().is_ok(), "{}", text);
    }
}

#[test]
fn keys_compare_by_code_point() {
    for (a, b) in [("", ""), ("", "a"), ("a", ""), ("a", "b"), ("b", "a"), ("a", "a"), ("a", "ab"),
        ("ab", "a"), ("B", "a"), ("é", "z"), ("a b", "a")] {
        assert_eq!(httpcore::json::key_lt(a, b), a < b, "{} {}", a, b);
    }
}

#[test]
fn members_stay_in_key_order() {
    let members = Members::new()
        .insert(s("b"), JsonValue::Int(1))
        .insert(s("a"), JsonValue::Int(2))
        .insert(s("c"), JsonValue::Null)
        .insert(s("b"), JsonValue::Int(3));
    assert_eq!(members.len(), 3);
    assert_eq!(members.get(0).unwrap().key, "a");
    assert_eq!(members.get(1).unwrap().key, "b");
    assert_eq!(members.get(1).unwrap().value, JsonValue::Int(3));
    assert_eq!(members.get(2).unwrap().key, "c");
    assert!(members.get(3).is_none());
    assert_eq!(
        JsonValue::Object(members).to_string(),
        "{\r\n\"a\": 2,\r\n\"b\": 3,\r\n\"c\": null\r\n}"
    );
    assert_eq!(Members::new().len(), 0);
}
