use json_parser_rs::error::ParseError;
use json_parser_rs::json::{escape_string, JsonNumber, JsonValue};
use json_parser_rs::parse_json;

#[test]
fn test_calculate_position_basics() {
    assert_eq!(ParseError::calculate_position(0, "abc"), (1, 1));
    assert_eq!(ParseError::calculate_position(2, "abc"), (1, 3));
    assert_eq!(ParseError::calculate_position(4, "ab\ncd"), (2, 2));
    assert_eq!(ParseError::calculate_position(3, "ab\ncd"), (2, 1));
    assert_eq!(ParseError::calculate_position(99, "ab\ncd"), (2, 3));
}

#[test]
fn test_error_location_matches_recomputation() {
    let inputs = ["{\n  1}", "[1,\n 2,\n tru]", "  @", "\"ab\ncd", "{\"a\":1,}"];
    for input in inputs {
        let err = parse_json(input).unwrap_err();
        let (line, column) = ParseError::calculate_position(err.position, input);
        assert_eq!(err.line, line);
        assert_eq!(err.column, column);
    }
}

#[test]
fn test_error_location_second_line() {
    let err = parse_json("{\n1: 2}").unwrap_err();
    assert_eq!(err.message, "Object key must be a string");
    assert_eq!(err.line, 2);
}

#[test]
fn test_to_display_string() {
    let err = ParseError::new("boom".to_string(), 0, "x");
    assert_eq!(
        err.to_display_string(),
        "Parse error at line 1, column 1: boom"
    );
}

#[test]
fn test_escape_string_round() {
    assert_eq!(escape_string("a\"b\\c\nd\re\tf"), "a\\\"b\\\\c\\nd\\re\\tf");
    assert_eq!(escape_string("plain"), "plain");
}

#[test]
fn test_to_json_string_scalars() {
    assert_eq!(JsonValue::Null.to_json_string(), "null");
    assert_eq!(JsonValue::Boolean(true).to_json_string(), "true");
    assert_eq!(JsonValue::Boolean(false).to_json_string(), "false");
    assert_eq!(
        JsonValue::Number(JsonNumber {
            negative: false,
            int_digits: "123".to_string(),
            frac_digits: String::new(),
        })
        .to_json_string(),
        "123"
    );
    assert_eq!(
        JsonValue::Number(JsonNumber {
            negative: true,
            int_digits: "42".to_string(),
            frac_digits: "5".to_string(),
        })
        .to_json_string(),
        "-42.5"
    );
    assert_eq!(
        JsonValue::String("a\nb".to_string()).to_json_string(),
        "\"a\\nb\""
    );
}

#[test]
fn test_to_json_string_containers() {
    let v = parse_json(r#"{"a": [1, true, null, "x"], "b": {}}"#).unwrap();
    assert_eq!(
        v.to_json_string(),
        r#"{"a": [1, true, null, "x"], "b": {}}"#
    );
}

#[test]
fn test_round_trip_parse_render_parse() {
    let inputs = [
        r#"{"a": [1, 2.5, true, null, "x\n"], "b": {"c": "d"}, "a": -0.5}"#,
        "[[], [1], [\"\"], {\"k\": [{}]}]",
        "-7.25",
        "\"quote \\\" backslash \\\\\"",
    ];
    for input in inputs {
        let first = parse_json(input).unwrap();
        let rendered = first.to_json_string();
        let second = parse_json(&rendered).unwrap();
        assert_eq!(first, second);
    }
}

#[test]
fn test_number_kept_as_scanned() {
    let v = parse_json("1.50").unwrap();
    assert_eq!(v.to_json_string(), "1.50");
    let w = parse_json("-.5").unwrap();
    assert_eq!(w.to_json_string(), "-.5");
}
