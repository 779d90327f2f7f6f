use json_parser_rs::json::{JsonNumber, JsonValue};
use json_parser_rs::parse_json;
use json_parser_rs::parser::Parser;

fn num(negative: bool, int_digits: &str, frac_digits: &str) -> JsonValue {
    JsonValue::Number(JsonNumber {
        negative,
        int_digits: int_digits.to_string(),
        frac_digits: frac_digits.to_string(),
    })
}

#[test]
fn test_parse_empty_object() {
    let mut parser = Parser::new("{}").unwrap();
    let result = parser.parse().unwrap();
    assert_eq!(result, JsonValue::Object(vec![]));
}

#[test]
fn test_parse_simple_object() {
    let mut parser = Parser::new(r#"{"key": "value"}"#).unwrap();
    let result = parser.parse().unwrap();
    match result {
        JsonValue::Object(pairs) => {
            assert_eq!(pairs.len(), 1);
            assert_eq!(pairs[0].0, "key");
            assert_eq!(pairs[0].1, JsonValue::String("value".to_string()));
        }
        _ => panic!("Expected object"),
    }
}

#[test]
fn test_parse_empty_input_fails() {
    assert!(parse_json("").is_err());
}

#[test]
fn test_parse_whitespace_only_fails() {
    assert!(parse_json("   \n\t ").is_err());
}

#[test]
fn test_parse_empty_object_and_array() {
    assert_eq!(parse_json("{}").unwrap(), JsonValue::Object(vec![]));
    assert_eq!(parse_json("[]").unwrap(), JsonValue::Array(vec![]));
}

#[test]
fn test_parse_key_value() {
    assert_eq!(
        parse_json(r#"{"key": "value"}"#).unwrap(),
        JsonValue::Object(vec![(
            "key".to_string(),
            JsonValue::String("value".to_string())
        )])
    );
}

#[test]
fn test_parse_trailing_comma_object() {
    let err = parse_json("{\"a\":1,}").unwrap_err();
    assert_eq!(err.message, "Trailing comma not allowed");
}

#[test]
fn test_parse_trailing_comma_array() {
    let err = parse_json("[1,2,]").unwrap_err();
    assert_eq!(err.message, "Trailing comma not allowed");
}

#[test]
fn test_parse_numbers() {
    assert_eq!(parse_json("123").unwrap(), num(false, "123", ""));
    assert_eq!(parse_json("-42.5").unwrap(), num(true, "42", "5"));
    assert!(parse_json("1e10").is_err());
}

#[test]
fn test_parse_non_string_key_fails() {
    let err = parse_json("{1: 2}").unwrap_err();
    assert_eq!(err.message, "Object key must be a string");
}

#[test]
fn test_parse_duplicate_keys_preserved() {
    assert_eq!(
        parse_json(r#"{"a":1,"a":2}"#).unwrap(),
        JsonValue::Object(vec![
            ("a".to_string(), num(false, "1", "")),
            ("a".to_string(), num(false, "2", "")),
        ])
    );
}

#[test]
fn test_parse_literals() {
    assert_eq!(parse_json("true").unwrap(), JsonValue::Boolean(true));
    assert_eq!(parse_json("false").unwrap(), JsonValue::Boolean(false));
    assert_eq!(parse_json("null").unwrap(), JsonValue::Null);
}

#[test]
fn test_parse_nested() {
    assert_eq!(
        parse_json(r#"[[], [1], {"a": [true]}]"#).unwrap(),
        JsonValue::Array(vec![
            JsonValue::Array(vec![]),
            JsonValue::Array(vec![num(false, "1", "")]),
            JsonValue::Object(vec![(
                "a".to_string(),
                JsonValue::Array(vec![JsonValue::Boolean(true)])
            )]),
        ])
    );
}

#[test]
fn test_parse_missing_colon() {
    let err = parse_json(r#"{"a" 1}"#).unwrap_err();
    assert_eq!(err.message, "Expected Colon, found Number");
}

#[test]
fn test_parse_missing_comma_or_brace() {
    let err = parse_json(r#"{"a": 1 2}"#).unwrap_err();
    assert_eq!(err.message, "Expected ',' or '}', found Number");
}

#[test]
fn test_parse_missing_comma_or_bracket() {
    let err = parse_json("[1 2]").unwrap_err();
    assert_eq!(err.message, "Expected ',' or ']', found Number");
}

#[test]
fn test_parse_trailing_content_fails() {
    let err = parse_json("{} :").unwrap_err();
    assert_eq!(err.message, "Unexpected token after JSON value: Colon");
}

#[test]
fn test_parse_value_on_eof_fails() {
    let err = parse_json("").unwrap_err();
    assert_eq!(err.message, "Unexpected token: Eof");
}

#[test]
fn test_parse_unbalanced_array_fails() {
    assert!(parse_json("[1, 2").is_err());
    assert!(parse_json("{\"a\": 1").is_err());
    assert!(parse_json("]").is_err());
}

#[test]
fn test_parse_surrounding_whitespace_ok() {
    assert_eq!(parse_json(" \n 123 \t ").unwrap(), num(false, "123", ""));
    assert_eq!(
        parse_json("\t\"hi\"\n").unwrap(),
        JsonValue::String("hi".to_string())
    );
}

#[test]
fn test_parse_deep_nesting() {
    let input = "[[[[[[[[[[1]]]]]]]]]]";
    let mut expected = num(false, "1", "");
    for _ in 0..10 {
        expected = JsonValue::Array(vec![expected]);
    }
    assert_eq!(parse_json(input).unwrap(), expected);
}

#[test]
fn test_parse_unicode_string_content() {
    assert_eq!(
        parse_json("\"héllo → ☃\"").unwrap(),
        JsonValue::String("héllo → ☃".to_string())
    );
}

#[test]
fn test_parse_zero_and_negative_zero() {
    assert_eq!(parse_json("0").unwrap(), num(false, "0", ""));
    assert_eq!(parse_json("-0").unwrap(), num(true, "0", ""));
}

#[test]
fn test_parse_keyword_with_suffix_fails() {
    assert!(parse_json("truex").is_err());
    assert!(parse_json("nullable").is_err());
}
