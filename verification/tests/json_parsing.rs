//! Ports of the JSON parser test suite, plus error-kind cases.

use nested_params::value::map_get;
use nested_params::{parse_json, unescape_json_string, JsonError, Number, Value, N};

fn get<'a>(v: &'a Value, k: &str) -> &'a Value {
    match v {
        Value::Object(entries) => map_get(entries, k).unwrap(),
        other => panic!("Expected object, got {:?}", other),
    }
}

fn float_of(v: &Value) -> f64 {
    match v {
        Value::Number(Number(N::Float(s))) => s.parse::<f64>().unwrap(),
        other => panic!("expected float, got {:?}", other),
    }
}

#[test]
fn test_parse_json_numbers() {
    // Test positive integers
    let json = r#"{"pos": 42, "zero": 0, "big": 9007199254740991}"#;
    let result = parse_json(json).unwrap();
    assert!(matches!(get(&result, "pos"), Value::Number(Number(N::PosInt(42)))));
    assert!(matches!(get(&result, "zero"), Value::Number(Number(N::PosInt(0)))));
    assert!(matches!(
        get(&result, "big"),
        Value::Number(Number(N::PosInt(9007199254740991)))
    ));

    // Test negative integers
    let json = r#"{"neg": -42, "min": -9007199254740991}"#;
    let result = parse_json(json).unwrap();
    assert!(matches!(get(&result, "neg"), Value::Number(Number(N::NegInt(-42)))));
    assert!(matches!(
        get(&result, "min"),
        Value::Number(Number(N::NegInt(-9007199254740991)))
    ));

    // Test floating point numbers
    let json = r#"{
            "float": 42.5,
            "neg_float": -42.5,
            "zero_float": 0.0,
            "exp": 1.23e5,
            "neg_exp": -1.23e-5
        }"#;
    let result = parse_json(json).unwrap();
    assert!((float_of(get(&result, "float")) - 42.5).abs() < f64::EPSILON);
    assert!((float_of(get(&result, "neg_float")) - (-42.5)).abs() < f64::EPSILON);
    assert!(float_of(get(&result, "zero_float")).abs() < f64::EPSILON);
    assert!((float_of(get(&result, "exp")) - 123000.0).abs() < f64::EPSILON);
    assert!((float_of(get(&result, "neg_exp")) - (-0.0000123)).abs() < f64::EPSILON);

    // Test array of numbers
    let json = r#"[42, -42, 42.5, 0, -0.0]"#;
    let result = parse_json(json).unwrap();
    if let Value::Array(arr) = &result {
        assert!(matches!(arr[0], Value::Number(Number(N::PosInt(42)))));
        assert!(matches!(arr[1], Value::Number(Number(N::NegInt(-42)))));
        assert!((float_of(&arr[2]) - 42.5).abs() < f64::EPSILON);
        assert!(matches!(arr[3], Value::Number(Number(N::PosInt(0)))));
        assert!(float_of(&arr[4]).abs() < f64::EPSILON);
    } else {
        panic!("Expected array");
    }
}

#[test]
fn test_parse_json_mixed_types() {
    let json = r#"{
            "number": 42,
            "string": "hello",
            "bool": true,
            "null": null,
            "array": [1, "two", false],
            "nested": {"a": 1, "b": 2}
        }"#;
    let result = parse_json(json).unwrap();
    assert!(matches!(get(&result, "number"), Value::Number(Number(N::PosInt(42)))));
    assert!(matches!(get(&result, "string"), Value::Str(s) if s == "hello"));
    assert!(matches!(get(&result, "bool"), Value::Bool(b) if *b));
    assert!(matches!(get(&result, "null"), Value::Null));

    if let Value::Array(arr) = get(&result, "array") {
        assert!(matches!(arr[0], Value::Number(Number(N::PosInt(1)))));
        assert!(matches!(&arr[1], Value::Str(s) if s == "two"));
        assert!(matches!(arr[2], Value::Bool(b) if !b));
    } else {
        panic!("Expected array");
    }

    let nested = get(&result, "nested");
    assert!(matches!(get(nested, "a"), Value::Number(Number(N::PosInt(1)))));
    assert!(matches!(get(nested, "b"), Value::Number(Number(N::PosInt(2)))));
}

#[test]
fn test_parse_json_escape_chars() {
    let json = r#"{
            "escaped_quotes": "hello \"world\"",
            "escaped_slash": "hello\/world",
            "escaped_backslash": "back\\slash",
            "escaped_controls": "\b\f\n\r\t",
            "escaped_unicode": "ABC",
            "mixed_escapes": "Hello\n\"World\"\\!"
        }"#;
    let result = parse_json(json).unwrap();

    assert!(matches!(get(&result, "escaped_quotes"), Value::Str(s) if s == "hello \"world\""));
    assert!(matches!(get(&result, "escaped_slash"), Value::Str(s) if s == "hello/world"));
    assert!(matches!(get(&result, "escaped_backslash"), Value::Str(s) if s == "back\\slash"));
    assert!(
        matches!(get(&result, "escaped_controls"), Value::Str(s) if s == "\u{0008}\u{000C}\n\r\t")
    );
    assert!(matches!(get(&result, "escaped_unicode"), Value::Str(s) if s == "ABC"));
    assert!(
        matches!(get(&result, "mixed_escapes"), Value::Str(s) if s == "Hello\n\"World\"\\!")
    );

    // Test invalid escape sequences
    let invalid_json = r#"{"invalid": "\z"}"#;
    assert!(parse_json(invalid_json).is_err());
}

#[test]
fn test_parse_json_error_kinds() {
    assert!(matches!(parse_json(""), Err(JsonError::NoMoreInput)));
    assert!(matches!(parse_json("   "), Err(JsonError::NoMoreInput)));
    assert!(matches!(parse_json("{\"a\": "), Err(JsonError::NoMoreInput)));
    assert!(matches!(parse_json("{]"), Err(JsonError::SyntaxError(_))));
    assert!(matches!(parse_json("[1 2]"), Err(JsonError::SyntaxError(_))));
    assert!(matches!(parse_json("{\"a\" 1}"), Err(JsonError::SyntaxError(_))));
    assert!(matches!(parse_json("1 2"), Err(JsonError::SyntaxError(_))));
    assert!(matches!(parse_json("tru"), Err(JsonError::SyntaxError(_))));
    assert!(matches!(parse_json("\"abc"), Err(JsonError::SyntaxError(_))));
    // an integer past the signed 64-bit range is refused, not misread
    assert!(matches!(parse_json("99999999999999999999"), Err(JsonError::SyntaxError(_))));
}

#[test]
fn test_parse_json_structures() {
    let v = parse_json(" [ ] ").unwrap();
    assert!(matches!(&v, Value::Array(items) if items.is_empty()));
    let v = parse_json("{}").unwrap();
    assert!(matches!(&v, Value::Object(entries) if entries.is_empty()));
    let v = parse_json("\"x\"").unwrap();
    assert!(matches!(&v, Value::Str(s) if s == "x"));
    let v = parse_json("[[1], {\"a\": [true]}]").unwrap();
    if let Value::Array(items) = &v {
        assert!(matches!(&items[0], Value::Array(inner) if inner.len() == 1));
        if let Value::Object(_) = &items[1] {
            assert!(matches!(get(&items[1], "a"), Value::Array(inner) if inner.len() == 1));
        } else {
            panic!("expected object");
        }
    } else {
        panic!("expected array");
    }
    // duplicate keys: the later value wins
    let v = parse_json(r#"{"a": 1, "a": 2}"#).unwrap();
    assert!(matches!(get(&v, "a"), Value::Number(Number(N::PosInt(2)))));
}

#[test]
fn test_unescape_json_string_directly() {
    assert_eq!(unescape_json_string("plain").unwrap(), "plain");
    assert_eq!(unescape_json_string("a\\nb").unwrap(), "a\nb");
    assert_eq!(unescape_json_string("\\u0041").unwrap(), "A");
    // a surrogate code is refused
    assert!(matches!(
        unescape_json_string("\\uD800"),
        Err(JsonError::SyntaxError(_))
    ));
    // an unknown escape is kept literally by the unescaper itself
    assert_eq!(unescape_json_string("\\z").unwrap(), "\\z");
}

#[test]
fn test_integer_float_classification() {
    // a large negative integer stays an integer
    let v = parse_json(r#"{"n": -9007199254740991}"#).unwrap();
    assert!(matches!(
        get(&v, "n"),
        Value::Number(Number(N::NegInt(-9007199254740991)))
    ));
    // an integral float stays a float
    let v = parse_json(r#"{"n": 1.0}"#).unwrap();
    match get(&v, "n") {
        Value::Number(Number(N::Float(s))) => {
            assert_eq!(s.parse::<f64>().unwrap(), 1.0);
        }
        other => panic!("expected float, got {:?}", other),
    }
}
