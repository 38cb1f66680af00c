//! Ports of the nested-query test suite, plus edge cases of the normalizer.

use nested_params::value::map_get;
use nested_params::{parse_json, QueryParser, QueryParserError, Value, DEFAULT_PARAM_DEPTH_LIMIT};

/// Parse a query string and compare the resulting tree against a JSON text,
/// under the engine's own value equality (loose and plain strings equal,
/// object order irrelevant).
fn should_be(qs: &str, expected_json: &str) {
    let parser = QueryParser::new(None);
    let got = Value::Object(parser.parse_nested_query(Some(qs)).unwrap());
    let want = parse_json(expected_json).unwrap();
    assert!(
        got.value_eq(&want),
        "query {:?}: got {:?}, want {:?}",
        qs,
        got,
        want
    );
}

#[test]
fn parse_nil_as_an_empty_query_string() {
    let parser = QueryParser::new(None);
    assert!(parser.parse_nested_query(None).unwrap().is_empty());
}

#[test]
fn raise_an_exception_if_the_params_are_too_deep() {
    let parser = QueryParser::new(Some(DEFAULT_PARAM_DEPTH_LIMIT));
    let deep_string = "[a]".repeat(DEFAULT_PARAM_DEPTH_LIMIT);
    let query_string = format!("foo{}=bar", deep_string);
    let result = parser.parse_nested_query(Some(&query_string));
    assert!(result.is_err());
    assert!(matches!(
        result,
        Err(QueryParserError::ParamsTooDeepError(_))
    ));
}

#[test]
fn test_parse_nested_query_strings_correctly() {
    should_be("foo", r#"{"foo": null}"#);
    should_be("foo=", r#"{"foo": ""}"#);
    should_be("foo=bar", r#"{"foo": "bar"}"#);
    should_be("foo=\"bar\"", r#"{"foo": "\"bar\""}"#);

    should_be("foo=bar&foo=quux", r#"{"foo": "quux"}"#);
    should_be("foo&foo=", r#"{"foo": ""}"#);
    should_be("foo=1&bar=2", r#"{"foo": "1", "bar": "2"}"#);
    should_be("&foo=1&&bar=2", r#"{"foo": "1", "bar": "2"}"#);
    should_be("foo&bar=", r#"{"foo": null, "bar": ""}"#);
    should_be("foo=bar&baz=", r#"{"foo": "bar", "baz": ""}"#);
    should_be(
        "my+weird+field=q1%212%22%27w%245%267%2Fz8%29%3F",
        r#"{"my weird field": "q1!2\"'w$5&7/z8)?"}"#,
    );

    should_be("a=b&pid%3D1234=1023", r#"{"pid=1234": "1023", "a": "b"}"#);

    should_be("foo[]", r#"{"foo": [null]}"#);
    should_be("foo[]=", r#"{"foo": [""]}"#);
    should_be("foo[]=bar", r#"{"foo": ["bar"]}"#);
    should_be("foo[]=bar&foo", r#"{"foo": null}"#);
    should_be("foo[]=bar&foo[", r#"{"foo": ["bar"], "foo[": null}"#);
    should_be("foo[]=bar&foo[=baz", r#"{"foo": ["bar"], "foo[": "baz"}"#);
    should_be("foo[]=bar&foo[]", r#"{"foo": ["bar", null]}"#);
    should_be("foo[]=bar&foo[]=", r#"{"foo": ["bar", ""]}"#);

    should_be("foo[]=1&foo[]=2", r#"{"foo": ["1", "2"]}"#);
    should_be(
        "foo=bar&baz[]=1&baz[]=2&baz[]=3",
        r#"{"foo": "bar", "baz": ["1", "2", "3"]}"#,
    );
    should_be(
        "foo[]=bar&baz[]=1&baz[]=2&baz[]=3",
        r#"{"foo": ["bar"], "baz": ["1", "2", "3"]}"#,
    );

    should_be("x[y][z]", r#"{"x": { "y": { "z": null } }}"#);
    should_be("x[y][z]=1", r#"{"x": { "y": { "z": "1"} }}"#);
    should_be("x[y][z][]=1", r#"{"x": { "y": { "z": ["1"] } }}"#);
    should_be("x[y][z]=1&x[y][z]=2", r#"{"x": { "y": { "z": "2"} }}"#);
    should_be(
        "x[y][z][]=1&x[y][z][]=2",
        r#"{"x": { "y": { "z": ["1", "2"] } }}"#,
    );

    should_be("x[y][][z]=1", r#"{"x": { "y": [{ "z": "1" }] }}"#);
    should_be("x[y][][z][]=1", r#"{"x": { "y": [{ "z": ["1"] }] }}"#);
    should_be(
        "x[y][][z]=1&x[y][][w]=2",
        r#"{"x": { "y": [{ "z": "1", "w": "2" }] }}"#,
    );

    should_be("x[y][][v][w]=1", r#"{"x": { "y": [{ "v": { "w": "1" } }] }}"#);
    should_be(
        "x[y][][z]=1&x[y][][v][w]=2",
        r#"{"x": { "y": [{ "z": "1", "v": { "w": "2" } }] }}"#,
    );

    should_be(
        "x[y][][z]=1&x[y][][z]=2",
        r#"{"x": { "y": [{ "z": "1" }, { "z": "2" }] }}"#,
    );
    should_be(
        "x[y][][z]=1&x[y][][w]=a&x[y][][z]=2&x[y][][w]=3",
        r#"{"x": { "y": [{ "z": "1", "w": "a" }, { "z": "2", "w": "3" }] }}"#,
    );

    should_be(
        "x[][y]=1&x[][z][w]=a&x[][y]=2&x[][z][w]=b",
        r#"{"x": [{ "y": "1", "z": { "w": "a" } }, { "y": "2", "z": { "w": "b" } }]}"#,
    );
    should_be(
        "x[][z][w]=a&x[][y]=1&x[][z][w]=b&x[][y]=2",
        r#"{"x": [{ "y": "1", "z": { "w": "a" } }, { "y": "2", "z": { "w": "b" } }]}"#,
    );

    should_be(
        "data[books][][data][page]=1&data[books][][data][page]=2",
        r#"{"data": { "books": [{ "data": { "page": "1" } }, { "data": { "page": "2" } }] }}"#,
    );
}

#[test]
fn test_parse_empty() {
    let parser = QueryParser::new(None);
    assert!(parser.parse_nested_query(Some("")).unwrap().is_empty());
    assert!(parser.parse_nested_query(None).unwrap().is_empty());
}

#[test]
fn test_parse_empty_key_value() {
    should_be("=value", r#"{}"#);
    should_be("key=", r#"{"key": ""}"#);
    should_be("=", r#"{}"#);
    should_be("&key&", r#"{"key": null}"#);
}

#[test]
fn test_parse_duplicate_keys() {
    should_be("foo=bar&foo=quux", r#"{"foo": "quux"}"#);
    should_be("foo&foo=", r#"{"foo": ""}"#);
    should_be("foo=bar&foo", r#"{"foo": null}"#);
}

#[test]
fn test_parse_array_edge_cases() {
    should_be("foo[]=bar&foo", r#"{"foo": null}"#);
    should_be("foo[]=bar&foo[", r#"{"foo": ["bar"], "foo[": null}"#);
    should_be("foo[]=bar&foo[=baz", r#"{"foo": ["bar"], "foo[": "baz"}"#);
}

#[test]
// can parse a query string with a key that has invalid UTF-8 encoded bytes
fn test_parse_invalid_utf8() {
    let parser = QueryParser::new(None);
    let result = parser.parse_nested_query(Some("foo%81E=1")).unwrap_or_default();
    assert_eq!(result.len(), 1);
    let key = result[0].0.as_bytes();
    assert_eq!(key, b"foo\xEF\xBF\xBDE");
}

#[test]
fn only_moves_to_a_new_array_when_the_full_key_has_been_seen() {
    should_be(
        "x[][y][][z]=1&x[][y][][w]=2",
        r#"{"x": [{ "y": [{ "z": "1", "w": "2" }] }]}"#,
    );
    should_be(
        "x[][id]=1&x[][y][a]=5&x[][y][b]=7&x[][z][id]=3&x[][z][w]=0&x[][id]=2&x[][y][a]=6&x[][y][b]=8&x[][z][id]=4&x[][z][w]=0",
        r#"
            {
                "x": [
                    { "id": "1", "y": { "a": "5", "b": "7" }, "z": { "id": "3", "w": "0" } },
                    { "id": "2", "y": { "a": "6", "b": "8" }, "z": { "id": "4", "w": "0" } }
                ]
            }"#,
    );
}

#[test]
fn handles_unexpected_use_of_brackets_in_parameter_keys_as_normal_characters() {
    should_be("[]=1&[a]=2&b[=3&c]=4", r#"{"[]": "1", "[a]": "2", "b[": "3", "c]": "4"}"#);
    should_be(
        "d[[]=5&e][]=6&f[[]]=7",
        r#"{"d": {"[":  "5"}, "e]":  ["6"], "f":  { "[":  { "]":  "7" } }}"#,
    );
    should_be(
        "g[h]i=8&j[k]l[m]=9",
        r#"{"g": { "h": { "i":  "8" } }, "j":  { "k":  { "l[m]": "9" } }}"#,
    );
    should_be("l[[[[[[[[]]]]]]]=10", r#"{"l": {"[[[[[[[": {"]]]]]]": "10"}}}"#);
}

#[test]
fn test_parse_nested_value_tree() {
    let parser = QueryParser::new(None);
    let mut params: Vec<(String, Value)> = Vec::new();

    parser.parse_nested_value(&mut params, Some("name"), Value::xstr("john")).unwrap();
    parser.parse_nested_value(&mut params, Some("user[name]"), Value::xstr("mary")).unwrap();
    parser.parse_nested_value(&mut params, Some("user[age]"), Value::xstr("25")).unwrap();
    parser
        .parse_nested_value(&mut params, Some("user[address][city]"), Value::xstr("beijing"))
        .unwrap();
    parser
        .parse_nested_value(&mut params, Some("user[address][country]"), Value::xstr("china"))
        .unwrap();
    parser.parse_nested_value(&mut params, Some("colors[]"), Value::xstr("red")).unwrap();
    parser.parse_nested_value(&mut params, Some("colors[]"), Value::xstr("blue")).unwrap();

    let got = Value::Object(params);
    let want = parse_json(
        r#"{
            "name": "john",
            "user": { "name": "mary", "age": "25",
                      "address": { "city": "beijing", "country": "china" } },
            "colors": ["red", "blue"]
        }"#,
    )
    .unwrap();
    assert!(got.value_eq(&want), "got {:?}", got);
}

#[test]
fn test_indexed_array_keys() {
    // explicit indices build arrays, zero-extended with empty objects
    should_be("numbers[0]=1&numbers[1]=2&numbers[2]=3", r#"{"numbers": ["1", "2", "3"]}"#);
    should_be(
        "users[0][name]=john&users[0][age]=20&users[1][name]=mary&users[1][age]=25",
        r#"{"users": [{"name": "john", "age": "20"}, {"name": "mary", "age": "25"}]}"#,
    );
    should_be("gap[2]=x", r#"{"gap": [{}, {}, "x"]}"#);
}

#[test]
fn test_parameter_type_error_names_key() {
    let parser = QueryParser::new(None);
    let result = parser.parse_nested_query(Some("foo=1&foo[]=2"));
    match result {
        Err(QueryParserError::ParameterTypeError(msg)) => {
            assert!(msg.contains("foo"), "message {:?}", msg);
            assert!(msg.contains("expected Array"), "message {:?}", msg);
        }
        other => panic!("expected ParameterTypeError, got {:?}", other),
    }
}

#[test]
fn test_round_trip_single_pair() {
    // one bracketed pair in, the same scalar back out of the decoded slots
    let parser = QueryParser::new(None);
    let params = parser.parse_nested_query(Some("a[b]=1")).unwrap();
    let inner = map_get(&params, "a").unwrap();
    match inner {
        Value::Object(entries) => {
            let leaf = map_get(entries, "b").unwrap();
            let text = nested_params::decode::decode_string(leaf).unwrap();
            assert_eq!(text, "1");
        }
        other => panic!("expected object at `a`, got {:?}", other),
    }
}

#[test]
fn test_parse_nested_value_too_deep() {
    let parser = QueryParser::new(Some(2));
    let mut params: Vec<(String, Value)> = Vec::new();
    let result = parser.parse_nested_value(&mut params, Some("a[b][c][d]"), Value::xstr("1"));
    assert!(matches!(result, Err(QueryParserError::ParamsTooDeepError(_))));
}

#[test]
fn test_parse_into_running_tree() {
    // folding a second source into an existing tree keeps both
    let parser = QueryParser::new(None);
    let mut params = parser.parse_nested_query(Some("a=1")).unwrap();
    parser
        .parse_nested_query_into(&mut params, Some("b[c]=2"))
        .unwrap();
    let got = Value::Object(params);
    let want = parse_json(r#"{"a": "1", "b": {"c": "2"}}"#).unwrap();
    assert!(got.value_eq(&want));
}
