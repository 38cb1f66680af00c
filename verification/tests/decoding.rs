//! The value model: numbers, equality, merging, coercion into typed
//! destinations, and upload handles.

use nested_params::decode::{
    coerce_bool, decode_array, decode_bool, decode_char, decode_i16, decode_i32, decode_i64,
    decode_i8, decode_object, decode_option, decode_string, decode_u16, decode_u32, decode_u64,
    decode_u8, decode_upload_file, upload_file_object,
};
use nested_params::ingest::{
    body_kind, field_kind, fold_json_field, make_upload_value, merge_json_body, BodyKind,
    FieldKind,
};
use nested_params::value::map_get;
use nested_params::{parse_json, Error, Number, UploadFile, Value, N};

#[test]
fn test_number_from_u64() {
    let n = Number::from(42u64);
    assert!(matches!(n.0, N::PosInt(42)));

    let n = Number::from(0u64);
    assert!(matches!(n.0, N::PosInt(0)));

    let n = Number::from(u64::MAX);
    assert!(matches!(n.0, N::PosInt(u64::MAX)));
}

#[test]
fn test_number_from_i64() {
    let n = Number::from(42i64);
    assert!(matches!(n.0, N::PosInt(42)));

    let n = Number::from(0i64);
    assert!(matches!(n.0, N::PosInt(0)));

    let n = Number::from(-42i64);
    assert!(matches!(n.0, N::NegInt(-42)));

    let n = Number::from(i64::MIN);
    assert!(matches!(n.0, N::NegInt(i64::MIN)));
}

#[test]
fn test_number_equality() {
    // Same type comparisons
    assert_eq!(Number::from(42u64), Number::from(42u64));
    assert_eq!(Number::from(-42i64), Number::from(-42i64));
    assert_eq!(
        Number(N::Float("42".to_string())),
        Number(N::Float("42".to_string()))
    );

    // Different values
    assert_ne!(Number::from(42u64), Number::from(43u64));
    assert_ne!(Number::from(-42i64), Number::from(-43i64));
    assert_ne!(
        Number(N::Float("42".to_string())),
        Number(N::Float("42.5".to_string()))
    );
}

#[test]
fn test_value_equality_loose_and_plain() {
    // a loose string equals a plain string with the same text
    assert!(Value::xstr("a").value_eq(&Value::Str("a".to_string())));
    assert!(Value::Str("a".to_string()).value_eq(&Value::xstr("a")));
    assert!(!Value::xstr("a").value_eq(&Value::xstr("b")));
    // number tags must match exactly
    assert!(!Value::Number(Number(N::PosInt(1)))
        .value_eq(&Value::Number(Number(N::Float("1".to_string())))));
}

#[test]
fn test_merge_rules() {
    // object + object unions, right biased
    let a = parse_json(r#"{"x": 1, "y": 1}"#).unwrap();
    let b = parse_json(r#"{"y": 2, "z": 2}"#).unwrap();
    let merged = a.merge(b).unwrap();
    let want = parse_json(r#"{"x": 1, "y": 2, "z": 2}"#).unwrap();
    assert!(merged.value_eq(&want));

    // array + array concatenates
    let a = parse_json("[1]").unwrap();
    let b = parse_json("[2]").unwrap();
    let want = parse_json("[1, 2]").unwrap();
    assert!(a.merge(b).unwrap().value_eq(&want));

    // array + non-array appends
    let a = parse_json("[1]").unwrap();
    let want = parse_json("[1, 2]").unwrap();
    assert!(a.merge(parse_json("2").unwrap()).unwrap().value_eq(&want));

    // non-array + array prepends
    let b = parse_json("[2]").unwrap();
    let want = parse_json("[1, 2]").unwrap();
    assert!(parse_json("1").unwrap().merge(b).unwrap().value_eq(&want));

    // null on either side yields the other side
    let v = parse_json("1").unwrap();
    assert!(Value::null().merge(v).unwrap().value_eq(&parse_json("1").unwrap()));
    let v = parse_json("1").unwrap();
    assert!(v.merge(Value::null()).unwrap().value_eq(&parse_json("1").unwrap()));

    // anything else is refused, naming both shapes
    let a = parse_json("1").unwrap();
    let b = parse_json("\"s\"").unwrap();
    match a.merge(b) {
        Err(Error::MergeError(msg)) => {
            assert_eq!(msg, "Cannot merge number with string");
        }
        other => panic!("expected MergeError, got {:?}", other),
    }
}

#[test]
fn test_merge_into_tree() {
    // merging {"a":1} into an existing {"b":2} yields both keys
    let parser = nested_params::QueryParser::new(None);
    let existing = parser.parse_nested_query(Some("b=2")).unwrap();
    let body = parse_json(r#"{"a": 1}"#).unwrap();
    let merged = body.merge_into(existing).unwrap();
    let got = Value::Object(merged);
    let want = parse_json(r#"{"a": 1, "b": "2"}"#).unwrap();
    assert!(got.value_eq(&want), "got {:?}", got);

    // merging an array into a tree is refused
    let existing = parser.parse_nested_query(Some("b=2")).unwrap();
    let body = parse_json("[1, 2]").unwrap();
    match body.merge_into(existing) {
        Err(Error::MergeError(msg)) => {
            assert_eq!(msg, "Cannot merge array with object");
        }
        other => panic!("expected MergeError, got {:?}", other),
    }
}

#[test]
fn test_loose_string_numeric_coercion() {
    // LooseString("42") into a numeric destination succeeds with 42
    let v = Value::xstr("42");
    assert_eq!(decode_u64(&v).unwrap(), 42);
    assert_eq!(decode_i64(&v).unwrap(), 42);
    assert_eq!(decode_u8(&v).unwrap(), 42);
    // and into a boolean destination it fails
    assert!(matches!(decode_bool(&v), Err(Error::DecodeError(_))));

    assert_eq!(decode_i64(&Value::xstr("-7")).unwrap(), -7);
    assert_eq!(decode_i8(&Value::xstr("-128")).unwrap(), -128);
    assert!(matches!(decode_i8(&Value::xstr("-129")), Err(Error::DecodeError(_))));
    assert!(matches!(decode_u8(&Value::xstr("256")), Err(Error::DecodeError(_))));
    assert!(matches!(decode_u64(&Value::xstr("4x")), Err(Error::DecodeError(_))));

    // a plain (non-loose) string is not coerced
    assert!(matches!(
        decode_u64(&Value::Str("42".to_string())),
        Err(Error::DecodeError(_))
    ));

    // a genuine number passes straight through
    assert_eq!(decode_u64(&Value::Number(Number(N::PosInt(7)))).unwrap(), 7);
    assert_eq!(decode_i64(&Value::Number(Number(N::NegInt(-7)))).unwrap(), -7);
    assert!(matches!(
        decode_u64(&Value::Number(Number(N::NegInt(-7)))),
        Err(Error::DecodeError(_))
    ));
}

#[test]
fn test_boolean_coercion_table() {
    for s in ["true", "1", "on", "yes", "TRUE", "On", "YES"] {
        assert_eq!(coerce_bool(s), Some(true), "{}", s);
        assert_eq!(decode_bool(&Value::xstr(s)).unwrap(), true);
    }
    for s in ["false", "0", "off", "no", "FALSE", "Off", "NO"] {
        assert_eq!(coerce_bool(s), Some(false), "{}", s);
        assert_eq!(decode_bool(&Value::xstr(s)).unwrap(), false);
    }
    assert_eq!(coerce_bool("maybe"), None);
    assert_eq!(coerce_bool(""), None);
    assert_eq!(decode_bool(&Value::Bool(true)).unwrap(), true);
    assert!(matches!(decode_bool(&Value::null()), Err(Error::DecodeError(_))));
}

#[test]
fn test_char_and_option_decoding() {
    assert_eq!(decode_char(&Value::xstr("x")).unwrap(), 'x');
    assert!(matches!(decode_char(&Value::xstr("xy")), Err(Error::DecodeError(_))));
    assert!(matches!(decode_char(&Value::xstr("")), Err(Error::DecodeError(_))));

    assert!(decode_option(&Value::null()).is_none());
    let v = Value::xstr("present");
    let inner = decode_option(&v).unwrap();
    assert_eq!(decode_string(inner).unwrap(), "present");
}

#[test]
fn test_upload_file_decoding() {
    let v = make_upload_value("photo.jpg", Some("image/jpeg"), "/tmp/u1");
    // capturing the whole handle reproduces all three fields
    let f = decode_upload_file(&v).unwrap();
    assert_eq!(f.name, "photo.jpg");
    assert_eq!(f.content_type, "image/jpeg");
    assert_eq!(f.temp_file_path, "/tmp/u1");

    // presented to a keyed destination, the handle is the three-field object
    let obj = upload_file_object(f);
    let entries = decode_object(&obj).unwrap();
    assert_eq!(
        decode_string(map_get(entries, "name").unwrap()).unwrap(),
        "photo.jpg"
    );
    assert_eq!(
        decode_string(map_get(entries, "content_type").unwrap()).unwrap(),
        "image/jpeg"
    );
    assert_eq!(
        decode_string(map_get(entries, "temp_file_path").unwrap()).unwrap(),
        "/tmp/u1"
    );

    // into a plain string destination it fails
    assert!(matches!(decode_string(&v), Err(Error::DecodeError(_))));

    // a missing content type defaults to the octet-stream type
    let v = make_upload_value("a.bin", None, "/tmp/u2");
    let f = decode_upload_file(&v).unwrap();
    assert_eq!(f.content_type, "application/octet-stream");

    // upload equality ignores the locator
    let a = UploadFile {
        name: "n".to_string(),
        content_type: "t".to_string(),
        temp_file_path: "p1".to_string(),
    };
    let b = UploadFile {
        name: "n".to_string(),
        content_type: "t".to_string(),
        temp_file_path: "p2".to_string(),
    };
    assert!(Value::UploadFile(a).value_eq(&Value::UploadFile(b)));
}

#[test]
fn test_shape_decoding() {
    let arr = parse_json("[1, 2]").unwrap();
    assert_eq!(decode_array(&arr).unwrap().len(), 2);
    assert!(matches!(decode_array(&Value::xstr("x")), Err(Error::DecodeError(_))));
    let obj = parse_json(r#"{"k": 1}"#).unwrap();
    assert_eq!(decode_object(&obj).unwrap().len(), 1);
    assert!(matches!(decode_object(&arr), Err(Error::DecodeError(_))));
}

#[test]
fn test_body_and_field_kinds() {
    assert!(matches!(body_kind("application/json"), BodyKind::Json));
    assert!(matches!(body_kind("application/json; charset=utf-8"), BodyKind::Json));
    assert!(matches!(
        body_kind("application/x-www-form-urlencoded"),
        BodyKind::FormUrlencoded
    ));
    assert!(matches!(
        body_kind("multipart/form-data; boundary=X-BOUNDARY"),
        BodyKind::Multipart
    ));
    assert!(matches!(body_kind("text/plain"), BodyKind::Other));

    assert!(matches!(field_kind("application/json", true), FieldKind::Json));
    assert!(matches!(field_kind("text/plain", true), FieldKind::File));
    assert!(matches!(field_kind("text/plain", false), FieldKind::Text));
}

#[test]
fn test_merge_json_body() {
    let parser = nested_params::QueryParser::new(None);
    let existing = parser.parse_nested_query(Some("b=2")).unwrap();
    let merged = merge_json_body(existing, r#"{"a": 1}"#).unwrap();
    let want = parse_json(r#"{"a": 1, "b": "2"}"#).unwrap();
    assert!(Value::Object(merged).value_eq(&want));

    let existing = parser.parse_nested_query(Some("b=2")).unwrap();
    assert!(matches!(
        merge_json_body(existing, "[1]"),
        Err(Error::MergeError(_))
    ));
    let existing = parser.parse_nested_query(Some("b=2")).unwrap();
    assert!(matches!(
        merge_json_body(existing, "{bad"),
        Err(Error::DecodeError(_))
    ));
}

#[test]
fn test_value_constructors() {
    assert!(matches!(Value::null(), Value::Null));
    assert!(matches!(Value::bool(true), Value::Bool(true)));
    assert!(matches!(Value::xstr_opt(Some("v")), Value::XStr(s) if s == "v"));
    assert!(matches!(Value::xstr_opt(None), Value::Null));
    assert!(matches!(Value::number(7u64), Value::Number(Number(N::PosInt(7)))));
    assert!(matches!(Value::number(-7i64), Value::Number(Number(N::NegInt(-7)))));
    assert!(matches!(Value::number(7i64), Value::Number(Number(N::PosInt(7)))));
    let arr = Value::array(vec![Value::null()]);
    assert!(matches!(&arr, Value::Array(items) if items.len() == 1));
    let obj = Value::object(vec![("k".to_string(), Value::null())]);
    assert!(matches!(&obj, Value::Object(entries) if entries.len() == 1));
    assert_eq!(obj.shape_name(), "object");
    assert_eq!(Value::null().shape_name(), "null");
    assert_eq!(Value::xstr("x").shape_name(), "string");
}

#[test]
fn test_value_clone_is_same_tree() {
    let v = parse_json(r#"{"a": [1, {"b": "x"}], "c": null}"#).unwrap();
    let w = v.clone();
    assert!(v.value_eq(&w));
}

#[test]
fn test_integer_width_decoding() {
    assert_eq!(decode_u32(&Value::xstr("70000")).unwrap(), 70000);
    assert!(matches!(decode_u16(&Value::xstr("70000")), Err(Error::DecodeError(_))));
    assert_eq!(decode_u16(&Value::xstr("+65535")).unwrap(), 65535);
    assert_eq!(decode_i32(&Value::xstr("-40000")).unwrap(), -40000);
    assert!(matches!(decode_i16(&Value::xstr("-40000")), Err(Error::DecodeError(_))));
    let big = Value::Number(Number(N::PosInt(1 << 40)));
    assert!(matches!(decode_u32(&big), Err(Error::DecodeError(_))));
}

#[test]
fn test_fold_json_field() {
    let parser = nested_params::QueryParser::new(None);

    // a field without a name merges the object wholesale
    let tree = parser.parse_nested_query(Some("b=2")).unwrap();
    let tree = fold_json_field(&parser, tree, "", r#"{"a": 1}"#).unwrap();
    let want = parse_json(r#"{"a": 1, "b": "2"}"#).unwrap();
    assert!(Value::Object(tree).value_eq(&want));

    // a named field threads the parsed value in under its bracketed name
    let tree = Vec::new();
    let tree = fold_json_field(&parser, tree, "meta[info]", r#"{"v": 2}"#).unwrap();
    let want = parse_json(r#"{"meta": {"info": {"v": 2}}}"#).unwrap();
    assert!(Value::Object(tree).value_eq(&want));

    // an unnamed non-object is refused
    let tree = Vec::new();
    assert!(matches!(
        fold_json_field(&parser, tree, "", "[1]"),
        Err(Error::MergeError(_))
    ));
}
