use json_parser::dumper::{nesting_depth, Dumper};
use json_parser::number::Number;
use json_parser::value::Object;
use json_parser::{dump_json, parse_json, Value};

#[test]
fn test_parse_and_dump() {
    let input = r#"{
            "name": "Alice",
            "age": 25,
            "is_student": true,
            "courses": ["Math", "Science"],
            "address": null
        }"#;

    let parsed = parse_json(input).unwrap();
    let dumped = dump_json(&parsed, 4);
    let reparsed = parse_json(&dumped).unwrap();

    assert_eq!(parsed, reparsed);
}

#[test]
fn test_invalid_json() {
    let input = r#"{
            "name": "Alice",
            "age": 25,
            "is_student": true,
            "courses": ["Math", "Science",
            "address": null
        }"#;

    let result = parse_json(input);
    assert!(result.is_err());
}

#[test]
fn test_empty_json() {
    let input = r#""#;

    let result = parse_json(input).unwrap();
    assert_eq!(result, Value::Null);
}

#[test]
fn simple_json() {
    let input = "{\"key\": \"value\"}";
    let parsed = parse_json(input).unwrap();
    let mut expected = Object::new();
    expected.insert("key".to_string(), Value::String("value".to_string()));
    assert_eq!(parsed, Value::Object(expected));
}

#[test]
fn dump_nested_exact_text() {
    let parsed = parse_json(r#"{"b": [1, true], "a": {}, "c": []}"#).unwrap();
    let dumped = dump_json(&parsed, 2);
    assert_eq!(
        dumped,
        "{\n  \"a\": {\n  },\n  \"b\": [\n    1,\n    true\n  ],\n  \"c\": [\n  ]\n}"
    );
}

#[test]
fn dump_leaves() {
    assert_eq!(dump_json(&Value::Null, 4), "null");
    assert_eq!(dump_json(&Value::Bool(false), 4), "false");
    assert_eq!(dump_json(&Value::String("hi there".to_string()), 4), "\"hi there\"");
    assert_eq!(dump_json(&Value::Number(Number::from_u64(1234567)), 4), "1234567");
}

#[test]
fn numbers_are_kept_in_canonical_writing() {
    let parsed = parse_json("[25.0, 007.500, 0.25, 3., 0, 0.0]").unwrap();
    let dumped = dump_json(&parsed, 0);
    assert_eq!(dumped, "[\n25,\n7.5,\n0.25,\n3,\n0,\n0\n]");
    assert_eq!(parse_json("25.0").unwrap(), Value::Number(Number::from_u64(25)));
}

#[test]
fn later_duplicate_key_wins() {
    let parsed = parse_json(r#"{"k": 1, "j": 2, "k": 3}"#).unwrap();
    let mut expected = Object::new();
    expected.insert("j".to_string(), Value::Number(Number::from_u64(2)));
    expected.insert("k".to_string(), Value::Number(Number::from_u64(3)));
    assert_eq!(parsed, Value::Object(expected));
}

#[test]
fn object_insert_order_does_not_matter() {
    let mut a = Object::new();
    a.insert("x".to_string(), Value::Null);
    a.insert("ab".to_string(), Value::Bool(true));
    a.insert("a".to_string(), Value::Bool(false));
    let mut b = Object::new();
    b.insert("a".to_string(), Value::Bool(false));
    b.insert("x".to_string(), Value::Null);
    b.insert("ab".to_string(), Value::Bool(true));
    assert_eq!(a, b);
    assert_eq!(a.len(), 3);
    assert_eq!(a.key(0), "a");
    assert_eq!(a.key(1), "ab");
    assert_eq!(a.key(2), "x");
}

#[test]
fn roundtrip_of_nested_value() {
    let mut inner = Object::new();
    inner.insert("z".to_string(), Value::Array(vec![]));
    inner.insert("y".to_string(), Value::Number(Number::from_u64(0)));
    let value = Value::Array(vec![
        Value::Object(inner),
        Value::Null,
        Value::String("".to_string()),
        Value::Array(vec![Value::Bool(true), Value::Bool(false)]),
    ]);
    for indent in 0..4 {
        let text = dump_json(&value, indent);
        assert_eq!(parse_json(&text).unwrap(), value);
    }
}

#[test]
fn whitespace_only_is_null() {
    assert_eq!(parse_json(" \n\t ").unwrap(), Value::Null);
}

#[test]
fn clone_gives_an_equal_value() {
    let parsed = parse_json(r#"{"a": [1, 2.5, {"b": null}], "c": "d"}"#).unwrap();
    let copy = parsed.clone();
    assert_eq!(copy, parsed);
    assert_eq!(dump_json(&copy, 3), dump_json(&parsed, 3));
}

#[test]
fn lookup_after_insert() {
    let mut o = Object::new();
    o.insert("k".to_string(), Value::Null);
    o.insert("k".to_string(), Value::Bool(true));
    o.insert("a".to_string(), Value::Bool(false));
    assert_eq!(o.len(), 2);
    assert_eq!(o.key(1), "k");
    assert_eq!(*o.value(1), Value::Bool(true));
}

#[test]
fn nesting_depth_counts_non_empty_containers() {
    assert_eq!(nesting_depth(&Value::Null), Some(0));
    assert_eq!(nesting_depth(&parse_json("[]").unwrap()), Some(0));
    assert_eq!(nesting_depth(&parse_json("[1]").unwrap()), Some(1));
    assert_eq!(nesting_depth(&parse_json("[[1], [], {\"a\": {\"b\": [true]}}]").unwrap()), Some(4));
}

#[test]
fn dump_fits_only_when_the_indentation_fits() {
    let v = parse_json("[[1], []]").unwrap();
    assert!(Dumper { indent: 4 }.fits(&v));
    assert!(Dumper { indent: usize::MAX / 2 }.fits(&v));
    assert!(!Dumper { indent: usize::MAX / 2 + 1 }.fits(&v));
    assert!(Dumper { indent: usize::MAX }.fits(&Value::Null));
    assert!(Dumper { indent: usize::MAX }.fits(&parse_json("{}").unwrap()));
}
