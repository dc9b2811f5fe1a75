use json_parser::error::Error;
use json_parser::lexer::Lexer;
use json_parser::number::Number;
use json_parser::parser::Parser;
use json_parser::tokens::Token;
use json_parser::value::{Object, Value};

#[test]
fn test_parse_simple_object() {
    let input = r#"{"key": "value", "number": 42, "bool": true, "null_value": null}"#;
    let lexer = Lexer::new(input.to_string());
    let mut parser = Parser::new(lexer).unwrap();
    let parsed = parser.json().unwrap();

    let mut expected_map = Object::new();
    expected_map.insert("key".to_string(), Value::String("value".to_string()));
    expected_map.insert("number".to_string(), Value::Number(Number::from_u64(42)));
    expected_map.insert("bool".to_string(), Value::Bool(true));
    expected_map.insert("null_value".to_string(), Value::Null);

    assert_eq!(parsed, Value::Object(expected_map));
}

#[test]
fn test_parse_array() {
    let input = r#"["item1", 2, false, null]"#;
    let lexer = Lexer::new(input.to_string());
    let mut parser = Parser::new(lexer).unwrap();
    let parsed = parser.json().unwrap();

    let expected_array = vec![
        Value::String("item1".to_string()),
        Value::Number(Number::from_u64(2)),
        Value::Bool(false),
        Value::Null,
    ];

    assert_eq!(parsed, Value::Array(expected_array));
}

#[test]
fn test_empty() {
    let input = r#""#;
    let lexer = Lexer::new(input.to_string());
    let mut parser = Parser::new(lexer).unwrap();
    let parsed = parser.json().unwrap();

    assert_eq!(parsed, Value::Null);
}

#[test]
fn test_nested_structure() {
    let input = r#"{
            "person": {
                "name": "Alice",
                "age": 30,
                "is_student": false,
                "courses": ["Math", "Science"],
                "address": {
                    "street": "123 Main St",
                    "city": "Anytown"
                }
            }
        }"#;
    let lexer = Lexer::new(input.to_string());
    let mut parser = Parser::new(lexer).unwrap();
    let parsed = parser.json().unwrap();

    let mut address_map = Object::new();
    address_map.insert(
        "street".to_string(),
        Value::String("123 Main St".to_string()),
    );
    address_map.insert("city".to_string(), Value::String("Anytown".to_string()));

    let mut person_map = Object::new();
    person_map.insert("name".to_string(), Value::String("Alice".to_string()));
    person_map.insert("age".to_string(), Value::Number(Number::from_u64(30)));
    person_map.insert("is_student".to_string(), Value::Bool(false));
    person_map.insert(
        "courses".to_string(),
        Value::Array(vec![
            Value::String("Math".to_string()),
            Value::String("Science".to_string()),
        ]),
    );
    person_map.insert("address".to_string(), Value::Object(address_map));

    let mut expected_map = Object::new();
    expected_map.insert("person".to_string(), Value::Object(person_map));

    assert_eq!(parsed, Value::Object(expected_map));
}

#[test]
fn test_trainling_comma_in_object() {
    let input = r#"{"key1": "value1", "key2": "value2",}"#;
    let lexer = Lexer::new(input.to_string());
    let mut parser = Parser::new(lexer).unwrap();
    let result = parser.json();

    assert!(result.is_err());
    if let Err(Error::ParserError { msg, token }) = result {
        assert_eq!(msg, "Trailing comma in object");
        assert_eq!(token, Token::RightBrace);
    } else {
        panic!("Expected ParserError");
    }
}

#[test]
fn test_trailing_comma_in_array() {
    let input = r#"["item1", "item2",]"#;
    let lexer = Lexer::new(input.to_string());
    let mut parser = Parser::new(lexer).unwrap();
    let result = parser.json();

    assert!(result.is_err());
    if let Err(Error::ParserError { msg, token }) = result {
        assert_eq!(msg, "Trailing comma in array");
        assert_eq!(token, Token::RightParen);
    } else {
        panic!("Expected ParserError");
    }
}

#[test]
fn test_unclosed_object() {
    let input = r#"{"key": "value""#;
    let lexer = Lexer::new(input.to_string());
    let mut parser = Parser::new(lexer).unwrap();
    let result = parser.json();

    assert!(result.is_err());
    if let Err(Error::ParserError { msg, token }) = result {
        assert_eq!(msg, "Expected RightBrace");
        assert_eq!(token, Token::Eof);
    } else {
        panic!("Expected ParserError");
    }
}

#[test]
fn test_unclosed_array() {
    let input = r#"["item1", "item2""#;
    let lexer = Lexer::new(input.to_string());
    let mut parser = Parser::new(lexer).unwrap();
    let result = parser.json();

    assert!(result.is_err());
    if let Err(Error::ParserError { msg, token }) = result {
        assert_eq!(msg, "Expected RightParen");
        assert_eq!(token, Token::Eof);
    } else {
        panic!("Expected ParserError");
    }
}
