use json_parser::error::Error;
use json_parser::lexer::Lexer;
use json_parser::number::Number;
use json_parser::tokens::Token;

#[test]
fn test_lexer_tokens() {
    let input = r#"{
            "name": "Alice",
            "age": 25,
            "is_student": true,
            "courses": ["Math", "Science"],
            "address": null
        }"#;

    let mut lexer = Lexer::new(input.to_string());
    let expected_tokens = vec![
        Token::LeftBrace,
        Token::String("name".to_string()),
        Token::Collon,
        Token::String("Alice".to_string()),
        Token::Comma,
        Token::String("age".to_string()),
        Token::Collon,
        Token::Number(Number::from_u64(25)),
        Token::Comma,
        Token::String("is_student".to_string()),
        Token::Collon,
        Token::Boolean(true),
        Token::Comma,
        Token::String("courses".to_string()),
        Token::Collon,
        Token::LeftParen,
        Token::String("Math".to_string()),
        Token::Comma,
        Token::String("Science".to_string()),
        Token::RightParen,
        Token::Comma,
        Token::String("address".to_string()),
        Token::Collon,
        Token::Null,
        Token::RightBrace,
        Token::Eof,
    ];

    for expected in expected_tokens {
        let token = lexer.next_token().unwrap();
        assert_eq!(token, expected);
    }
}

#[test]
fn test_lexer_unexpected_character() {
    let input = r#"{"key": @value}"#;
    let mut lexer = Lexer::new(input.to_string());

    // Consume tokens until the unexpected character
    lexer.next_token().unwrap(); // {
    lexer.next_token().unwrap(); // "key"
    lexer.next_token().unwrap(); // :

    let result = lexer.next_token();
    assert!(result.is_err());
    if let Err(Error::LexerError { msg, position }) = result {
        assert_eq!(msg, "Unexpected character Some('@')");
        assert_eq!(position, 9); // position of '@'
    }
}
