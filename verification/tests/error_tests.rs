use json_parser::error::Error;
use json_parser::lexer::Lexer;
use json_parser::number::Number;
use json_parser::panics::lexes_without_panic;
use json_parser::parse_json;
use json_parser::parser::Parser;
use json_parser::tokens::Token;

fn parser_error(input: &str) -> (String, Token) {
    match parse_json(input) {
        Err(Error::ParserError { msg, token }) => (msg, token),
        other => panic!("expected a parser error, got {:?}", other),
    }
}

#[test]
fn missing_colon() {
    let (msg, token) = parser_error(r#"{"a" "b"}"#);
    assert_eq!(msg, "Expected Collon");
    assert_eq!(token, Token::String("b".to_string()));
}

#[test]
fn unexpected_token_in_value() {
    let (msg, token) = parser_error("[,]");
    assert_eq!(msg, "Unexpected token in value: Comma");
    assert_eq!(token, Token::Comma);
}

#[test]
fn object_key_must_be_a_string() {
    let (msg, token) = parser_error("{1: 2}");
    assert_eq!(msg, "Expected string as object key, got Number(1.0)");
    assert_eq!(token, Token::Number(Number::from_u64(1)));
}

#[test]
fn value_after_the_end() {
    let (msg, token) = parser_error("1 2");
    assert_eq!(msg, "Expected Eof");
    assert_eq!(token, Token::Number(Number::from_u64(2)));
}

#[test]
fn unknown_identifier() {
    match parse_json("[truth]") {
        Err(Error::LexerError { msg, position }) => {
            assert_eq!(msg, "Unknown identifier: truth");
            assert_eq!(position, 6);
        },
        other => panic!("expected a lexer error, got {:?}", other),
    }
}

#[test]
fn lexer_error_in_first_token() {
    match Parser::new(Lexer::new("  #".to_string())) {
        Err(Error::LexerError { msg, position }) => {
            assert_eq!(msg, "Unexpected character Some('#')");
            assert_eq!(position, 3);
        },
        _ => panic!("expected a lexer error"),
    }
}

#[test]
fn error_display_text() {
    let e = Error::LexerError { msg: "boom".to_string(), position: 12 };
    assert_eq!(e.to_string(), "Lexer Error at position 12: boom");
    let e = Error::ParserError { msg: "Expected Collon".to_string(), token: Token::String("b\"c".to_string()) };
    assert_eq!(e.to_string(), "Parser Error at token String(\"b\\\"c\"): Expected Collon");
    let e = Error::ParserError { msg: "m".to_string(), token: Token::Number(Number::from_u64(25)) };
    assert_eq!(e.to_string(), "Parser Error at token Number(25.0): m");
    let e = Error::ParserError { msg: "m".to_string(), token: Token::Boolean(true) };
    assert_eq!(e.to_string(), "Parser Error at token Boolean(true): m");
}

#[test]
fn token_debug_text() {
    assert_eq!(Token::Eof.debug_text(), format!("{:?}", Token::Eof));
    assert_eq!(Token::Collon.debug_text(), "Collon");
    let mut lexer = Lexer::new("3.25".to_string());
    let t = lexer.next_token().unwrap();
    assert_eq!(t.debug_text(), "Number(3.25)");
}

#[test]
fn peek_and_advance() {
    let mut lexer = Lexer::new("ab".to_string());
    assert_eq!(lexer.peek(), Some('a'));
    assert_eq!(lexer.posistion, 0);
    assert_eq!(lexer.advance(), Some('a'));
    assert_eq!(lexer.posistion, 1);
    assert_eq!(lexer.advance(), Some('b'));
    assert_eq!(lexer.advance(), None);
    assert_eq!(lexer.posistion, 2);
    assert_eq!(lexer.peek(), None);
}

#[test]
fn string_without_closing_quote_runs_to_the_end() {
    let mut lexer = Lexer::new("\"abc".to_string());
    assert_eq!(lexer.next_token().unwrap(), Token::String("abc".to_string()));
    assert_eq!(lexer.posistion, 4);
    assert_eq!(lexer.next_token().unwrap(), Token::Eof);
}

#[test]
fn non_ascii_text() {
    let mut lexer = Lexer::new(" \u{3000}\"héllo wörld\" ".to_string());
    assert_eq!(lexer.next_token().unwrap(), Token::String("héllo wörld".to_string()));
    assert_eq!(lexer.posistion, 15);
}

#[test]
fn each_token_moves_the_lexer_forward() {
    let mut lexer = Lexer::new("  [ 12.50 ,\n\"x\" ] ".to_string());
    let mut last = lexer.posistion;
    loop {
        let t = lexer.next_token().unwrap();
        if t == Token::Eof {
            break;
        }
        assert!(lexer.posistion > last);
        last = lexer.posistion;
    }
    assert_eq!(lexer.posistion, 18);
    assert_eq!(lexer.next_token().unwrap(), Token::Eof);
    assert_eq!(lexer.posistion, 18);
}

#[test]
fn malformed_numbers_are_detected() {
    assert!(lexes_without_panic("[1.5, 2, 30.]"));
    assert!(!lexes_without_panic("[1.2.3]"));
    assert!(!lexes_without_panic("[-5]"));
    assert!(lexes_without_panic("[- 5]"));
    assert!(lexes_without_panic("\"1.2.3\" @ 1.2.3"));
    let lexer = Lexer::new("  1..2".to_string());
    assert!(lexer.next_token_would_panic());
    let lexer = Lexer::new("  12".to_string());
    assert!(!lexer.next_token_would_panic());
}

#[test]
fn errors_also_move_the_lexer_forward() {
    let mut lexer = Lexer::new("  @".to_string());
    assert!(lexer.next_token().is_err());
    assert_eq!(lexer.posistion, 3);
    let mut lexer = Lexer::new("nul".to_string());
    assert!(lexer.next_token().is_err());
    assert_eq!(lexer.posistion, 3);
}

#[test]
fn second_json_call_gives_null() {
    let mut parser = Parser::new(Lexer::new("[1, 2]".to_string())).unwrap();
    assert!(parser.json().is_ok());
    assert_eq!(parser.json().unwrap(), json_parser::Value::Null);
}

#[test]
fn whitespace_between_tokens_changes_nothing() {
    let a = parse_json("{\"k\":[1,true]}").unwrap();
    let b = parse_json(" \t{ \"k\" :\n[ 1 , true ] } \r\n").unwrap();
    assert_eq!(a, b);
    match (parse_json("[1,#]"), parse_json("[1,   #]")) {
        (Err(Error::LexerError { msg: m1, position: p1 }), Err(Error::LexerError { msg: m2, position: p2 })) => {
            assert_eq!(m1, m2);
            assert_eq!(p2, p1 + 3);
        },
        _ => panic!("expected lexer errors"),
    }
}

#[test]
fn unicode_whitespace_between_tokens_changes_nothing() {
    let a = parse_json("[1,true,null]").unwrap();
    let b = parse_json("\u{a0}[1\u{2028},\u{3000}true\u{85}, null]\u{2003}").unwrap();
    assert_eq!(a, b);
}

#[test]
fn whitespace_after_a_lexer_error_changes_nothing() {
    match (parse_json("[1,#]"), parse_json("[1,#  \u{3000}]")) {
        (Err(Error::LexerError { msg: m1, position: p1 }), Err(Error::LexerError { msg: m2, position: p2 })) => {
            assert_eq!(m1, m2);
            assert_eq!(p1, 4);
            assert_eq!(p2, 4);
        },
        _ => panic!("expected lexer errors"),
    }
    match (parse_json("[nul]"), parse_json("[nul\u{2029}]")) {
        (Err(Error::LexerError { msg: m1, position: p1 }), Err(Error::LexerError { msg: m2, position: p2 })) => {
            assert_eq!(m1, "Unknown identifier: nul");
            assert_eq!(m2, m1);
            assert_eq!(p2, p1);
        },
        _ => panic!("expected lexer errors"),
    }
}

#[test]
fn large_and_small_numbers_print_in_exponent_form() {
    let cases = [
        ("{10000000000000000: 1}", "Number(1e16)"),
        ("{15000000000000000: 1}", "Number(1.5e16)"),
        ("{123000000000000000000: 1}", "Number(1.23e20)"),
        ("{1000000000000000: 1}", "Number(1000000000000000.0)"),
        ("{0.00001: 1}", "Number(1e-5)"),
        ("{0.000015: 1}", "Number(1.5e-5)"),
        ("{0.0001: 1}", "Number(0.0001)"),
        ("{0.5: 1}", "Number(0.5)"),
        ("{0: 1}", "Number(0.0)"),
    ];
    for (input, shown) in cases {
        let (msg, _) = parser_error(input);
        assert_eq!(msg, format!("Expected string as object key, got {}", shown));
    }
}

#[test]
fn number_debug_text_agrees_with_f64() {
    for text in ["1e16", "2.5e17", "0.00002", "0.001", "123.25", "7"] {
        let f: f64 = text.parse().unwrap();
        let (msg, _) = parser_error(&format!("{{{}: 1}}", f));
        assert_eq!(msg, format!("Expected string as object key, got Number({:?})", f));
    }
}

#[test]
fn json_can_be_called_again_after_an_error() {
    let mut parser = Parser::new(Lexer::new("[1 2] 3".to_string())).unwrap();
    match parser.json() {
        Err(Error::ParserError { msg, token }) => {
            assert_eq!(msg, "Expected RightParen");
            assert_eq!(token, Token::Number(Number::from_u64(2)));
        },
        other => panic!("expected a parser error, got {:?}", other),
    }
    match parser.json() {
        Err(Error::ParserError { msg, token }) => {
            assert_eq!(msg, "Expected Eof");
            assert_eq!(token, Token::RightParen);
        },
        other => panic!("expected a parser error, got {:?}", other),
    }
}
