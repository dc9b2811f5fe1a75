use vstd::prelude::*;

use crate::text::{decimal_text, push_decimal};
use crate::tokens::{token_debug_text, Token, TokenView};

verus! {

/// An error of the lexer or of the parser.
#[derive(Debug, Clone)]
pub enum Error {
    LexerError { msg: String, position: usize },
    ParserError { msg: String, token: Token },
}

/// The mathematical content of an error.
pub enum ErrorView {
    LexerError { msg: Seq<char>, position: nat },
    ParserError { msg: Seq<char>, token: TokenView },
}

impl View for Error {
    type V = ErrorView;

    open spec fn view(&self) -> ErrorView {
        match self {
            Error::LexerError { msg, position } => ErrorView::LexerError {
                msg: msg@,
                position: *position as nat,
            },
            Error::ParserError { msg, token } => ErrorView::ParserError {
                msg: msg@,
                token: token@,
            },
        }
    }
}

/// How an error is displayed.
pub open spec fn error_display_text(e: ErrorView) -> Seq<char> {
    match e {
        ErrorView::LexerError { msg, position } => "Lexer Error at position "@ + decimal_text(
            position,
        ) + ": "@ + msg,
        ErrorView::ParserError { msg, token } => "Parser Error at token "@ + token_debug_text(
            token,
        ) + ": "@ + msg,
    }
}

impl Error {
    /// The displayed text of the error.
    pub fn to_string(&self) -> (r: String)
        ensures
            r@ == error_display_text(self@),
    {
        match self {
            Error::LexerError { msg, position } => {
                let mut r = String::from_str("Lexer Error at position ");
                push_decimal(&mut r, *position as u64);
                r.append(": ");
                r.append(msg.as_str());
                r
            },
            Error::ParserError { msg, token } => {
                let mut r = String::from_str("Parser Error at token ");
                let t = token.debug_text();
                r.append(t.as_str());
                r.append(": ");
                r.append(msg.as_str());
                r
            },
        }
    }
}

} // verus!
