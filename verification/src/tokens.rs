use vstd::prelude::*;

use crate::number::{number_debug_text, Number};
use crate::text::push_char;

verus! {

/// A token of JSON text.
#[derive(Debug, PartialEq, Clone)]
pub enum Token {
    RightBrace,
    LeftBrace,
    RightParen,
    LeftParen,
    Comma,
    Collon,
    Number(Number),
    String(String),
    Boolean(bool),
    Null,
    Eof,
}

/// The mathematical content of a token.
pub enum TokenView {
    RightBrace,
    LeftBrace,
    RightParen,
    LeftParen,
    Comma,
    Collon,
    Number(Seq<char>),
    String(Seq<char>),
    Boolean(bool),
    Null,
    Eof,
}

impl View for Token {
    type V = TokenView;

    open spec fn view(&self) -> TokenView {
        match self {
            Token::RightBrace => TokenView::RightBrace,
            Token::LeftBrace => TokenView::LeftBrace,
            Token::RightParen => TokenView::RightParen,
            Token::LeftParen => TokenView::LeftParen,
            Token::Comma => TokenView::Comma,
            Token::Collon => TokenView::Collon,
            Token::Number(n) => TokenView::Number(n@),
            Token::String(s) => TokenView::String(s@),
            Token::Boolean(b) => TokenView::Boolean(*b),
            Token::Null => TokenView::Null,
            Token::Eof => TokenView::Eof,
        }
    }
}

/// What `{:?}` writes for a string: the text between double quotes, escaped.
pub uninterp spec fn str_debug_text(s: Seq<char>) -> Seq<char>;

/// Calls the `Debug` formatting of `str` (`format!("{:?}", s)`). What it
/// writes (quotes, escapes of quotes, backslashes, control and non-printable
/// characters) is left under the name `str_debug_text`.
#[verifier::external_body]
pub(crate) fn str_debug(s: &str) -> (r: String)
    ensures
        r@ == str_debug_text(s@),
{
    format!("{:?}", s)
}

pub open spec fn bool_text(b: bool) -> Seq<char> {
    if b {
        "true"@
    } else {
        "false"@
    }
}

/// How a token prints with `{:?}`.
pub open spec fn token_debug_text(t: TokenView) -> Seq<char> {
    match t {
        TokenView::RightBrace => "RightBrace"@,
        TokenView::LeftBrace => "LeftBrace"@,
        TokenView::RightParen => "RightParen"@,
        TokenView::LeftParen => "LeftParen"@,
        TokenView::Comma => "Comma"@,
        TokenView::Collon => "Collon"@,
        TokenView::Number(n) => "Number("@ + number_debug_text(n) + ")"@,
        TokenView::String(s) => "String("@ + str_debug_text(s) + ")"@,
        TokenView::Boolean(b) => "Boolean("@ + bool_text(b) + ")"@,
        TokenView::Null => "Null"@,
        TokenView::Eof => "Eof"@,
    }
}

pub fn bool_to_text(b: bool) -> (r: String)
    ensures
        r@ == bool_text(b),
{
    if b {
        String::from_str("true")
    } else {
        String::from_str("false")
    }
}

impl Number {
    /// Whether two numbers are equal.
    pub fn same(&self, other: &Number) -> (r: bool)
        ensures
            r == (self@ == other@),
    {
        let a = self.to_text();
        let b = other.to_text();
        a == b
    }
}

impl Token {
    /// Whether two tokens are equal.
    pub fn same(&self, other: &Token) -> (r: bool)
        ensures
            r == (self@ == other@),
    {
        match self {
            Token::RightBrace => match other { Token::RightBrace => true, _ => false },
            Token::LeftBrace => match other { Token::LeftBrace => true, _ => false },
            Token::RightParen => match other { Token::RightParen => true, _ => false },
            Token::LeftParen => match other { Token::LeftParen => true, _ => false },
            Token::Comma => match other { Token::Comma => true, _ => false },
            Token::Collon => match other { Token::Collon => true, _ => false },
            Token::Number(a) => match other {
                Token::Number(b) => a.same(b),
                _ => false,
            },
            Token::String(a) => match other {
                Token::String(b) => *a == *b,
                _ => false,
            },
            Token::Boolean(a) => match other {
                Token::Boolean(b) => *a == *b,
                _ => false,
            },
            Token::Null => match other { Token::Null => true, _ => false },
            Token::Eof => match other { Token::Eof => true, _ => false },
        }
    }

    /// A copy of the token.
    pub fn duplicate(&self) -> (r: Token)
        ensures
            r@ == self@,
    {
        match self {
            Token::RightBrace => Token::RightBrace,
            Token::LeftBrace => Token::LeftBrace,
            Token::RightParen => Token::RightParen,
            Token::LeftParen => Token::LeftParen,
            Token::Comma => Token::Comma,
            Token::Collon => Token::Collon,
            Token::Number(n) => Token::Number(n.duplicate()),
            Token::String(s) => Token::String(s.clone()),
            Token::Boolean(b) => Token::Boolean(*b),
            Token::Null => Token::Null,
            Token::Eof => Token::Eof,
        }
    }

    /// The `{:?}` writing of the token.
    pub fn debug_text(&self) -> (r: String)
        ensures
            r@ == token_debug_text(self@),
    {
        match self {
            Token::RightBrace => String::from_str("RightBrace"),
            Token::LeftBrace => String::from_str("LeftBrace"),
            Token::RightParen => String::from_str("RightParen"),
            Token::LeftParen => String::from_str("LeftParen"),
            Token::Comma => String::from_str("Comma"),
            Token::Collon => String::from_str("Collon"),
            Token::Number(n) => {
                let mut r = String::from_str("Number(");
                let t = n.debug_text();
                r.append(t.as_str());
                r.append(")");
                r
            },
            Token::String(s) => {
                let mut r = String::from_str("String(");
                let t = str_debug(s.as_str());
                r.append(t.as_str());
                r.append(")");
                r
            },
            Token::Boolean(b) => {
                let mut r = String::from_str("Boolean(");
                let t = bool_to_text(*b);
                r.append(t.as_str());
                r.append(")");
                r
            },
            Token::Null => String::from_str("Null"),
            Token::Eof => String::from_str("Eof"),
        }
    }
}

} // verus!
