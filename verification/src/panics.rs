use vstd::prelude::*;

use crate::lexer::{lex_stream, Lexer, TokenStream};
use crate::parser::{
    eat, spec_array, spec_array_rest, spec_object, spec_object_rest, spec_parse_json,
    spec_property, spec_value, tok_at, Outcome,
};
use crate::tokens::{Token, TokenView};
use crate::value::{obj_insert, JsonView};

verus! {

/// What a parsing step needs of a stream, and how far it goes: a panic comes
/// only from the lexer, and a value read from index `i` ends after `i`, at
/// most one past the last token.
proof fn lemma_value_panics(st: TokenStream, i: int)
    requires
        0 <= i,
    ensures
        spec_value(st, i) is Panic ==> st.end is Panic,
        spec_value(st, i) matches Outcome::Done((_, j)) ==> i < j <= st.toks.len(),
    decreases st.toks.len() - i, 2int,
{
    match tok_at(st, i) {
        Some(TokenView::LeftBrace) => lemma_object_panics(st, i),
        Some(TokenView::LeftParen) => lemma_array_panics(st, i),
        _ => {},
    }
}

proof fn lemma_object_panics(st: TokenStream, i: int)
    requires
        0 <= i,
    ensures
        spec_object(st, i) is Panic ==> st.end is Panic,
        spec_object(st, i) matches Outcome::Done((_, j)) ==> i < j <= st.toks.len(),
    decreases st.toks.len() - i, 1int,
{
    if let Outcome::Done(i1) = eat(st, i, TokenView::LeftBrace) {
        if tok_at(st, i1) != Some(TokenView::RightBrace) {
            lemma_property_panics(st, i1);
            if let Outcome::Done((k, v, i2)) = spec_property(st, i1) {
                lemma_object_rest_panics(st, i2, obj_insert(seq![], k, v));
            }
        }
    }
}

proof fn lemma_object_rest_panics(st: TokenStream, i: int, es: Seq<(Seq<char>, JsonView)>)
    requires
        0 <= i,
    ensures
        spec_object_rest(st, i, es) is Panic ==> st.end is Panic,
        spec_object_rest(st, i, es) matches Outcome::Done((_, j)) ==> i < j <= st.toks.len(),
    decreases st.toks.len() - i, 0int,
{
    if tok_at(st, i) == Some(TokenView::Comma) {
        match eat(st, i, TokenView::Comma) {
            Outcome::Done(i1) => {
                if tok_at(st, i1) != Some(TokenView::RightBrace) {
                    lemma_property_panics(st, i1);
                    match spec_property(st, i1) {
                        Outcome::Done((k, v, i2)) => {
                            lemma_object_rest_panics(st, i2, obj_insert(es, k, v));
                            assert(spec_object_rest(st, i, es) == spec_object_rest(st, i2, obj_insert(es, k, v)));
                        },
                        _ => {
                            assert(spec_object_rest(st, i, es) is Panic ==> st.end is Panic);
                        },
                    }
                } else {
                    assert(spec_object_rest(st, i, es) is Fail);
                }
            },
            _ => {
                assert(spec_object_rest(st, i, es) is Panic ==> st.end is Panic);
            },
        }
    } else {
        assert(spec_object_rest(st, i, es) is Panic ==> st.end is Panic);
    }
}

proof fn lemma_property_panics(st: TokenStream, i: int)
    requires
        0 <= i,
    ensures
        spec_property(st, i) is Panic ==> st.end is Panic,
        spec_property(st, i) matches Outcome::Done((_, _, j)) ==> i < j <= st.toks.len(),
    decreases st.toks.len() - i, 0int,
{
    if let Some(TokenView::String(k)) = tok_at(st, i) {
        if let Outcome::Done(i1) = eat(st, i, TokenView::String(k)) {
            if let Outcome::Done(i2) = eat(st, i1, TokenView::Collon) {
                lemma_value_panics(st, i2);
            }
        }
    }
}

proof fn lemma_array_panics(st: TokenStream, i: int)
    requires
        0 <= i,
    ensures
        spec_array(st, i) is Panic ==> st.end is Panic,
        spec_array(st, i) matches Outcome::Done((_, j)) ==> i < j <= st.toks.len(),
    decreases st.toks.len() - i, 1int,
{
    if let Outcome::Done(i1) = eat(st, i, TokenView::LeftParen) {
        if tok_at(st, i1) != Some(TokenView::RightParen) {
            lemma_value_panics(st, i1);
            if let Outcome::Done((v, i2)) = spec_value(st, i1) {
                lemma_array_rest_panics(st, i2, seq![v]);
            }
        }
    }
}

proof fn lemma_array_rest_panics(st: TokenStream, i: int, vs: Seq<JsonView>)
    requires
        0 <= i,
    ensures
        spec_array_rest(st, i, vs) is Panic ==> st.end is Panic,
        spec_array_rest(st, i, vs) matches Outcome::Done((_, j)) ==> i < j <= st.toks.len(),
    decreases st.toks.len() - i, 0int,
{
    if tok_at(st, i) == Some(TokenView::Comma) {
        if let Outcome::Done(i1) = eat(st, i, TokenView::Comma) {
            if tok_at(st, i1) != Some(TokenView::RightParen) {
                lemma_value_panics(st, i1);
                if let Outcome::Done((v, i2)) = spec_value(st, i1) {
                    lemma_array_rest_panics(st, i2, vs.push(v));
                }
            }
        }
    }
}

/// Parsing panics only where lexing the whole text reaches a panic.
pub proof fn lemma_parse_panics_only_on_lex_panic(s: Seq<char>)
    ensures
        spec_parse_json(s) is Panic ==> lex_stream(s, 0).end is Panic,
{
    lemma_value_panics(lex_stream(s, 0), 0);
}

/// Whether lexing the whole text meets no malformed number. When it meets
/// none, `parse_json` may be called on the text: parsing panics only where
/// lexing does.
pub fn lexes_without_panic(input: &str) -> (r: bool)
    ensures
        r == !(lex_stream(input@, 0).end is Panic),
        r ==> spec_parse_json(input@) !is Panic,
{
    proof {
        lemma_parse_panics_only_on_lex_panic(input@);
    }
    let mut lexer = Lexer::new(String::from_str(input));
    loop
        invariant
            lexer.input@ == input@,
            lexer.posistion <= input@.len(),
            (lex_stream(input@, lexer.posistion as nat).end is Panic) == (lex_stream(input@, 0).end is Panic),
            spec_parse_json(input@) is Panic ==> lex_stream(input@, 0).end is Panic,
        decreases input@.len() - lexer.posistion,
    {
        if lexer.next_token_would_panic() {
            return false;
        }
        match lexer.next_token() {
            Ok(t) => {
                match t {
                    Token::Eof => {
                        return true;
                    },
                    _ => {},
                }
            },
            Err(_) => {
                return true;
            },
        }
    }
}

} // verus!
