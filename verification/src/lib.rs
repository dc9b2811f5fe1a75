use vstd::prelude::*;

pub mod chars;
pub mod dumper;
pub mod error;
pub mod grammar;
pub mod lexer;
pub mod number;
pub mod panics;
pub mod parser;
pub mod roundtrip;
pub mod text;
pub mod tokens;
pub mod value;
pub mod whitespace;

pub use crate::error::Error;
pub use crate::value::Value;

use crate::dumper::{dump_fits, spec_dump, Dumper};
use crate::grammar::{lemma_parse_accepts_only_json, tree_tokens, tree_value, Tree};
use crate::lexer::{lex_stream, Lexer};
use crate::parser::{spec_parse_json, Outcome, Parser};
use crate::roundtrip::lemma_dump_parse_roundtrip;
use crate::value::quote_free;

verus! {

/// Parses JSON text.
pub fn parse_json(input: &str) -> (r: Result<Value, Error>)
    requires
        spec_parse_json(input@) !is Panic,
    ensures
        match spec_parse_json(input@) {
            Outcome::Done(v) => {
                &&& r is Ok && r->Ok_0@ == v
                &&& v.wf() && quote_free(v)
                &&& forall|indent: nat|
                    spec_parse_json(#[trigger] spec_dump(indent, v, 0)) == Outcome::Done(v)
                &&& lex_stream(input@, 0).end is Eof
                &&& lex_stream(input@, 0).toks.len() > 0 ==> exists|t: Tree|
                    #![trigger tree_tokens(t)]
                    tree_tokens(t) == lex_stream(input@, 0).toks && tree_value(t) == v
            },
            Outcome::Fail(e) => r is Err && r->Err_0@ == e,
            Outcome::Panic => false,
        },
{
    let lexer = Lexer::new(String::from_str(input));
    let mut parser = match Parser::new(lexer) {
        Ok(p) => p,
        Err(e) => return Err(e),
    };
    let r = parser.json();
    proof {
        if let Outcome::Done(v) = spec_parse_json(input@) {
            lemma_parse_accepts_only_json(input@);
            assert forall|indent: nat|
                spec_parse_json(#[trigger] spec_dump(indent, v, 0)) == Outcome::Done(v) by {
                lemma_dump_parse_roundtrip(indent, v);
            }
        }
    }
    r
}

/// Writes a value as JSON text, `indent` spaces per nesting level.
pub fn dump_json(value: &Value, indent: usize) -> (r: String)
    requires
        dump_fits(indent as nat, value@, 0),
    ensures
        r@ == spec_dump(indent as nat, value@, 0),
{
    let dumper = Dumper { indent };
    dumper.dump(value)
}

} // verus!
