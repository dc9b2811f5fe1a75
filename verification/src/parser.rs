use vstd::prelude::*;

use crate::error::{Error, ErrorView};
use crate::lexer::{
    lemma_eof_stays, lemma_lex_stream_no_eof, lemma_lex_stream_quote_free, lemma_next_token_quote_free, lex_stream,
    tokens_quote_free, spec_next_token, LexStep, Lexer, StreamEnd, TokenStream,
};
use crate::tokens::{token_debug_text, Token, TokenView};
use crate::value::{
    keys_sorted, quote_free, view_items, lemma_obj_insert_members, lemma_obj_insert_sorted, obj_insert, JsonView, Object,
    Value,
};

verus! {

/// The outcome of a parsing step: a result, an error, or a panic of the lexer.
pub enum Outcome<T> {
    Done(T),
    Fail(ErrorView),
    Panic,
}

/// The token at index `i` of a stream; past the last token a stream that
/// reached the end of the text gives `Eof` again, one that failed gives none.
pub open spec fn tok_at(st: TokenStream, i: int) -> Option<TokenView> {
    if 0 <= i < st.toks.len() {
        Some(st.toks[i])
    } else if i >= st.toks.len() && st.end is Eof {
        Some(TokenView::Eof)
    } else {
        None
    }
}

/// What asking for a token that the stream does not give ends in.
pub open spec fn end_outcome<T>(st: TokenStream) -> Outcome<T> {
    match st.end {
        StreamEnd::Error(e) => Outcome::Fail(e),
        _ => Outcome::Panic,
    }
}

/// Moving from the token at `i` to the next one.
pub open spec fn advance(st: TokenStream, i: int) -> Outcome<int> {
    if tok_at(st, i + 1) is Some {
        Outcome::Done(i + 1)
    } else {
        end_outcome(st)
    }
}

/// Consuming the token at `i`, which must be `expected`.
pub open spec fn eat(st: TokenStream, i: int, expected: TokenView) -> Outcome<int> {
    let cur = tok_at(st, i)->0;
    if cur != expected {
        Outcome::Fail(
            ErrorView::ParserError {
                msg: "Expected "@ + token_debug_text(expected),
                token: cur,
            },
        )
    } else {
        advance(st, i)
    }
}

/// A leaf value `v` whose token is at `i`.
pub open spec fn leaf(st: TokenStream, i: int, t: TokenView, v: JsonView) -> Outcome<(JsonView, int)> {
    match eat(st, i, t) {
        Outcome::Done(j) => Outcome::Done((v, j)),
        Outcome::Fail(e) => Outcome::Fail(e),
        Outcome::Panic => Outcome::Panic,
    }
}

/// The closing bracket `close` at `i` ends a container whose content is `v`.
pub open spec fn close(st: TokenStream, i: int, close: TokenView, v: JsonView) -> Outcome<(JsonView, int)> {
    leaf(st, i, close, v)
}

/// `value: object | array | string | number | boolean | null`, from index `i`:
/// the value and the index after it.
pub open spec fn spec_value(st: TokenStream, i: int) -> Outcome<(JsonView, int)>
    decreases st.toks.len() - i, 2int,
{
    match tok_at(st, i) {
        None => end_outcome(st),
        Some(t) => match t {
            TokenView::LeftBrace => spec_object(st, i),
            TokenView::LeftParen => spec_array(st, i),
            TokenView::String(s) => leaf(st, i, t, JsonView::Str(s)),
            TokenView::Number(n) => leaf(st, i, t, JsonView::Number(n)),
            TokenView::Boolean(b) => leaf(st, i, t, JsonView::Bool(b)),
            TokenView::Null => leaf(st, i, t, JsonView::Null),
            _ => Outcome::Fail(
                ErrorView::ParserError {
                    msg: "Unexpected token in value: "@ + token_debug_text(t),
                    token: t,
                },
            ),
        },
    }
}

/// `object: LeftBrace (property (Comma property)*)? RightBrace`, from index `i`.
pub open spec fn spec_object(st: TokenStream, i: int) -> Outcome<(JsonView, int)>
    decreases st.toks.len() - i, 1int,
{
    match eat(st, i, TokenView::LeftBrace) {
        Outcome::Done(i1) => if tok_at(st, i1) != Some(TokenView::RightBrace) {
            match spec_property(st, i1) {
                Outcome::Done((k, v, i2)) => if i1 < i2 <= st.toks.len() {
                    spec_object_rest(st, i2, obj_insert(seq![], k, v))
                } else {
                    Outcome::Panic
                },
                Outcome::Fail(e) => Outcome::Fail(e),
                Outcome::Panic => Outcome::Panic,
            }
        } else {
            close(st, i1, TokenView::RightBrace, JsonView::Object(seq![]))
        },
        Outcome::Fail(e) => Outcome::Fail(e),
        Outcome::Panic => Outcome::Panic,
    }
}

/// The rest of an object whose entries so far are `es`, from index `i`.
pub open spec fn spec_object_rest(
    st: TokenStream,
    i: int,
    es: Seq<(Seq<char>, JsonView)>,
) -> Outcome<(JsonView, int)>
    decreases st.toks.len() - i, 0int,
{
    if tok_at(st, i) == Some(TokenView::Comma) {
        match eat(st, i, TokenView::Comma) {
            Outcome::Done(i1) => if tok_at(st, i1) == Some(TokenView::RightBrace) {
                Outcome::Fail(
                    ErrorView::ParserError {
                        msg: "Trailing comma in object"@,
                        token: TokenView::RightBrace,
                    },
                )
            } else {
                match spec_property(st, i1) {
                    Outcome::Done((k, v, i2)) => if i1 < i2 <= st.toks.len() {
                        spec_object_rest(st, i2, obj_insert(es, k, v))
                    } else {
                        Outcome::Panic
                    },
                    Outcome::Fail(e) => Outcome::Fail(e),
                    Outcome::Panic => Outcome::Panic,
                }
            },
            Outcome::Fail(e) => Outcome::Fail(e),
            Outcome::Panic => Outcome::Panic,
        }
    } else {
        close(st, i, TokenView::RightBrace, JsonView::Object(es))
    }
}

/// `property: String Collon value`, from index `i`: key, value and the index after.
pub open spec fn spec_property(st: TokenStream, i: int) -> Outcome<(Seq<char>, JsonView, int)>
    decreases st.toks.len() - i, 0int,
{
    match tok_at(st, i) {
        None => end_outcome(st),
        Some(t) => match t {
            TokenView::String(k) => match eat(st, i, t) {
                Outcome::Done(i1) => match eat(st, i1, TokenView::Collon) {
                    Outcome::Done(i2) => match spec_value(st, i2) {
                        Outcome::Done((v, i3)) => Outcome::Done((k, v, i3)),
                        Outcome::Fail(e) => Outcome::Fail(e),
                        Outcome::Panic => Outcome::Panic,
                    },
                    Outcome::Fail(e) => Outcome::Fail(e),
                    Outcome::Panic => Outcome::Panic,
                },
                Outcome::Fail(e) => Outcome::Fail(e),
                Outcome::Panic => Outcome::Panic,
            },
            _ => Outcome::Fail(
                ErrorView::ParserError {
                    msg: "Expected string as object key, got "@ + token_debug_text(t),
                    token: t,
                },
            ),
        },
    }
}

/// `array: LeftParen (value (Comma value)*)? RightParen`, from index `i`.
pub open spec fn spec_array(st: TokenStream, i: int) -> Outcome<(JsonView, int)>
    decreases st.toks.len() - i, 1int,
{
    match eat(st, i, TokenView::LeftParen) {
        Outcome::Done(i1) => if tok_at(st, i1) != Some(TokenView::RightParen) {
            match spec_value(st, i1) {
                Outcome::Done((v, i2)) => if i1 < i2 <= st.toks.len() {
                    spec_array_rest(st, i2, seq![v])
                } else {
                    Outcome::Panic
                },
                Outcome::Fail(e) => Outcome::Fail(e),
                Outcome::Panic => Outcome::Panic,
            }
        } else {
            close(st, i1, TokenView::RightParen, JsonView::Array(seq![]))
        },
        Outcome::Fail(e) => Outcome::Fail(e),
        Outcome::Panic => Outcome::Panic,
    }
}

/// The rest of an array whose items so far are `vs`, from index `i`.
pub open spec fn spec_array_rest(st: TokenStream, i: int, vs: Seq<JsonView>) -> Outcome<(JsonView, int)>
    decreases st.toks.len() - i, 0int,
{
    if tok_at(st, i) == Some(TokenView::Comma) {
        match eat(st, i, TokenView::Comma) {
            Outcome::Done(i1) => if tok_at(st, i1) == Some(TokenView::RightParen) {
                Outcome::Fail(
                    ErrorView::ParserError {
                        msg: "Trailing comma in array"@,
                        token: TokenView::RightParen,
                    },
                )
            } else {
                match spec_value(st, i1) {
                    Outcome::Done((v, i2)) => if i1 < i2 <= st.toks.len() {
                        spec_array_rest(st, i2, vs.push(v))
                    } else {
                        Outcome::Panic
                    },
                    Outcome::Fail(e) => Outcome::Fail(e),
                    Outcome::Panic => Outcome::Panic,
                }
            },
            Outcome::Fail(e) => Outcome::Fail(e),
            Outcome::Panic => Outcome::Panic,
        }
    } else {
        close(st, i, TokenView::RightParen, JsonView::Array(vs))
    }
}

/// `json: value? EOF` over a whole token stream.
pub open spec fn spec_json(st: TokenStream) -> Outcome<JsonView> {
    match tok_at(st, 0) {
        None => end_outcome(st),
        Some(t) => if t is Eof {
            Outcome::Done(JsonView::Null)
        } else {
            match spec_value(st, 0) {
                Outcome::Done((v, i)) => match eat(st, i, TokenView::Eof) {
                    Outcome::Done(_) => Outcome::Done(v),
                    Outcome::Fail(e) => Outcome::Fail(e),
                    Outcome::Panic => Outcome::Panic,
                },
                Outcome::Fail(e) => Outcome::Fail(e),
                Outcome::Panic => Outcome::Panic,
            }
        },
    }
}

/// What parsing the text `s` gives.
pub open spec fn spec_parse_json(s: Seq<char>) -> Outcome<JsonView> {
    spec_json(lex_stream(s, 0))
}

/// The part of a stream from index `k` on.
pub open spec fn stream_from(st: TokenStream, k: int) -> TokenStream {
    if 0 <= k <= st.toks.len() {
        TokenStream { toks: st.toks.subrange(k, st.toks.len() as int), end: st.end }
    } else {
        TokenStream { toks: seq![], end: st.end }
    }
}

/// One call of the lexer where the rest of the stream is `stream_from(st, k)`
/// gives the token at `k`.
pub proof fn lemma_stream_step(s: Seq<char>, p: nat, st: TokenStream, k: int)
    requires
        k >= 0,
        lex_stream(s, p) == stream_from(st, k),
    ensures
        match spec_next_token(s, p) {
            LexStep::Token(t, q) => tok_at(st, k) == Some(t) && lex_stream(s, q) == stream_from(
                st,
                k + 1,
            ),
            LexStep::Error(e, _) => tok_at(st, k) is None && st.end == StreamEnd::Error(e),
            LexStep::Panic => tok_at(st, k) is None && st.end is Panic,
        },
{
    lemma_eof_stays(s, p);
    match spec_next_token(s, p) {
        LexStep::Token(t, q) => {
            if t is Eof {
                assert(stream_from(st, k).toks.len() == 0);
            } else {
                let rest = lex_stream(s, q);
                assert(stream_from(st, k).toks.len() > 0);
                assert(st.toks[k] == stream_from(st, k).toks[0]);
                assert forall|x: int| 0 <= x < rest.toks.len() implies stream_from(st, k + 1).toks[x]
                    == rest.toks[x] by {
                    assert(stream_from(st, k).toks[x + 1] == rest.toks[x]);
                }
                assert(stream_from(st, k + 1).toks =~= rest.toks);
            }
        },
        _ => {
            assert(stream_from(st, k).toks.len() == 0);
        },
    }
}

/// A recursive-descent JSON parser over the tokens of a lexer.
#[derive(Debug)]
pub struct Parser {
    lexer: Lexer,
    current_token: Token,
}

impl Parser {
    /// The parser stands at index `i` of the stream `st`: its current token
    /// is the one at `i` and its lexer gives the ones after it.
    pub closed spec fn at(&self, st: TokenStream, i: int) -> bool {
        &&& i >= 0
        &&& tok_at(st, i) == Some(self.current_token@)
        &&& lex_stream(self.lexer.input@, self.lexer.posistion as nat) == stream_from(st, i + 1)
    }

    /// The tokens from the current one on.
    pub closed spec fn stream(&self) -> TokenStream {
        let rest = lex_stream(self.lexer.input@, self.lexer.posistion as nat);
        if self.current_token@ is Eof {
            TokenStream { toks: seq![], end: StreamEnd::Eof }
        } else {
            TokenStream { toks: seq![self.current_token@] + rest.toks, end: rest.end }
        }
    }

    /// Once the current token is `Eof` the lexer gives nothing else, and a
    /// current string token holds no double quote.
    #[verifier::type_invariant]
    spec fn wf(&self) -> bool {
        &&& self.current_token@ is Eof ==> lex_stream(self.lexer.input@, self.lexer.posistion as nat)
            == (TokenStream { toks: seq![], end: StreamEnd::Eof })
        &&& self.current_token@ matches TokenView::String(x) ==> !x.contains('"')
    }

    proof fn lemma_at_start(&self)
        requires
            self.wf(),
        ensures
            self.at(self.stream(), 0),
    {
        let st = self.stream();
        if !(self.current_token@ is Eof) {
            let rest = lex_stream(self.lexer.input@, self.lexer.posistion as nat);
            assert(stream_from(st, 1).toks =~= rest.toks);
        }
    }

    /// A parser whose current token is the first one of `lexer`.
    pub fn new(lexer: Lexer) -> (r: Result<Parser, Error>)
        requires
            spec_next_token(lexer.input@, lexer.posistion as nat) !is Panic,
        ensures
            match spec_next_token(lexer.input@, lexer.posistion as nat) {
                LexStep::Token(_, _) => r is Ok && r->Ok_0.stream() == lex_stream(
                    lexer.input@,
                    lexer.posistion as nat,
                ),
                LexStep::Error(e, _) => r is Err && r->Err_0@ == e,
                LexStep::Panic => false,
            },
    {
        let mut lexer = lexer;
        let ghost s = lexer.input@;
        let ghost p = lexer.posistion as nat;
        proof {
            lemma_eof_stays(s, p);
            lemma_next_token_quote_free(s, p);
        }
        match lexer.next_token() {
            Ok(current_token) => {
                let r = Parser { lexer, current_token };
                proof {
                    if !(current_token@ is Eof) {
                        assert(r.stream().toks =~= lex_stream(s, p).toks);
                    }
                }
                Ok(r)
            },
            Err(e) => Err(e),
        }
    }

    /// Consumes the current token, which must be `expected`, and reads the next one.
    fn eat(&mut self, expected: Token, Ghost(st): Ghost<TokenStream>, Ghost(i): Ghost<int>) -> (r:
        Result<(), Error>)
        requires
            old(self).at(st, i),
            eat(st, i, expected@) !is Panic,
        ensures
            match eat(st, i, expected@) {
                Outcome::Done(j) => r is Ok && final(self).at(st, j),
                Outcome::Fail(e) => r is Err && r->Err_0@ == e,
                Outcome::Panic => false,
            },
            old(self).current_token@ != expected@ ==> *final(self) == *old(self),
    {
        if !self.current_token.same(&expected) {
            let mut msg = String::from_str("Expected ");
            let d = expected.debug_text();
            msg.append(d.as_str());
            return Err(Error::ParserError { msg, token: self.current_token.duplicate() });
        }
        proof {
            use_type_invariant(&*self);
            lemma_stream_step(self.lexer.input@, self.lexer.posistion as nat, st, i + 1);
            lemma_eof_stays(self.lexer.input@, self.lexer.posistion as nat);
            lemma_next_token_quote_free(self.lexer.input@, self.lexer.posistion as nat);
        }
        let mut lexer = Lexer::new(String::new());
        std::mem::swap(&mut lexer, &mut self.lexer);
        match lexer.next_token() {
            Ok(t) => {
                *self = Parser { lexer, current_token: t };
                Ok(())
            },
            Err(e) => {
                self.lexer = lexer;
                Err(e)
            },
        }
    }

    /// `json: value? EOF`
    pub fn json(&mut self) -> (r: Result<Value, Error>)
        requires
            spec_json(old(self).stream()) !is Panic,
        ensures
            match spec_json(old(self).stream()) {
                Outcome::Done(v) => {
                    &&& r is Ok && r->Ok_0@ == v && v.wf() && quote_free(v)
                    &&& final(self).stream() == (TokenStream { toks: seq![], end: StreamEnd::Eof })
                },
                Outcome::Fail(e) => r is Err && r->Err_0@ == e,
                Outcome::Panic => false,
            },
    {
        let ghost st = self.stream();
        proof {
            use_type_invariant(&*self);
            self.lemma_at_start();
            lemma_lex_stream_quote_free(self.lexer.input@, self.lexer.posistion as nat);
            let rest = lex_stream(self.lexer.input@, self.lexer.posistion as nat).toks;
            if !(self.current_token@ is Eof) {
                assert forall|k: int| 0 <= k < st.toks.len() implies (#[trigger] st.toks[k] matches TokenView::String(x) ==> !x.contains('"')) by {
                    if k > 0 {
                        assert(st.toks[k] == rest[k - 1]);
                    }
                }
            }
        }
        match self.current_token {
            Token::Eof => Ok(Value::Null),
            _ => {
                let obj = match self.value(Ghost(st), Ghost(0)) {
                    Ok(v) => v,
                    Err(e) => return Err(e),
                };
                let ghost j = spec_value(st, 0)->Done_0.1;
                match self.eat(Token::Eof, Ghost(st), Ghost(j)) {
                    Ok(()) => {},
                    Err(e) => return Err(e),
                }
                proof {
                    let ghost s0 = old(self).lexer.input@;
                    lemma_lex_stream_no_eof(s0, old(self).lexer.posistion as nat);
                    let rest = lex_stream(s0, old(self).lexer.posistion as nat).toks;
                    assert forall|k: int| 0 <= k < st.toks.len() implies !(#[trigger] st.toks[k] is Eof) by {
                        if k > 0 {
                            assert(st.toks[k] == rest[k - 1]);
                        }
                    }
                    assert(j >= st.toks.len());
                }
                Ok(obj)
            },
        }
    }

    /// `value: object | array | string | number | boolean | null`
    fn value(&mut self, Ghost(st): Ghost<TokenStream>, Ghost(i): Ghost<int>) -> (r: Result<Value, Error>)
        requires
            old(self).at(st, i),
            tokens_quote_free(st.toks),
            spec_value(st, i) !is Panic,
        ensures
            match spec_value(st, i) {
                Outcome::Done((v, j)) => r is Ok && r->Ok_0@ == v && v.wf() && quote_free(v) && final(self).at(st, j),
                Outcome::Fail(e) => r is Err && r->Err_0@ == e,
                Outcome::Panic => false,
            },
            !(old(self).current_token is LeftBrace || old(self).current_token is LeftParen
                || old(self).current_token is String || old(self).current_token is Number
                || old(self).current_token is Boolean || old(self).current_token is Null)
                ==> *final(self) == *old(self),
        decreases st.toks.len() - i, 2int,
    {
        match &self.current_token {
            Token::LeftBrace => self.object(Ghost(st), Ghost(i)),
            Token::LeftParen => self.array(Ghost(st), Ghost(i)),
            Token::String(s) => {
                let value = Value::String(s.clone());
                let t = Token::String(s.clone());
                match self.eat(t, Ghost(st), Ghost(i)) {
                    Ok(()) => Ok(value),
                    Err(e) => Err(e),
                }
            },
            Token::Number(n) => {
                let value = Value::Number(n.duplicate());
                let t = Token::Number(n.duplicate());
                match self.eat(t, Ghost(st), Ghost(i)) {
                    Ok(()) => Ok(value),
                    Err(e) => Err(e),
                }
            },
            Token::Boolean(b) => {
                let value = Value::Bool(*b);
                let t = Token::Boolean(*b);
                match self.eat(t, Ghost(st), Ghost(i)) {
                    Ok(()) => Ok(value),
                    Err(e) => Err(e),
                }
            },
            Token::Null => {
                match self.eat(Token::Null, Ghost(st), Ghost(i)) {
                    Ok(()) => Ok(Value::Null),
                    Err(e) => Err(e),
                }
            },
            _ => {
                let mut msg = String::from_str("Unexpected token in value: ");
                let d = self.current_token.debug_text();
                msg.append(d.as_str());
                Err(Error::ParserError { msg, token: self.current_token.duplicate() })
            },
        }
    }

    /// `object: LeftBrace (property (Comma property)*)? RightBrace`
    fn object(&mut self, Ghost(st): Ghost<TokenStream>, Ghost(i): Ghost<int>) -> (r: Result<Value, Error>)
        requires
            old(self).at(st, i),
            tokens_quote_free(st.toks),
            spec_object(st, i) !is Panic,
        ensures
            match spec_object(st, i) {
                Outcome::Done((v, j)) => r is Ok && r->Ok_0@ == v && v.wf() && quote_free(v) && final(self).at(st, j),
                Outcome::Fail(e) => r is Err && r->Err_0@ == e,
                Outcome::Panic => false,
            },
        decreases st.toks.len() - i, 1int,
    {
        match self.eat(Token::LeftBrace, Ghost(st), Ghost(i)) {
            Ok(()) => {},
            Err(e) => return Err(e),
        }
        let mut map = Object::new();
        let ghost mut j: int = i + 1;
        if !self.current_token.same(&Token::RightBrace) {
            let (key, value) = match self.property(Ghost(st), Ghost(i + 1)) {
                Ok(kv) => kv,
                Err(e) => return Err(e),
            };
            proof {
                j = spec_property(st, i + 1)->Done_0.2;
                lemma_obj_insert_members(map@, key@, value@);
                lemma_obj_insert_sorted(map@, key@, value@);
            }
            map.insert(key, value);
            while self.current_token.same(&Token::Comma)
                invariant
                    self.at(st, j),
                    i < j <= st.toks.len(),
                    keys_sorted(map@),
                    forall|k: int| 0 <= k < map@.len() ==> (#[trigger] map@[k]).1.wf() && quote_free(map@[k].1) && !map@[k].0.contains('"'),
                    tokens_quote_free(st.toks),
                    spec_object_rest(st, j, map@) == spec_object(st, i),
                    spec_object(st, i) !is Panic,
                decreases st.toks.len() - j,
            {
                match self.eat(Token::Comma, Ghost(st), Ghost(j)) {
                    Ok(()) => {},
                    Err(e) => return Err(e),
                }
                if self.current_token.same(&Token::RightBrace) {
                    return Err(
                        Error::ParserError {
                            msg: String::from_str("Trailing comma in object"),
                            token: self.current_token.duplicate(),
                        },
                    );
                }
                let (key, value) = match self.property(Ghost(st), Ghost(j + 1)) {
                    Ok(kv) => kv,
                    Err(e) => return Err(e),
                };
                proof {
                    j = spec_property(st, j + 1)->Done_0.2;
                    lemma_obj_insert_members(map@, key@, value@);
                    lemma_obj_insert_sorted(map@, key@, value@);
                }
                map.insert(key, value);
            }
        }
        match self.eat(Token::RightBrace, Ghost(st), Ghost(j)) {
            Ok(()) => {},
            Err(e) => return Err(e),
        }
        Ok(Value::Object(map))
    }

    /// `property: String Collon value`
    fn property(&mut self, Ghost(st): Ghost<TokenStream>, Ghost(i): Ghost<int>) -> (r: Result<(String, Value), Error>)
        requires
            old(self).at(st, i),
            tokens_quote_free(st.toks),
            spec_property(st, i) !is Panic,
        ensures
            match spec_property(st, i) {
                Outcome::Done((k, v, j)) => r is Ok && r->Ok_0.0@ == k && r->Ok_0.1@ == v && v.wf()
                    && quote_free(v) && !k.contains('"') && final(self).at(st, j),
                Outcome::Fail(e) => r is Err && r->Err_0@ == e,
                Outcome::Panic => false,
            },
        decreases st.toks.len() - i, 0int,
    {
        let key = match &self.current_token {
            Token::String(s) => s.clone(),
            _ => {
                let mut msg = String::from_str("Expected string as object key, got ");
                let d = self.current_token.debug_text();
                msg.append(d.as_str());
                return Err(Error::ParserError { msg, token: self.current_token.duplicate() });
            },
        };
        match self.eat(Token::String(key.clone()), Ghost(st), Ghost(i)) {
            Ok(()) => {},
            Err(e) => return Err(e),
        }
        match self.eat(Token::Collon, Ghost(st), Ghost(i + 1)) {
            Ok(()) => {},
            Err(e) => return Err(e),
        }
        let value = match self.value(Ghost(st), Ghost(i + 2)) {
            Ok(v) => v,
            Err(e) => return Err(e),
        };
        Ok((key, value))
    }

    /// `array: LeftParen (value (Comma value)*)? RightParen`
    fn array(&mut self, Ghost(st): Ghost<TokenStream>, Ghost(i): Ghost<int>) -> (r: Result<Value, Error>)
        requires
            old(self).at(st, i),
            tokens_quote_free(st.toks),
            spec_array(st, i) !is Panic,
        ensures
            match spec_array(st, i) {
                Outcome::Done((v, j)) => r is Ok && r->Ok_0@ == v && v.wf() && quote_free(v) && final(self).at(st, j),
                Outcome::Fail(e) => r is Err && r->Err_0@ == e,
                Outcome::Panic => false,
            },
        decreases st.toks.len() - i, 1int,
    {
        match self.eat(Token::LeftParen, Ghost(st), Ghost(i)) {
            Ok(()) => {},
            Err(e) => return Err(e),
        }
        let mut arr: Vec<Value> = Vec::new();
        let ghost mut j: int = i + 1;
        if !self.current_token.same(&Token::RightParen) {
            let value = match self.value(Ghost(st), Ghost(i + 1)) {
                Ok(v) => v,
                Err(e) => return Err(e),
            };
            proof {
                j = spec_value(st, i + 1)->Done_0.1;
            }
            arr.push(value);
            assert(view_items(arr@) =~= seq![spec_value(st, i + 1)->Done_0.0]);
            while self.current_token.same(&Token::Comma)
                invariant
                    self.at(st, j),
                    i < j <= st.toks.len(),
                    forall|k: int| 0 <= k < arr@.len() ==> (#[trigger] arr@[k])@.wf() && quote_free(arr@[k]@),
                    tokens_quote_free(st.toks),
                    spec_array_rest(st, j, view_items(arr@)) == spec_array(st, i),
                    spec_array(st, i) !is Panic,
                decreases st.toks.len() - j,
            {
                match self.eat(Token::Comma, Ghost(st), Ghost(j)) {
                    Ok(()) => {},
                    Err(e) => return Err(e),
                }
                if self.current_token.same(&Token::RightParen) {
                    return Err(
                        Error::ParserError {
                            msg: String::from_str("Trailing comma in array"),
                            token: self.current_token.duplicate(),
                        },
                    );
                }
                let value = match self.value(Ghost(st), Ghost(j + 1)) {
                    Ok(v) => v,
                    Err(e) => return Err(e),
                };
                let ghost old_items = view_items(arr@);
                let ghost v = spec_value(st, j + 1)->Done_0.0;
                proof {
                    j = spec_value(st, j + 1)->Done_0.1;
                }
                arr.push(value);
                assert(view_items(arr@) =~= old_items.push(v));
            }
        } else {
            assert(view_items(arr@) =~= Seq::<JsonView>::empty());
        }
        match self.eat(Token::RightParen, Ghost(st), Ghost(j)) {
            Ok(()) => {},
            Err(e) => return Err(e),
        }
        let r = Value::Array(arr);
        assert(r@->Array_0 =~= view_items(arr@));
        assert forall|k: int| 0 <= k < r@->Array_0.len() implies (#[trigger] r@->Array_0[k]).wf() && quote_free(r@->Array_0[k]) by {
            assert(r@->Array_0[k] == arr@[k]@);
        }
        Ok(r)
    }
}

} // verus!
