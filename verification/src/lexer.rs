use vstd::prelude::*;

use crate::chars::{
    char_is_alphabetic, char_is_alphanumeric, char_is_decimal_digit, char_is_whitespace,
    spec_is_alphabetic, spec_is_alphanumeric, spec_is_decimal_digit, spec_is_whitespace,
};
use crate::error::{Error, ErrorView};
use crate::number::{canonicalize, lexeme_is_valid, valid_lexeme, Number};
use crate::text::push_char;
use crate::tokens::{Token, TokenView};

verus! {

/// What one call of the lexer gives: a token and the position after it, an
/// error and the position after it, or a panic.
pub enum LexStep {
    Token(TokenView, nat),
    Error(ErrorView, nat),
    Panic,
}

/// The character at `p`, if any.
pub open spec fn peek_at(s: Seq<char>, p: nat) -> Option<char> {
    if p < s.len() {
        Some(s[p as int])
    } else {
        None
    }
}

/// The first position at or after `p` that does not hold whitespace.
pub open spec fn skip_ws(s: Seq<char>, p: nat) -> nat
    decreases s.len() - p,
{
    if p < s.len() && spec_is_whitespace(s[p as int]) {
        skip_ws(s, p + 1)
    } else {
        p
    }
}

/// The first position at or after `p` that holds a double quote, or the end.
pub open spec fn string_end(s: Seq<char>, p: nat) -> nat
    decreases s.len() - p,
{
    if p < s.len() && s[p as int] != '"' {
        string_end(s, p + 1)
    } else {
        p
    }
}

/// A character that may continue a number: a digit or a dot.
pub open spec fn is_number_char(c: char) -> bool {
    spec_is_decimal_digit(c) || c == '.'
}

/// The end of the run of digits and dots that starts at `p`.
pub open spec fn number_end(s: Seq<char>, p: nat) -> nat
    decreases s.len() - p,
{
    if p < s.len() && is_number_char(s[p as int]) {
        number_end(s, p + 1)
    } else {
        p
    }
}

/// The end of the run of alphanumeric characters that starts at `p`.
pub open spec fn ident_end(s: Seq<char>, p: nat) -> nat
    decreases s.len() - p,
{
    if p < s.len() && spec_is_alphanumeric(s[p as int]) {
        ident_end(s, p + 1)
    } else {
        p
    }
}

pub proof fn lemma_skip_ws(s: Seq<char>, p: nat)
    requires
        p <= s.len(),
    ensures
        p <= skip_ws(s, p) <= s.len(),
        forall|k: int| p <= k < skip_ws(s, p) ==> spec_is_whitespace(#[trigger] s[k]),
        skip_ws(s, p) < s.len() ==> !spec_is_whitespace(s[skip_ws(s, p) as int]),
    decreases s.len() - p,
{
    if p < s.len() && spec_is_whitespace(s[p as int]) {
        lemma_skip_ws(s, p + 1);
    }
}

pub proof fn lemma_string_end(s: Seq<char>, p: nat)
    requires
        p <= s.len(),
    ensures
        p <= string_end(s, p) <= s.len(),
        forall|k: int| p <= k < string_end(s, p) ==> #[trigger] s[k] != '"',
        string_end(s, p) < s.len() ==> s[string_end(s, p) as int] == '"',
    decreases s.len() - p,
{
    if p < s.len() && s[p as int] != '"' {
        lemma_string_end(s, p + 1);
    }
}

pub proof fn lemma_number_end(s: Seq<char>, p: nat)
    requires
        p <= s.len(),
    ensures
        p <= number_end(s, p) <= s.len(),
        forall|k: int| p <= k < number_end(s, p) ==> is_number_char(#[trigger] s[k]),
        number_end(s, p) < s.len() ==> !is_number_char(s[number_end(s, p) as int]),
    decreases s.len() - p,
{
    if p < s.len() && is_number_char(s[p as int]) {
        lemma_number_end(s, p + 1);
    }
}

pub proof fn lemma_ident_end(s: Seq<char>, p: nat)
    requires
        p <= s.len(),
    ensures
        p <= ident_end(s, p) <= s.len(),
        forall|k: int| p <= k < ident_end(s, p) ==> spec_is_alphanumeric(#[trigger] s[k]),
        ident_end(s, p) < s.len() ==> !spec_is_alphanumeric(s[ident_end(s, p) as int]),
    decreases s.len() - p,
{
    if p < s.len() && spec_is_alphanumeric(s[p as int]) {
        lemma_ident_end(s, p + 1);
    }
}

/// What `{:?}` writes for an optional character, such as `Some('@')`.
pub uninterp spec fn option_char_debug_text(c: Option<char>) -> Seq<char>;

/// Calls the `Debug` formatting of `Option<char>` (`format!("{:?}", c)`);
/// what it writes is left under the name `option_char_debug_text`.
#[verifier::external_body]
fn option_char_debug(c: Option<char>) -> (r: String)
    ensures
        r@ == option_char_debug_text(c),
{
    format!("{:?}", c)
}

/// A string token whose text starts at `p` (after the opening quote): the
/// characters up to the next double quote, or to the end of the input.
pub open spec fn string_step(s: Seq<char>, p: nat) -> LexStep {
    let j = string_end(s, p);
    let text = s.subrange(p as int, j as int);
    if j < s.len() {
        LexStep::Token(TokenView::String(text), j + 1)
    } else {
        LexStep::Token(TokenView::String(text), j)
    }
}

/// A number token starting at `p`: the run of digits and dots there, which
/// must be a number (else the lexer panics).
pub open spec fn number_step(s: Seq<char>, p: nat) -> LexStep {
    let e = number_end(s, p);
    let lexeme = s.subrange(p as int, e as int);
    if valid_lexeme(lexeme) {
        LexStep::Token(TokenView::Number(canonicalize(lexeme)), e)
    } else {
        LexStep::Panic
    }
}

/// A keyword starting at `p`: the run of alphanumeric characters there must
/// be `true`, `false` or `null`.
pub open spec fn ident_step(s: Seq<char>, p: nat) -> LexStep {
    let e = ident_end(s, p);
    let word = s.subrange(p as int, e as int);
    if word == "true"@ {
        LexStep::Token(TokenView::Boolean(true), e)
    } else if word == "false"@ {
        LexStep::Token(TokenView::Boolean(false), e)
    } else if word == "null"@ {
        LexStep::Token(TokenView::Null, e)
    } else {
        LexStep::Error(
            ErrorView::LexerError { msg: "Unknown identifier: "@ + word, position: e },
            e,
        )
    }
}

/// The next token of `s` from position `p`, after whitespace.
pub open spec fn spec_next_token(s: Seq<char>, p: nat) -> LexStep {
    let q = skip_ws(s, p);
    if q >= s.len() {
        LexStep::Token(TokenView::Eof, q)
    } else {
        let c = s[q as int];
        if c == '{' {
            LexStep::Token(TokenView::LeftBrace, q + 1)
        } else if c == '}' {
            LexStep::Token(TokenView::RightBrace, q + 1)
        } else if c == '[' {
            LexStep::Token(TokenView::LeftParen, q + 1)
        } else if c == ']' {
            LexStep::Token(TokenView::RightParen, q + 1)
        } else if c == ',' {
            LexStep::Token(TokenView::Comma, q + 1)
        } else if c == ':' {
            LexStep::Token(TokenView::Collon, q + 1)
        } else if c == '"' {
            string_step(s, q + 1)
        } else if spec_is_decimal_digit(c) {
            number_step(s, q)
        } else if c == '-' && q + 1 < s.len() && spec_is_decimal_digit(s[q + 1int]) {
            number_step(s, q)
        } else if spec_is_alphabetic(c) {
            ident_step(s, q)
        } else {
            LexStep::Error(
                ErrorView::LexerError {
                    msg: "Unexpected character "@ + option_char_debug_text(Some(c)),
                    position: q + 1,
                },
                q + 1,
            )
        }
    }
}

/// How a token stream ends: at the end of the text, at a lexer error, or at
/// a lexer panic.
pub enum StreamEnd {
    Eof,
    Error(ErrorView),
    Panic,
}

/// The tokens that successive calls of the lexer give (the final `Eof` left
/// out), and how the stream ends.
pub struct TokenStream {
    pub toks: Seq<TokenView>,
    pub end: StreamEnd,
}

/// The token stream of `s` from position `p`.
pub open spec fn lex_stream(s: Seq<char>, p: nat) -> TokenStream
    decreases s.len() - p,
    via lex_stream_decreases
{
    match spec_next_token(s, p) {
        LexStep::Token(t, q) => if t is Eof {
            TokenStream { toks: seq![], end: StreamEnd::Eof }
        } else {
            let rest = lex_stream(s, q);
            TokenStream { toks: seq![t] + rest.toks, end: rest.end }
        },
        LexStep::Error(e, _) => TokenStream { toks: seq![], end: StreamEnd::Error(e) },
        LexStep::Panic => TokenStream { toks: seq![], end: StreamEnd::Panic },
    }
}

#[via_fn]
proof fn lex_stream_decreases(s: Seq<char>, p: nat) {
    lemma_next_token_progress(s, p);
}

/// Every call of the lexer moves forward, except one that finds the end:
/// a token other than `Eof`, and every error, consumes at least one character;
/// `Eof` stands at the end of the text; no call moves past the end.
pub proof fn lemma_next_token_progress(s: Seq<char>, p: nat)
    ensures
        match spec_next_token(s, p) {
            LexStep::Token(t, q) => if t is Eof {
                p <= q && (p <= s.len() ==> q == s.len())
            } else {
                p < q <= s.len()
            },
            LexStep::Error(_, q) => p < q <= s.len(),
            LexStep::Panic => true,
        },
{
    if p <= s.len() {
        lemma_skip_ws(s, p);
        let q = skip_ws(s, p);
        if q < s.len() {
            let c = s[q as int];
            if c == '"' {
                lemma_string_end(s, q + 1);
            } else if spec_is_decimal_digit(c) || c == '-' {
                lemma_number_end(s, q);
            } else {
                lemma_ident_end(s, q);
                reveal_strlit("true");
                reveal_strlit("false");
                reveal_strlit("null");
            }
        }
    }
}

/// Once the lexer has reached the end it stays there.
pub proof fn lemma_eof_stays(s: Seq<char>, p: nat)
    ensures
        match spec_next_token(s, p) {
            LexStep::Token(t, q) => t is Eof ==> {
                &&& spec_next_token(s, q) == LexStep::Token(TokenView::Eof, q)
                &&& lex_stream(s, q) == (TokenStream { toks: seq![], end: StreamEnd::Eof })
            },
            _ => true,
        },
{
}

/// No string token of a stream holds a double quote.
pub open spec fn tokens_quote_free(toks: Seq<TokenView>) -> bool {
    forall|k: int|
        0 <= k < toks.len() ==> (#[trigger] toks[k] matches TokenView::String(x) ==> !x.contains(
            '"',
        ))
}

/// A string token ends at the first double quote, so it holds none.
pub proof fn lemma_next_token_quote_free(s: Seq<char>, p: nat)
    ensures
        match spec_next_token(s, p) {
            LexStep::Token(TokenView::String(x), _) => !x.contains('"'),
            _ => true,
        },
{
    if p <= s.len() {
        lemma_skip_ws(s, p);
        let q = skip_ws(s, p);
        if q < s.len() && s[q as int] == '"' {
            lemma_string_end(s, q + 1);
            let x = s.subrange(q + 1int, string_end(s, q + 1) as int);
            assert forall|k: int| 0 <= k < x.len() implies x[k] != '"' by {
                assert(x[k] == s[q + 1 + k]);
            }
        }
    }
}

/// No string token that the lexer gives holds a double quote.
pub proof fn lemma_lex_stream_quote_free(s: Seq<char>, p: nat)
    ensures
        tokens_quote_free(lex_stream(s, p).toks),
    decreases s.len() - p,
{
    lemma_next_token_progress(s, p);
    lemma_next_token_quote_free(s, p);
    match spec_next_token(s, p) {
        LexStep::Token(t, q) => {
            if !(t is Eof) {
                lemma_lex_stream_quote_free(s, q);
                let rest = lex_stream(s, q).toks;
                let toks = lex_stream(s, p).toks;
                assert forall|k: int| 0 <= k < toks.len() implies (#[trigger] toks[k] matches TokenView::String(x) ==> !x.contains('"')) by {
                    if k > 0 {
                        assert(toks[k] == rest[k - 1]);
                    }
                }
            }
        },
        _ => {},
    }
}

/// The stream holds no `Eof` token: the end of the text is its `end`.
pub proof fn lemma_lex_stream_no_eof(s: Seq<char>, p: nat)
    ensures
        forall|k: int| 0 <= k < lex_stream(s, p).toks.len() ==> !(#[trigger] lex_stream(s, p).toks[k] is Eof),
    decreases s.len() - p,
{
    lemma_next_token_progress(s, p);
    match spec_next_token(s, p) {
        LexStep::Token(t, q) => {
            if !(t is Eof) {
                lemma_lex_stream_no_eof(s, q);
                let rest = lex_stream(s, q).toks;
                let toks = lex_stream(s, p).toks;
                assert forall|k: int| 0 <= k < toks.len() implies !(#[trigger] toks[k] is Eof) by {
                    if k > 0 {
                        assert(toks[k] == rest[k - 1]);
                    }
                }
            }
        },
        _ => {},
    }
}

/// A lexer over a text, at a position counted in characters.
#[derive(Debug)]
pub struct Lexer {
    pub input: String,
    pub posistion: usize,
}

impl Lexer {
    /// A lexer at the start of `input`.
    pub fn new(input: String) -> (r: Lexer)
        ensures
            r.input@ == input@,
            r.posistion == 0,
    {
        Lexer { input, posistion: 0 }
    }

    /// The character at the current position, if any.
    pub fn peek(&self) -> (r: Option<char>)
        ensures
            r == peek_at(self.input@, self.posistion as nat),
            self.input@.len() <= usize::MAX,
    {
        let s = self.input.as_str();
        if self.posistion < s.unicode_len() {
            Some(s.get_char(self.posistion))
        } else {
            None
        }
    }

    /// The character at the current position, if any, moving past it.
    pub fn advance(&mut self) -> (r: Option<char>)
        ensures
            r == peek_at(old(self).input@, old(self).posistion as nat),
            final(self).input@ == old(self).input@,
            final(self).posistion == if r is Some {
                old(self).posistion + 1
            } else {
                old(self).posistion as int
            },
    {
        let ch = self.peek();
        if ch.is_some() {
            self.posistion = self.posistion + 1;
        }
        ch
    }

    /// Moves past the whitespace at the current position.
    fn trim_whitespace(&mut self)
        ensures
            final(self).input@ == old(self).input@,
            final(self).posistion == skip_ws(old(self).input@, old(self).posistion as nat),
    {
        loop
            invariant
                self.input@ == old(self).input@,
                skip_ws(self.input@, self.posistion as nat) == skip_ws(
                    old(self).input@,
                    old(self).posistion as nat,
                ),
            ensures
                self.input@ == old(self).input@,
                self.posistion == skip_ws(old(self).input@, old(self).posistion as nat),
            decreases self.input@.len() - self.posistion,
        {
            match self.peek() {
                Some(ch) => {
                    if char_is_whitespace(ch) {
                        self.advance();
                    } else {
                        break ;
                    }
                },
                None => {
                    break ;
                },
            }
        }
    }

    /// A keyword: the run of alphanumeric characters at the current position.
    fn id(&mut self) -> (r: Result<Token, Error>)
        requires
            old(self).posistion <= old(self).input@.len(),
        ensures
            final(self).input@ == old(self).input@,
            match ident_step(old(self).input@, old(self).posistion as nat) {
                LexStep::Token(t, p) => r is Ok && r->Ok_0@ == t && final(self).posistion == p,
                LexStep::Error(e, p) => r is Err && r->Err_0@ == e && final(self).posistion == p,
                LexStep::Panic => false,
            },
    {
        let ghost s = self.input@;
        let ghost p0 = self.posistion as nat;
        let mut ident = String::new();
        proof {
            lemma_ident_end(s, p0);
        }
        loop
            invariant
                self.input@ == s,
                p0 <= self.posistion <= ident_end(s, p0),
                ident_end(s, self.posistion as nat) == ident_end(s, p0),
                ident@ == s.subrange(p0 as int, self.posistion as int),
            ensures
                self.input@ == s,
                self.posistion == ident_end(s, p0),
                ident@ == s.subrange(p0 as int, self.posistion as int),
            decreases s.len() - self.posistion,
        {
            match self.peek() {
                Some(ch) => {
                    if char_is_alphanumeric(ch) {
                        push_char(&mut ident, ch);
                        self.advance();
                        proof {
                            lemma_ident_end(s, self.posistion as nat);
                        }
                        assert(ident@ =~= s.subrange(p0 as int, self.posistion as int));
                    } else {
                        break ;
                    }
                },
                None => {
                    break ;
                },
            }
        }
        if ident == String::from_str("true") {
            Ok(Token::Boolean(true))
        } else if ident == String::from_str("false") {
            Ok(Token::Boolean(false))
        } else if ident == String::from_str("null") {
            Ok(Token::Null)
        } else {
            let mut msg = String::from_str("Unknown identifier: ");
            msg.append(ident.as_str());
            Err(Error::LexerError { msg, position: self.posistion })
        }
    }

    /// The run of digits and dots at the current position, moving past it.
    fn number_run(&mut self) -> (r: Vec<char>)
        requires
            old(self).posistion <= old(self).input@.len(),
        ensures
            final(self).input@ == old(self).input@,
            final(self).posistion == number_end(old(self).input@, old(self).posistion as nat),
            r@ == old(self).input@.subrange(old(self).posistion as int, final(self).posistion as int),
    {
        let ghost s = self.input@;
        let ghost p0 = self.posistion as nat;
        let mut lexeme: Vec<char> = Vec::new();
        proof {
            lemma_number_end(s, p0);
        }
        loop
            invariant
                self.input@ == s,
                p0 <= self.posistion <= number_end(s, p0),
                number_end(s, self.posistion as nat) == number_end(s, p0),
                lexeme@ == s.subrange(p0 as int, self.posistion as int),
            ensures
                self.input@ == s,
                self.posistion == number_end(s, p0),
                lexeme@ == s.subrange(p0 as int, self.posistion as int),
            decreases s.len() - self.posistion,
        {
            match self.peek() {
                Some(ch) => {
                    if char_is_decimal_digit(ch) || ch == '.' {
                        lexeme.push(ch);
                        self.advance();
                        proof {
                            lemma_number_end(s, self.posistion as nat);
                        }
                        assert(lexeme@ =~= s.subrange(p0 as int, self.posistion as int));
                    } else {
                        break ;
                    }
                },
                None => {
                    break ;
                },
            }
        }
        lexeme
    }

    /// A number: the run of digits and dots at the current position.
    fn number(&mut self) -> (r: Token)
        requires
            old(self).posistion <= old(self).input@.len(),
            number_step(old(self).input@, old(self).posistion as nat) !is Panic,
        ensures
            final(self).input@ == old(self).input@,
            match number_step(old(self).input@, old(self).posistion as nat) {
                LexStep::Token(t, p) => r@ == t && final(self).posistion == p,
                _ => false,
            },
    {
        let lexeme = self.number_run();
        Token::Number(Number::from_lexeme(&lexeme))
    }

    /// Whether the next call of `next_token` would meet a malformed number:
    /// a run of digits and dots with two dots, or a minus sign before a digit.
    pub fn next_token_would_panic(&self) -> (r: bool)
        ensures
            r == (spec_next_token(self.input@, self.posistion as nat) is Panic),
    {
        let mut probe = Lexer { input: self.input.clone(), posistion: self.posistion };
        probe.trim_whitespace();
        let ghost s = self.input@;
        let ghost q = probe.posistion as nat;
        proof {
            if self.posistion <= s.len() {
                lemma_skip_ws(s, self.posistion as nat);
            }
        }
        match probe.peek() {
            None => false,
            Some(c) => {
                let starts_number = if char_is_decimal_digit(c) {
                    true
                } else if c == '-' {
                    probe.advance();
                    let next = probe.peek();
                    probe.posistion = probe.posistion - 1;
                    match next {
                        Some(d) => char_is_decimal_digit(d),
                        None => false,
                    }
                } else {
                    false
                };
                if starts_number {
                    let lexeme = probe.number_run();
                    !lexeme_is_valid(&lexeme)
                } else {
                    false
                }
            },
        }
    }

    /// A string whose opening quote was just consumed.
    fn string(&mut self) -> (r: Token)
        requires
            old(self).posistion <= old(self).input@.len(),
        ensures
            final(self).input@ == old(self).input@,
            match string_step(old(self).input@, old(self).posistion as nat) {
                LexStep::Token(t, p) => r@ == t && final(self).posistion == p,
                _ => false,
            },
    {
        let ghost s = self.input@;
        let ghost p0 = self.posistion as nat;
        let mut result = String::new();
        let mut ch = self.advance();
        assert(result@ =~= s.subrange(p0 as int, p0 as int));
        loop
            invariant
                self.input@ == s,
                p0 <= self.posistion <= s.len(),
                ch is Some ==> {
                    &&& self.posistion >= p0 + 1
                    &&& ch->0 == s[self.posistion - 1]
                    &&& forall|k: int| p0 <= k < self.posistion - 1 ==> #[trigger] s[k] != '"'
                    &&& result@ == s.subrange(p0 as int, self.posistion - 1)
                },
                ch is None ==> {
                    &&& self.posistion == s.len()
                    &&& forall|k: int| p0 <= k < self.posistion ==> #[trigger] s[k] != '"'
                    &&& result@ == s.subrange(p0 as int, self.posistion as int)
                },
            ensures
                self.input@ == s,
                p0 <= self.posistion <= s.len(),
                ch is Some ==> {
                    &&& self.posistion >= p0 + 1
                    &&& s[self.posistion - 1] == '"'
                    &&& forall|k: int| p0 <= k < self.posistion - 1 ==> #[trigger] s[k] != '"'
                    &&& result@ == s.subrange(p0 as int, self.posistion - 1)
                },
                ch is None ==> {
                    &&& self.posistion == s.len()
                    &&& forall|k: int| p0 <= k < self.posistion ==> #[trigger] s[k] != '"'
                    &&& result@ == s.subrange(p0 as int, self.posistion as int)
                },
            decreases s.len() - self.posistion, if ch is Some {
                1int
            } else {
                0int
            },
        {
            match ch {
                Some(c) => {
                    if c == '"' {
                        break ;
                    } else {
                        push_char(&mut result, c);
                        assert(result@ =~= s.subrange(p0 as int, self.posistion as int));
                        ch = self.advance();
                    }
                },
                None => {
                    break ;
                },
            }
        }
        proof {
            lemma_string_end(s, p0);
            let j = string_end(s, p0);
            let e: int = if ch is Some { self.posistion - 1 } else { self.posistion as int };
            if j < e {
                assert(s[j as int] != '"');
            } else if e < j {
                assert(s[e] != '"');
            }
        }
        Token::String(result)
    }

    /// The next token, after whitespace.
    pub fn next_token(&mut self) -> (r: Result<Token, Error>)
        requires
            spec_next_token(old(self).input@, old(self).posistion as nat) !is Panic,
        ensures
            final(self).input@ == old(self).input@,
            match spec_next_token(old(self).input@, old(self).posistion as nat) {
                LexStep::Token(t, p) => r is Ok && r->Ok_0@ == t && final(self).posistion == p,
                LexStep::Error(e, p) => r is Err && r->Err_0@ == e && final(self).posistion == p,
                LexStep::Panic => false,
            },
            old(self).posistion <= old(self).input@.len() ==> {
                &&& old(self).posistion <= final(self).posistion <= final(self).input@.len()
                &&& final(self).posistion > old(self).posistion || (r is Ok && r->Ok_0 is Eof)
            },
    {
        proof {
            lemma_next_token_progress(self.input@, self.posistion as nat);
        }
        self.trim_whitespace();
        let ch = self.advance();
        match ch {
            Some(c) => {
                if c == '{' {
                    Ok(Token::LeftBrace)
                } else if c == '}' {
                    Ok(Token::RightBrace)
                } else if c == '[' {
                    Ok(Token::LeftParen)
                } else if c == ']' {
                    Ok(Token::RightParen)
                } else if c == ',' {
                    Ok(Token::Comma)
                } else if c == ':' {
                    Ok(Token::Collon)
                } else if c == '"' {
                    Ok(self.string())
                } else if char_is_decimal_digit(c) {
                    self.posistion = self.posistion - 1;
                    Ok(self.number())
                } else if c == '-' && match self.peek() {
                    Some(d) => char_is_decimal_digit(d),
                    None => false,
                } {
                    self.posistion = self.posistion - 1;
                    Ok(self.number())
                } else if char_is_alphabetic(c) {
                    self.posistion = self.posistion - 1;
                    self.id()
                } else {
                    let mut msg = String::from_str("Unexpected character ");
                    let d = option_char_debug(ch);
                    msg.append(d.as_str());
                    Err(Error::LexerError { msg, position: self.posistion })
                }
            },
            None => Ok(Token::Eof),
        }
    }
}

} // verus!
