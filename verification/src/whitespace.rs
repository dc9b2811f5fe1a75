use vstd::prelude::*;

use crate::chars::{spec_is_alphanumeric, spec_is_whitespace};
use crate::error::ErrorView;
use crate::lexer::{
    ident_end, is_number_char, lemma_ident_end, lemma_next_token_progress, lemma_number_end,
    lemma_skip_ws, lemma_string_end, lex_stream, number_end, skip_ws, spec_next_token, string_end,
    LexStep, StreamEnd, TokenStream,
};
use crate::parser::{
    eat, spec_array, spec_array_rest, spec_object, spec_object_rest, spec_parse_json,
    spec_property, spec_value, tok_at, Outcome,
};
use crate::tokens::TokenView;
use crate::value::{obj_insert, JsonView};
use crate::roundtrip::{
    holds_at, lemma_ident_end_at, lemma_lex_ws_run, lemma_number_end_at, lemma_string_end_at,
};

verus! {

/// A lexer error `d` characters further on.
pub open spec fn shift_error(e: ErrorView, d: nat) -> ErrorView {
    match e {
        ErrorView::LexerError { msg, position } => ErrorView::LexerError {
            msg,
            position: position + d,
        },
        _ => e,
    }
}

/// A stream whose lexer error, if any, stands `d` characters further on.
pub open spec fn shift_end(st: TokenStream, d: nat) -> TokenStream {
    match st.end {
        StreamEnd::Error(e) => TokenStream { toks: st.toks, end: StreamEnd::Error(shift_error(e, d)) },
        _ => st,
    }
}

/// A lexer step `d` characters further on.
pub open spec fn shift_step(step: LexStep, d: nat) -> LexStep {
    match step {
        LexStep::Token(t, q) => LexStep::Token(t, q + d),
        LexStep::Error(e, q) => LexStep::Error(shift_error(e, d), q + d),
        LexStep::Panic => LexStep::Panic,
    }
}

/// From `a` on, `s2` holds what `s` holds, `d` characters further on.
pub open spec fn same_suffix(s: Seq<char>, s2: Seq<char>, a: nat, d: nat) -> bool {
    &&& a <= s.len()
    &&& s2.len() == s.len() + d
    &&& forall|x: int| a <= x < s.len() ==> #[trigger] s2[x + d] == s[x]
}

proof fn lemma_skip_ws_shift(s: Seq<char>, s2: Seq<char>, a: nat, d: nat, p: nat)
    requires
        same_suffix(s, s2, a, d),
        a <= p,
    ensures
        skip_ws(s2, p + d) == skip_ws(s, p) + d,
    decreases s.len() - p,
{
    if p < s.len() {
        assert(s2[p + d as int] == s[p as int]);
        lemma_skip_ws_shift(s, s2, a, d, p + 1);
    }
}

proof fn lemma_string_end_shift(s: Seq<char>, s2: Seq<char>, a: nat, d: nat, p: nat)
    requires
        same_suffix(s, s2, a, d),
        a <= p,
    ensures
        string_end(s2, p + d) == string_end(s, p) + d,
    decreases s.len() - p,
{
    if p < s.len() {
        assert(s2[p + d as int] == s[p as int]);
        lemma_string_end_shift(s, s2, a, d, p + 1);
    }
}

proof fn lemma_number_end_shift(s: Seq<char>, s2: Seq<char>, a: nat, d: nat, p: nat)
    requires
        same_suffix(s, s2, a, d),
        a <= p,
    ensures
        number_end(s2, p + d) == number_end(s, p) + d,
    decreases s.len() - p,
{
    if p < s.len() {
        assert(s2[p + d as int] == s[p as int]);
        lemma_number_end_shift(s, s2, a, d, p + 1);
    }
}

proof fn lemma_ident_end_shift(s: Seq<char>, s2: Seq<char>, a: nat, d: nat, p: nat)
    requires
        same_suffix(s, s2, a, d),
        a <= p,
    ensures
        ident_end(s2, p + d) == ident_end(s, p) + d,
    decreases s.len() - p,
{
    if p < s.len() {
        assert(s2[p + d as int] == s[p as int]);
        lemma_ident_end_shift(s, s2, a, d, p + 1);
    }
}

proof fn lemma_subrange_shift(s: Seq<char>, s2: Seq<char>, a: nat, d: nat, x: int, y: int)
    requires
        same_suffix(s, s2, a, d),
        a <= x <= y <= s.len(),
    ensures
        s2.subrange(x + d, y + d) == s.subrange(x, y),
{
    assert forall|k: int| 0 <= k < y - x implies s2.subrange(x + d, y + d)[k] == s.subrange(x, y)[k] by {
        assert(s2[x + k + d] == s[x + k]);
    }
    assert(s2.subrange(x + d, y + d) =~= s.subrange(x, y));
}

/// The lexer only reads ahead of its position: a text with the same suffix
/// gives the same step, moved.
proof fn lemma_next_token_shift(s: Seq<char>, s2: Seq<char>, a: nat, d: nat, p: nat)
    requires
        same_suffix(s, s2, a, d),
        a <= p,
    ensures
        spec_next_token(s2, p + d) == shift_step(spec_next_token(s, p), d),
{
    lemma_skip_ws_shift(s, s2, a, d, p);
    let q = skip_ws(s, p);
    if p <= s.len() {
        lemma_skip_ws(s, p);
    }
    if q < s.len() {
        assert(s2[q + d as int] == s[q as int]);
        if q + 1 < s.len() {
            assert(s2[q + 1 + d as int] == s[q + 1int]);
        }
        lemma_string_end_shift(s, s2, a, d, q + 1);
        lemma_number_end_shift(s, s2, a, d, q);
        lemma_ident_end_shift(s, s2, a, d, q);
        lemma_string_end(s, q + 1);
        lemma_number_end(s, q);
        lemma_ident_end(s, q);
        lemma_subrange_shift(s, s2, a, d, q + 1int, string_end(s, q + 1) as int);
        lemma_subrange_shift(s, s2, a, d, q as int, number_end(s, q) as int);
        lemma_subrange_shift(s, s2, a, d, q as int, ident_end(s, q) as int);
    }
}

/// Lexing a text with the same suffix gives the same tokens; a lexer error
/// stands further on.
proof fn lemma_lex_stream_shift(s: Seq<char>, s2: Seq<char>, a: nat, d: nat, p: nat)
    requires
        same_suffix(s, s2, a, d),
        a <= p,
    ensures
        lex_stream(s2, p + d) == shift_end(lex_stream(s, p), d),
    decreases s.len() - p,
{
    lemma_next_token_shift(s, s2, a, d, p);
    lemma_next_token_progress(s, p);
    match spec_next_token(s, p) {
        LexStep::Token(t, q) => {
            if !(t is Eof) {
                lemma_lex_stream_shift(s, s2, a, d, q);
            }
        },
        _ => {},
    }
}

/// The lexer call at `p` reads a string that runs to the end of the text
/// without a closing quote.
pub open spec fn open_string_at(s: Seq<char>, p: nat) -> bool {
    let q = skip_ws(s, p);
    q < s.len() && s[q as int] == '"' && string_end(s, q + 1) >= s.len()
}

/// Position `k` lies between tokens of the lexing of `s` from `p`: in the
/// whitespace before the first token, between two tokens or after the last,
/// or anywhere after the text that gave a lexer error; never inside a token,
/// a string without closing quote among them.
pub open spec fn between_tokens(s: Seq<char>, p: nat, k: nat) -> bool
    decreases s.len() - p,
    via between_tokens_decreases
{
    if p <= k <= skip_ws(s, p) {
        true
    } else {
        match spec_next_token(s, p) {
            LexStep::Token(t, q) => !(t is Eof) && !open_string_at(s, p) && between_tokens(s, q, k),
            LexStep::Error(_, q) => q <= k,
            LexStep::Panic => false,
        }
    }
}

#[via_fn]
proof fn between_tokens_decreases(s: Seq<char>, p: nat, k: nat) {
    lemma_next_token_progress(s, p);
}

/// Lexing `s` from `p` meets a lexer error before it reaches position `k`.
pub open spec fn error_before(s: Seq<char>, p: nat, k: nat) -> bool
    decreases s.len() - p,
    via error_before_decreases
{
    if p <= k <= skip_ws(s, p) {
        false
    } else {
        match spec_next_token(s, p) {
            LexStep::Token(t, q) => !(t is Eof) && error_before(s, q, k),
            LexStep::Error(_, q) => q <= k,
            LexStep::Panic => false,
        }
    }
}

#[via_fn]
proof fn error_before_decreases(s: Seq<char>, p: nat, k: nat) {
    lemma_next_token_progress(s, p);
}

/// `s` with `w` inserted at position `k`.
pub open spec fn insert_at(s: Seq<char>, k: nat, w: Seq<char>) -> Seq<char> {
    s.take(k as int) + w + s.skip(k as int)
}

proof fn lemma_between_tokens_bound(s: Seq<char>, p: nat, k: nat)
    requires
        between_tokens(s, p, k),
    ensures
        p <= k,
    decreases s.len() - p,
{
    lemma_next_token_progress(s, p);
    if !(p <= k <= skip_ws(s, p)) {
        if let LexStep::Token(t, q) = spec_next_token(s, p) {
            lemma_between_tokens_bound(s, q, k);
        }
    }
}

proof fn lemma_skip_ws_at(s: Seq<char>, p: nat, e: nat)
    requires
        p <= e <= s.len(),
        forall|x: int| p <= x < e ==> spec_is_whitespace(#[trigger] s[x]),
        e == s.len() || !spec_is_whitespace(s[e as int]),
    ensures
        skip_ws(s, p) == e,
    decreases e - p,
{
    if p < e {
        lemma_skip_ws_at(s, p + 1, e);
    }
}

/// Before position `k` the two texts agree, and at `k` the second holds a
/// whitespace character.
pub open spec fn agree_before(s: Seq<char>, s2: Seq<char>, k: nat) -> bool {
    &&& k <= s.len()
    &&& k < s2.len()
    &&& spec_is_whitespace(s2[k as int])
    &&& forall|x: int| 0 <= x < k ==> #[trigger] s2[x] == s[x]
}

/// A token, or the text of a lexer error, that ends at or before `k` is lexed
/// alike in both texts.
proof fn lemma_next_token_prefix(s: Seq<char>, s2: Seq<char>, k: nat, p: nat)
    requires
        agree_before(s, s2, k),
        p <= k,
        skip_ws(s, p) < k,
        match spec_next_token(s, p) {
            LexStep::Token(t, q) => !(t is Eof) && q <= k && !open_string_at(s, p),
            LexStep::Error(_, q) => q <= k,
            LexStep::Panic => false,
        },
    ensures
        spec_next_token(s2, p) == spec_next_token(s, p),
{
    lemma_skip_ws(s, p);
    let q0 = skip_ws(s, p);
    assert forall|x: int| p <= x < q0 implies spec_is_whitespace(#[trigger] s2[x]) by {
        assert(s2[x] == s[x]);
    }
    assert(s2[q0 as int] == s[q0 as int]);
    lemma_skip_ws_at(s2, p, q0);
    if q0 + 1 <= s.len() {
        lemma_string_end(s, q0 + 1);
        let j = string_end(s, q0 + 1);
        if j < k {
            assert forall|x: int| q0 + 1 <= x < j implies #[trigger] s2[x] != '"' by {
                assert(s2[x] == s[x]);
            }
            assert(s2[j as int] == s[j as int]);
            lemma_string_end_at(s2, q0 + 1, j);
            assert(s2.subrange(q0 + 1int, j as int) =~= s.subrange(q0 + 1int, j as int));
        }
    }
    lemma_number_end(s, q0);
    let e = number_end(s, q0);
    if e <= k {
        assert forall|x: int| q0 <= x < e implies is_number_char(#[trigger] s2[x]) by {
            assert(s2[x] == s[x]);
        }
        if e < k {
            assert(s2[e as int] == s[e as int]);
        }
        lemma_number_end_at(s2, q0, e);
        assert(s2.subrange(q0 as int, e as int) =~= s.subrange(q0 as int, e as int));
    }
    lemma_ident_end(s, q0);
    let f = ident_end(s, q0);
    if f <= k {
        assert forall|x: int| q0 <= x < f implies spec_is_alphanumeric(#[trigger] s2[x]) by {
            assert(s2[x] == s[x]);
        }
        if f < k {
            assert(s2[f as int] == s[f as int]);
        }
        lemma_ident_end_at(s2, q0, f);
        assert(s2.subrange(q0 as int, f as int) =~= s.subrange(q0 as int, f as int));
    }
    if q0 + 1 < k {
        assert(s2[q0 + 1int] == s[q0 + 1int]);
    }
}

/// Inserting whitespace between tokens gives the same tokens; a lexer error
/// that follows the insertion stands as many characters further on, one that
/// precedes it stays where it was.
pub proof fn lemma_lex_insert_whitespace(s: Seq<char>, k: nat, w: Seq<char>, p: nat)
    requires
        k <= s.len(),
        forall|x: int| 0 <= x < w.len() ==> spec_is_whitespace(#[trigger] w[x]),
        between_tokens(s, p, k),
    ensures
        lex_stream(insert_at(s, k, w), p) == shift_end(
            lex_stream(s, p),
            if error_before(s, p, k) { 0 } else { w.len() },
        ),
    decreases s.len() - p,
{
    let s2 = insert_at(s, k, w);
    let d = w.len();
    lemma_between_tokens_bound(s, p, k);
    lemma_next_token_progress(s, p);
    assert(s2.len() == s.len() + d);
    assert forall|x: int| 0 <= x < k implies #[trigger] s2[x] == s[x] by {}
    assert forall|x: int| k <= x < s.len() implies #[trigger] s2[x + d] == s[x] by {}
    if p <= k <= skip_ws(s, p) {
        lemma_skip_ws(s, p);
        let g = s.subrange(p as int, k as int);
        assert(holds_at(s, p as int, g));
        assert forall|x: int| 0 <= x < g.len() implies spec_is_whitespace(#[trigger] g[x]) by {
            assert(g[x] == s[p + x]);
        }
        lemma_lex_ws_run(s, p, g);
        let g2 = s2.subrange(p as int, (k + d) as int);
        assert(holds_at(s2, p as int, g2));
        assert forall|x: int| 0 <= x < g2.len() implies spec_is_whitespace(#[trigger] g2[x]) by {
            assert(g2[x] == s2[p + x]);
            if p + x < k {
                assert(s2[p + x] == s[p + x]);
            } else {
                assert(s2[p + x] == w[p + x - k]);
            }
        }
        lemma_lex_ws_run(s2, p, g2);
        lemma_lex_stream_shift(s, s2, k, d, k);
    } else if d == 0 {
        assert(s2 =~= s);
        if let StreamEnd::Error(e) = lex_stream(s, p).end {
            assert(shift_error(e, 0) == e);
        }
    } else {
        assert(s2[k as int] == w[0]);
        if let LexStep::Token(t, q) = spec_next_token(s, p) {
            lemma_between_tokens_bound(s, q, k);
        }
        lemma_next_token_prefix(s, s2, k, p);
        match spec_next_token(s, p) {
            LexStep::Token(t, q) => {
                lemma_lex_insert_whitespace(s, k, w, q);
            },
            LexStep::Error(e, q) => {
                assert(shift_error(e, 0) == e);
            },
            LexStep::Panic => {},
        }
    }
}

/// An outcome whose lexer error, if any, stands `d` characters further on.
pub open spec fn shift_outcome<T>(o: Outcome<T>, d: nat) -> Outcome<T> {
    match o {
        Outcome::Fail(e) => Outcome::Fail(shift_error(e, d)),
        _ => o,
    }
}

proof fn lemma_shift_value(st: TokenStream, d: nat, i: int)
    ensures
        spec_value(shift_end(st, d), i) == shift_outcome(spec_value(st, i), d),
    decreases st.toks.len() - i, 2int,
{
    match tok_at(st, i) {
        Some(TokenView::LeftBrace) => lemma_shift_object(st, d, i),
        Some(TokenView::LeftParen) => lemma_shift_array(st, d, i),
        _ => {},
    }
}

proof fn lemma_shift_object(st: TokenStream, d: nat, i: int)
    ensures
        spec_object(shift_end(st, d), i) == shift_outcome(spec_object(st, i), d),
    decreases st.toks.len() - i, 1int,
{
    if let Outcome::Done(i1) = eat(st, i, TokenView::LeftBrace) {
        if tok_at(st, i1) != Some(TokenView::RightBrace) {
            lemma_shift_property(st, d, i1);
            if let Outcome::Done((k, v, i2)) = spec_property(st, i1) {
                if i1 < i2 <= st.toks.len() {
                    lemma_shift_object_rest(st, d, i2, obj_insert(seq![], k, v));
                }
            }
        }
    }
}

proof fn lemma_shift_object_rest(st: TokenStream, d: nat, i: int, es: Seq<(Seq<char>, JsonView)>)
    ensures
        spec_object_rest(shift_end(st, d), i, es) == shift_outcome(spec_object_rest(st, i, es), d),
    decreases st.toks.len() - i, 0int,
{
    if tok_at(st, i) == Some(TokenView::Comma) {
        if let Outcome::Done(i1) = eat(st, i, TokenView::Comma) {
            if tok_at(st, i1) != Some(TokenView::RightBrace) {
                lemma_shift_property(st, d, i1);
                if let Outcome::Done((k, v, i2)) = spec_property(st, i1) {
                    if i1 < i2 <= st.toks.len() {
                        lemma_shift_object_rest(st, d, i2, obj_insert(es, k, v));
                    }
                }
            }
        }
    }
}

proof fn lemma_shift_property(st: TokenStream, d: nat, i: int)
    ensures
        spec_property(shift_end(st, d), i) == shift_outcome(spec_property(st, i), d),
    decreases st.toks.len() - i, 0int,
{
    if let Some(TokenView::String(k)) = tok_at(st, i) {
        if let Outcome::Done(i1) = eat(st, i, TokenView::String(k)) {
            if let Outcome::Done(i2) = eat(st, i1, TokenView::Collon) {
                lemma_shift_value(st, d, i2);
            }
        }
    }
}

proof fn lemma_shift_array(st: TokenStream, d: nat, i: int)
    ensures
        spec_array(shift_end(st, d), i) == shift_outcome(spec_array(st, i), d),
    decreases st.toks.len() - i, 1int,
{
    if let Outcome::Done(i1) = eat(st, i, TokenView::LeftParen) {
        if tok_at(st, i1) != Some(TokenView::RightParen) {
            lemma_shift_value(st, d, i1);
            if let Outcome::Done((v, i2)) = spec_value(st, i1) {
                if i1 < i2 <= st.toks.len() {
                    lemma_shift_array_rest(st, d, i2, seq![v]);
                }
            }
        }
    }
}

proof fn lemma_shift_array_rest(st: TokenStream, d: nat, i: int, vs: Seq<JsonView>)
    ensures
        spec_array_rest(shift_end(st, d), i, vs) == shift_outcome(spec_array_rest(st, i, vs), d),
    decreases st.toks.len() - i, 0int,
{
    if tok_at(st, i) == Some(TokenView::Comma) {
        if let Outcome::Done(i1) = eat(st, i, TokenView::Comma) {
            if tok_at(st, i1) != Some(TokenView::RightParen) {
                lemma_shift_value(st, d, i1);
                if let Outcome::Done((v, i2)) = spec_value(st, i1) {
                    if i1 < i2 <= st.toks.len() {
                        lemma_shift_array_rest(st, d, i2, vs.push(v));
                    }
                }
            }
        }
    }
}

/// Inserting whitespace before the first token, between two tokens, after the
/// last one or after the text of a lexer error changes nothing in what parsing
/// gives, except that a lexer error after the insertion stands as many
/// characters further on.
pub proof fn lemma_parse_insert_whitespace(s: Seq<char>, k: nat, w: Seq<char>)
    requires
        k <= s.len(),
        forall|x: int| 0 <= x < w.len() ==> spec_is_whitespace(#[trigger] w[x]),
        between_tokens(s, 0, k),
    ensures
        spec_parse_json(insert_at(s, k, w)) == shift_outcome(
            spec_parse_json(s),
            if error_before(s, 0, k) { 0 } else { w.len() },
        ),
{
    let d: nat = if error_before(s, 0, k) { 0 } else { w.len() };
    lemma_lex_insert_whitespace(s, k, w, 0);
    let st = lex_stream(s, 0);
    lemma_shift_value(st, d, 0);
    if let Outcome::Done((v, j)) = spec_value(st, 0) {
        assert(eat(shift_end(st, d), j, TokenView::Eof) == shift_outcome(
            eat(st, j, TokenView::Eof),
            d,
        ));
    }
}

} // verus!
