use vstd::prelude::*;

use crate::chars::{spec_is_alphanumeric, spec_is_decimal_digit, spec_is_whitespace};
use crate::dumper::{dump_entries, dump_items, item_sep, spec_dump};
use crate::lexer::{
    ident_end, is_number_char, lex_stream, number_end, skip_ws, spec_next_token, string_end,
    StreamEnd, TokenStream,
};
use crate::number::{dot_index, lemma_canonical_fixed_point, lemma_dot_from, is_canonical_number};
use crate::text::spaces;
use crate::tokens::TokenView;
use crate::parser::{
    spec_array, spec_array_rest, spec_object, spec_object_rest, spec_parse_json, spec_property,
    spec_value, tok_at, Outcome,
};
use crate::value::{key_lt, keys_sorted, lemma_obj_insert_at, obj_insert, quote_free, JsonView};

verus! {

/// `d` stands in `s` from position `p` on.
pub open spec fn holds_at<A>(s: Seq<A>, p: int, d: Seq<A>) -> bool {
    &&& 0 <= p
    &&& p + d.len() <= s.len()
    &&& s.subrange(p, p + d.len()) == d
}

/// The stream `st` with the tokens `ts` in front.
pub open spec fn prepend_all(ts: Seq<TokenView>, st: TokenStream) -> TokenStream {
    TokenStream { toks: ts + st.toks, end: st.end }
}

pub(crate) proof fn lemma_holds_char<A>(s: Seq<A>, p: int, d: Seq<A>, k: int)
    requires
        holds_at(s, p, d),
        0 <= k < d.len(),
    ensures
        s[p + k] == d[k],
{
    assert(s.subrange(p, p + d.len())[k] == s[p + k]);
}

pub(crate) proof fn lemma_holds_split<A>(s: Seq<A>, p: int, x: Seq<A>, y: Seq<A>)
    requires
        holds_at(s, p, x + y),
    ensures
        holds_at(s, p, x),
        holds_at(s, p + x.len(), y),
{
    assert forall|k: int| 0 <= k < x.len() implies s.subrange(p, p + x.len())[k] == x[k] by {
        lemma_holds_char(s, p, x + y, k);
    }
    assert(s.subrange(p, p + x.len()) =~= x);
    assert forall|k: int| 0 <= k < y.len() implies s.subrange(p + x.len(), p + x.len() + y.len())[k] == y[k] by {
        lemma_holds_char(s, p, x + y, x.len() + k);
    }
    assert(s.subrange(p + x.len(), p + x.len() + y.len()) =~= y);
}

pub(crate) proof fn lemma_holds_join<A>(s: Seq<A>, p: int, x: Seq<A>, y: Seq<A>)
    requires
        holds_at(s, p, x),
        holds_at(s, p + x.len(), y),
    ensures
        holds_at(s, p, x + y),
{
    assert forall|k: int| 0 <= k < (x + y).len() implies s.subrange(p, p + (x + y).len())[k] == (x
        + y)[k] by {
        if k < x.len() {
            lemma_holds_char(s, p, x, k);
        } else {
            lemma_holds_char(s, p + x.len(), y, k - x.len());
        }
    }
    assert(s.subrange(p, p + (x + y).len()) =~= x + y);
}

/// A whitespace character before the rest does not change the token stream.
pub proof fn lemma_lex_ws(s: Seq<char>, p: nat)
    requires
        p < s.len(),
        spec_is_whitespace(s[p as int]),
    ensures
        lex_stream(s, p) == lex_stream(s, p + 1),
{
    assert(skip_ws(s, p) == skip_ws(s, p + 1));
    assert(spec_next_token(s, p) == spec_next_token(s, p + 1));
}

/// A run of whitespace before the rest does not change the token stream.
pub proof fn lemma_lex_ws_run(s: Seq<char>, p: nat, w: Seq<char>)
    requires
        holds_at(s, p as int, w),
        forall|k: int| 0 <= k < w.len() ==> spec_is_whitespace(#[trigger] w[k]),
    ensures
        lex_stream(s, p) == lex_stream(s, p + w.len()),
    decreases w.len(),
{
    if w.len() > 0 {
        lemma_holds_char(s, p as int, w, 0);
        lemma_lex_ws(s, p);
        let w1 = w.subrange(1, w.len() as int);
        assert(w =~= seq![w[0]] + w1);
        lemma_holds_split(s, p as int, seq![w[0]], w1);
        lemma_lex_ws_run(s, p + 1, w1);
    }
}

proof fn lemma_lex_spaces(s: Seq<char>, p: nat, n: nat)
    requires
        holds_at(s, p as int, spaces(n)),
    ensures
        lex_stream(s, p) == lex_stream(s, p + n),
{
    lemma_lex_ws_run(s, p, spaces(n));
}

/// A punctuation character gives its token.
proof fn lemma_lex_punct(s: Seq<char>, p: nat, c: char, t: TokenView)
    requires
        p < s.len(),
        s[p as int] == c,
        (c == '{' && t == TokenView::LeftBrace) || (c == '}' && t == TokenView::RightBrace) || (c
            == '[' && t == TokenView::LeftParen) || (c == ']' && t == TokenView::RightParen) || (c
            == ',' && t == TokenView::Comma) || (c == ':' && t == TokenView::Collon),
    ensures
        lex_stream(s, p) == prepend_all(seq![t], lex_stream(s, p + 1)),
{
    assert(skip_ws(s, p) == p);
}

/// What may follow a value in dumped text: the end, a comma or a newline.
pub open spec fn follow_ok(s: Seq<char>, e: int) -> bool {
    e == s.len() || (0 <= e < s.len() && (s[e] == ',' || s[e] == '\n'))
}

pub(crate) proof fn lemma_ident_end_at(s: Seq<char>, p: nat, e: nat)
    requires
        p <= e <= s.len(),
        forall|k: int| p <= k < e ==> spec_is_alphanumeric(#[trigger] s[k]),
        e == s.len() || !spec_is_alphanumeric(s[e as int]),
    ensures
        ident_end(s, p) == e,
    decreases e - p,
{
    if p < e {
        lemma_ident_end_at(s, p + 1, e);
    }
}

pub(crate) proof fn lemma_number_end_at(s: Seq<char>, p: nat, e: nat)
    requires
        p <= e <= s.len(),
        forall|k: int| p <= k < e ==> is_number_char(#[trigger] s[k]),
        e == s.len() || !is_number_char(s[e as int]),
    ensures
        number_end(s, p) == e,
    decreases e - p,
{
    if p < e {
        lemma_number_end_at(s, p + 1, e);
    }
}

pub(crate) proof fn lemma_string_end_at(s: Seq<char>, p: nat, e: nat)
    requires
        p <= e < s.len(),
        forall|k: int| p <= k < e ==> #[trigger] s[k] != '"',
        s[e as int] == '"',
    ensures
        string_end(s, p) == e,
    decreases e - p,
{
    if p < e {
        lemma_string_end_at(s, p + 1, e);
    }
}

/// A keyword gives its token.
proof fn lemma_lex_keyword(s: Seq<char>, p: nat, w: Seq<char>, t: TokenView)
    requires
        (w == "null"@ && t == TokenView::Null) || (w == "true"@ && t == TokenView::Boolean(true))
            || (w == "false"@ && t == TokenView::Boolean(false)),
        holds_at(s, p as int, w),
        follow_ok(s, p + w.len() as int),
    ensures
        lex_stream(s, p) == prepend_all(seq![t], lex_stream(s, p + w.len())),
{
    reveal_strlit("null");
    reveal_strlit("true");
    reveal_strlit("false");
    assert forall|k: int| p <= k < p + w.len() implies spec_is_alphanumeric(#[trigger] s[k]) by {
        lemma_holds_char(s, p as int, w, k - p);
    }
    lemma_ident_end_at(s, p, p + w.len());
    lemma_holds_char(s, p as int, w, 0);
    assert(skip_ws(s, p) == p);
    assert(s.subrange(p as int, p + w.len() as int) == w);
}

/// The writing of a canonical number gives its number token.
proof fn lemma_lex_number(s: Seq<char>, p: nat, t: Seq<char>)
    requires
        is_canonical_number(t),
        holds_at(s, p as int, t),
        follow_ok(s, p + t.len() as int),
    ensures
        lex_stream(s, p) == prepend_all(seq![TokenView::Number(t)], lex_stream(s, p + t.len())),
{
    lemma_canonical_fixed_point(t);
    lemma_dot_from(t, 0);
    let d = dot_index(t);
    assert forall|k: int| p <= k < p + t.len() implies is_number_char(#[trigger] s[k]) by {
        lemma_holds_char(s, p as int, t, k - p);
        if k - p != d {
            assert(spec_is_decimal_digit(t[k - p]));
        }
    }
    lemma_number_end_at(s, p, p + t.len());
    lemma_holds_char(s, p as int, t, 0);
    assert(spec_is_decimal_digit(t[0]));
    assert(skip_ws(s, p) == p);
    assert(s.subrange(p as int, p + t.len() as int) == t);
}

/// A string between double quotes gives its string token.
proof fn lemma_lex_string(s: Seq<char>, p: nat, x: Seq<char>)
    requires
        !x.contains('"'),
        holds_at(s, p as int, "\""@ + x + "\""@),
    ensures
        lex_stream(s, p) == prepend_all(seq![TokenView::String(x)], lex_stream(s, p + x.len() + 2)),
{
    reveal_strlit("\"");
    let d = "\""@ + x + "\""@;
    lemma_holds_char(s, p as int, d, 0);
    lemma_holds_char(s, p as int, d, x.len() + 1int);
    assert forall|k: int| p + 1 <= k < p + 1 + x.len() implies #[trigger] s[k] != '"' by {
        lemma_holds_char(s, p as int, d, k - p);
        assert(d[k - p] == x[k - p - 1]);
    }
    lemma_string_end_at(s, p + 1, p + 1 + x.len());
    assert(skip_ws(s, p) == p);
    lemma_holds_split(s, p as int, "\""@ + x, "\""@);
    lemma_holds_split(s, p as int, "\""@, x);
}

/// The comma between items, none after the last.
pub open spec fn sep_tokens(last: bool) -> Seq<TokenView> {
    if last {
        seq![]
    } else {
        seq![TokenView::Comma]
    }
}

/// The tokens that stand for a value.
pub open spec fn value_tokens(v: JsonView) -> Seq<TokenView>
    decreases v,
{
    match v {
        JsonView::Null => seq![TokenView::Null],
        JsonView::Bool(b) => seq![TokenView::Boolean(b)],
        JsonView::Number(t) => seq![TokenView::Number(t)],
        JsonView::Str(x) => seq![TokenView::String(x)],
        JsonView::Array(a) => seq![TokenView::LeftParen] + items_tokens(a) + seq![TokenView::RightParen],
        JsonView::Object(es) => seq![TokenView::LeftBrace] + entries_tokens(es) + seq![TokenView::RightBrace],
    }
}

/// The tokens of the items of an array.
pub open spec fn items_tokens(a: Seq<JsonView>) -> Seq<TokenView>
    decreases a,
{
    if a.len() == 0 {
        seq![]
    } else {
        value_tokens(a[0]) + sep_tokens(a.len() == 1) + items_tokens(a.subrange(1, a.len() as int))
    }
}

/// The tokens of the entries of an object.
pub open spec fn entries_tokens(es: Seq<(Seq<char>, JsonView)>) -> Seq<TokenView>
    decreases es,
{
    if es.len() == 0 {
        seq![]
    } else {
        seq![TokenView::String(es[0].0), TokenView::Collon] + value_tokens(es[0].1) + sep_tokens(
            es.len() == 1,
        ) + entries_tokens(es.subrange(1, es.len() as int))
    }
}

/// Lexing the dump of a value gives the tokens of the value.
proof fn lemma_lex_value(ind: nat, v: JsonView, level: nat, s: Seq<char>, p: nat)
    requires
        v.wf(),
        quote_free(v),
        holds_at(s, p as int, spec_dump(ind, v, level)),
        follow_ok(s, p + spec_dump(ind, v, level).len() as int),
    ensures
        lex_stream(s, p) == prepend_all(
            value_tokens(v),
            lex_stream(s, p + spec_dump(ind, v, level).len()),
        ),
    decreases v,
{
    let d = spec_dump(ind, v, level);
    match v {
        JsonView::Null => {
            lemma_lex_keyword(s, p, "null"@, TokenView::Null);
        },
        JsonView::Bool(b) => {
            if b {
                lemma_lex_keyword(s, p, "true"@, TokenView::Boolean(true));
            } else {
                lemma_lex_keyword(s, p, "false"@, TokenView::Boolean(false));
            }
        },
        JsonView::Number(t) => {
            lemma_lex_number(s, p, t);
        },
        JsonView::Str(x) => {
            reveal_strlit("\"");
            lemma_lex_string(s, p, x);
        },
        JsonView::Array(a) => {
            reveal_strlit("[\n");
            reveal_strlit("]");
            let open = "[\n"@;
            let body = dump_items(ind, a, level);
            let w = spaces(ind * level);
            let close = "]"@;
            assert(d == open + body + w + close);
            lemma_holds_split(s, p as int, open + body + w, close);
            lemma_holds_split(s, p as int, open + body, w);
            lemma_holds_split(s, p as int, open, body);
            lemma_holds_char(s, p as int, open, 0);
            lemma_holds_char(s, p as int, open, 1);
            let q1 = p + 2;
            let q2 = q1 + body.len();
            let q3 = q2 + w.len();
            lemma_lex_punct(s, p, '[', TokenView::LeftParen);
            lemma_lex_ws(s, p + 1);
            lemma_lex_items(ind, a, level, s, q1);
            lemma_lex_spaces(s, q2, ind * level);
            lemma_holds_char(s, q3 as int, close, 0);
            lemma_lex_punct(s, q3, ']', TokenView::RightParen);
            let rest = lex_stream(s, q3 + 1);
            assert(prepend_all(value_tokens(v), rest).toks =~= (seq![TokenView::LeftParen] + (
            items_tokens(a) + (seq![TokenView::RightParen] + rest.toks))));
        },
        JsonView::Object(es) => {
            reveal_strlit("{\n");
            reveal_strlit("}");
            let open = "{\n"@;
            let body = dump_entries(ind, es, level);
            let w = spaces(ind * level);
            let close = "}"@;
            assert(d == open + body + w + close);
            lemma_holds_split(s, p as int, open + body + w, close);
            lemma_holds_split(s, p as int, open + body, w);
            lemma_holds_split(s, p as int, open, body);
            lemma_holds_char(s, p as int, open, 0);
            lemma_holds_char(s, p as int, open, 1);
            let q1 = p + 2;
            let q2 = q1 + body.len();
            let q3 = q2 + w.len();
            lemma_lex_punct(s, p, '{', TokenView::LeftBrace);
            lemma_lex_ws(s, p + 1);
            lemma_lex_entries(ind, es, level, s, q1);
            lemma_lex_spaces(s, q2, ind * level);
            lemma_holds_char(s, q3 as int, close, 0);
            lemma_lex_punct(s, q3, '}', TokenView::RightBrace);
            let rest = lex_stream(s, q3 + 1);
            assert(prepend_all(value_tokens(v), rest).toks =~= (seq![TokenView::LeftBrace] + (
            entries_tokens(es) + (seq![TokenView::RightBrace] + rest.toks))));
        },
    }
}

/// After the separator of an item, lexing goes on after the newline; a
/// comma separator gives a comma token.
proof fn lemma_lex_sep(s: Seq<char>, e: nat, last: bool)
    requires
        holds_at(s, e as int, item_sep(last)),
    ensures
        follow_ok(s, e as int),
        lex_stream(s, e) == prepend_all(sep_tokens(last), lex_stream(s, e + item_sep(last).len())),
{
    reveal_strlit("\n");
    reveal_strlit(",\n");
    let sep = item_sep(last);
    lemma_holds_char(s, e as int, sep, 0);
    if last {
        lemma_lex_ws(s, e);
        assert(prepend_all(sep_tokens(last), lex_stream(s, e + 1)).toks =~= lex_stream(s, e + 1).toks);
    } else {
        lemma_holds_char(s, e as int, sep, 1);
        lemma_lex_punct(s, e, ',', TokenView::Comma);
        lemma_lex_ws(s, e + 1);
    }
}

/// Lexing the dump of the items of an array gives their tokens.
proof fn lemma_lex_items(ind: nat, a: Seq<JsonView>, level: nat, s: Seq<char>, p: nat)
    requires
        forall|i: int| 0 <= i < a.len() ==> (#[trigger] a[i]).wf() && quote_free(a[i]),
        holds_at(s, p as int, dump_items(ind, a, level)),
    ensures
        lex_stream(s, p) == prepend_all(
            items_tokens(a),
            lex_stream(s, p + dump_items(ind, a, level).len()),
        ),
    decreases a,
{
    if a.len() == 0 {
        assert(prepend_all(items_tokens(a), lex_stream(s, p)).toks =~= lex_stream(s, p).toks);
    } else {
        let w1 = spaces(ind * (level + 1));
        let dv = spec_dump(ind, a[0], level + 1);
        let sep = item_sep(a.len() == 1);
        let tail = a.subrange(1, a.len() as int);
        let r = dump_items(ind, tail, level);
        lemma_holds_split(s, p as int, w1 + dv + sep, r);
        lemma_holds_split(s, p as int, w1 + dv, sep);
        lemma_holds_split(s, p as int, w1, dv);
        let q1 = p + w1.len();
        let e = q1 + dv.len();
        let q2 = e + sep.len();
        lemma_lex_spaces(s, p, ind * (level + 1));
        lemma_lex_sep(s, e, a.len() == 1);
        lemma_lex_value(ind, a[0], level + 1, s, q1);
        assert forall|i: int| 0 <= i < tail.len() implies (#[trigger] tail[i]).wf() && quote_free(
            tail[i],
        ) by {
            assert(tail[i] == a[i + 1]);
        }
        lemma_lex_items(ind, tail, level, s, q2);
        let rest = lex_stream(s, q2 + r.len());
        assert(prepend_all(items_tokens(a), rest).toks =~= value_tokens(a[0]) + (sep_tokens(
            a.len() == 1,
        ) + (items_tokens(tail) + rest.toks)));
    }
}

/// Lexing the dump of the entries of an object gives their tokens.
#[verifier::rlimit(40)]
proof fn lemma_lex_entries(
    ind: nat,
    es: Seq<(Seq<char>, JsonView)>,
    level: nat,
    s: Seq<char>,
    p: nat,
)
    requires
        forall|i: int|
            0 <= i < es.len() ==> (#[trigger] es[i]).1.wf() && quote_free(es[i].1) && !es[i].0.contains(
                '"',
            ),
        holds_at(s, p as int, dump_entries(ind, es, level)),
    ensures
        lex_stream(s, p) == prepend_all(
            entries_tokens(es),
            lex_stream(s, p + dump_entries(ind, es, level).len()),
        ),
    decreases es,
{
    if es.len() == 0 {
        assert(prepend_all(entries_tokens(es), lex_stream(s, p)).toks =~= lex_stream(s, p).toks);
    } else {
        reveal_strlit("\"");
        reveal_strlit("\": ");
        let w1 = spaces(ind * (level + 1));
        let k = es[0].0;
        let key = "\""@ + k + "\""@;
        let colon = seq![':', ' '];
        let dv = spec_dump(ind, es[0].1, level + 1);
        let sep = item_sep(es.len() == 1);
        let tail = es.subrange(1, es.len() as int);
        let r = dump_entries(ind, tail, level);
        assert(dump_entries(ind, es, level) =~= w1 + key + colon + dv + sep + r);
        lemma_holds_split(s, p as int, w1 + key + colon + dv + sep, r);
        lemma_holds_split(s, p as int, w1 + key + colon + dv, sep);
        lemma_holds_split(s, p as int, w1 + key + colon, dv);
        lemma_holds_split(s, p as int, w1 + key, colon);
        lemma_holds_split(s, p as int, w1, key);
        let q1 = p + w1.len();
        let q2 = q1 + key.len();
        let q3 = q2 + 2;
        let e = q3 + dv.len();
        let q4 = e + sep.len();
        lemma_lex_spaces(s, p, ind * (level + 1));
        lemma_lex_string(s, q1, k);
        lemma_holds_char(s, q2 as int, colon, 0);
        lemma_holds_char(s, q2 as int, colon, 1);
        lemma_lex_punct(s, q2, ':', TokenView::Collon);
        lemma_lex_ws(s, q2 + 1);
        lemma_lex_sep(s, e, es.len() == 1);
        lemma_lex_value(ind, es[0].1, level + 1, s, q3);
        assert forall|i: int| 0 <= i < tail.len() implies (#[trigger] tail[i]).1.wf() && quote_free(
            tail[i].1,
        ) && !tail[i].0.contains('"') by {
            assert(tail[i] == es[i + 1]);
        }
        lemma_lex_entries(ind, tail, level, s, q4);
        let rest = lex_stream(s, q4 + r.len());
        assert(prepend_all(entries_tokens(es), rest).toks =~= seq![TokenView::String(k)] + (seq![
            TokenView::Collon,
        ] + (value_tokens(es[0].1) + (sep_tokens(es.len() == 1) + (entries_tokens(tail)
            + rest.toks)))));
    }
}

/// The first token of a value opens it or is the whole value.
proof fn lemma_first_token(v: JsonView)
    ensures
        value_tokens(v).len() >= 1,
        !(value_tokens(v)[0] is RightParen),
        !(value_tokens(v)[0] is RightBrace),
        !(value_tokens(v)[0] is Comma),
        !(value_tokens(v)[0] is Eof),
        !(value_tokens(v)[0] is Collon),
{
}

/// Parsing the tokens of a value gives the value back.
#[verifier::spinoff_prover]
#[verifier::rlimit(40)]
proof fn lemma_parse_value(st: TokenStream, i: int, v: JsonView)
    requires
        v.wf(),
        holds_at(st.toks, i, value_tokens(v)),
        tok_at(st, i + value_tokens(v).len()) is Some,
    ensures
        spec_value(st, i) == Outcome::Done((v, i + value_tokens(v).len())),
    decreases v, 0int,
{
    let n = value_tokens(v).len();
    lemma_holds_char(st.toks, i, value_tokens(v), 0);
    match v {
        JsonView::Array(a) => {
            let it = items_tokens(a);
            lemma_holds_split(st.toks, i, seq![TokenView::LeftParen] + it, seq![TokenView::RightParen]);
            lemma_holds_split(st.toks, i, seq![TokenView::LeftParen], it);
            lemma_holds_char(st.toks, i + 1 + it.len(), seq![TokenView::RightParen], 0);
            assert(tok_at(st, i + 1) is Some);
            if a.len() == 0 {
                assert(spec_array(st, i) == Outcome::Done((JsonView::Array(seq![]), i + 2)));
                assert(a =~= seq![]);
            } else {
                let a0 = a[0];
                let tail = a.subrange(1, a.len() as int);
                let n0 = value_tokens(a0).len();
                let after = sep_tokens(tail.len() == 0) + items_tokens(tail);
                assert(it == value_tokens(a0) + after);
                lemma_holds_split(st.toks, i + 1, value_tokens(a0), after);
                lemma_first_token(a0);
                lemma_holds_char(st.toks, i + 1, value_tokens(a0), 0);
                lemma_holds_join(st.toks, i + 1 + n0, after, seq![TokenView::RightParen]);
                if after.len() > 0 {
                    lemma_holds_char(st.toks, i + 1 + n0, after, 0);
                }
                lemma_parse_value(st, i + 1, a0);
                lemma_parse_array_rest(st, i + 1 + n0, seq![a0], tail);
                assert(seq![a0] + tail =~= a);
            }
        },
        JsonView::Object(es) => {
            let et = entries_tokens(es);
            lemma_holds_split(st.toks, i, seq![TokenView::LeftBrace] + et, seq![TokenView::RightBrace]);
            lemma_holds_split(st.toks, i, seq![TokenView::LeftBrace], et);
            lemma_holds_char(st.toks, i + 1 + et.len(), seq![TokenView::RightBrace], 0);
            assert(tok_at(st, i + 1) is Some);
            if es.len() == 0 {
                assert(spec_object(st, i) == Outcome::Done((JsonView::Object(seq![]), i + 2)));
                assert(es =~= seq![]);
            } else {
                let k0 = es[0].0;
                let v0 = es[0].1;
                let tail = es.subrange(1, es.len() as int);
                let n0 = value_tokens(v0).len();
                let head = seq![TokenView::String(k0), TokenView::Collon] + value_tokens(v0);
                let after = sep_tokens(tail.len() == 0) + entries_tokens(tail);
                assert(et == head + after);
                lemma_holds_split(st.toks, i + 1, head, after);
                lemma_holds_split(st.toks, i + 1, seq![TokenView::String(k0), TokenView::Collon], value_tokens(v0));
                lemma_holds_char(st.toks, i + 1, head, 0);
                lemma_holds_char(st.toks, i + 1, head, 1);
                lemma_holds_split(st.toks, i + 1, head, after);
                lemma_holds_join(st.toks, i + 3 + n0, after, seq![TokenView::RightBrace]);
                if after.len() > 0 {
                    lemma_holds_char(st.toks, i + 3 + n0, after, 0);
                }
                lemma_parse_value(st, i + 3, v0);
                assert(spec_property(st, i + 1) == Outcome::Done((k0, v0, i + 3 + n0)));
                assert(obj_insert(seq![], k0, v0) == seq![es[0]]);
                assert(seq![es[0]] + tail =~= es);
                lemma_parse_object_rest(st, i + 3 + n0, seq![es[0]], tail);
            }
        },
        _ => {},
    }
}

/// Parsing the tokens of the items after the first ones gives the array back.
proof fn lemma_parse_array_rest(st: TokenStream, j: int, acc: Seq<JsonView>, tail: Seq<JsonView>)
    requires
        forall|k: int| 0 <= k < tail.len() ==> (#[trigger] tail[k]).wf(),
        holds_at(
            st.toks,
            j,
            sep_tokens(tail.len() == 0) + items_tokens(tail) + seq![TokenView::RightParen],
        ),
        tok_at(
            st,
            j + (sep_tokens(tail.len() == 0) + items_tokens(tail) + seq![TokenView::RightParen]).len(),
        ) is Some,
    ensures
        spec_array_rest(st, j, acc) == Outcome::Done(
            (
                JsonView::Array(acc + tail),
                j + (sep_tokens(tail.len() == 0) + items_tokens(tail) + seq![
                    TokenView::RightParen,
                ]).len(),
            ),
        ),
    decreases tail, 1int,
{
    let ts = sep_tokens(tail.len() == 0) + items_tokens(tail) + seq![TokenView::RightParen];
    lemma_holds_char(st.toks, j, ts, 0);
    if tail.len() == 0 {
        assert(acc + tail =~= acc);
    } else {
        let t0 = tail[0];
        let tail2 = tail.subrange(1, tail.len() as int);
        let n0 = value_tokens(t0).len();
        let after = sep_tokens(tail2.len() == 0) + items_tokens(tail2) + seq![TokenView::RightParen];
        assert(ts =~= seq![TokenView::Comma] + value_tokens(t0) + after);
        lemma_holds_split(st.toks, j, seq![TokenView::Comma] + value_tokens(t0), after);
        lemma_holds_split(st.toks, j, seq![TokenView::Comma], value_tokens(t0));
        lemma_first_token(t0);
        lemma_holds_char(st.toks, j + 1, value_tokens(t0), 0);
        lemma_holds_char(st.toks, j + 1 + n0, after, 0);
        lemma_parse_value(st, j + 1, t0);
        assert forall|k: int| 0 <= k < tail2.len() implies (#[trigger] tail2[k]).wf() by {
            assert(tail2[k] == tail[k + 1]);
        }
        lemma_parse_array_rest(st, j + 1 + n0, acc.push(t0), tail2);
        assert(acc.push(t0) + tail2 =~= acc + tail);
    }
}

/// Parsing the tokens of the entries after the first ones gives the object
/// back, when the keys increase.
proof fn lemma_parse_object_rest(
    st: TokenStream,
    j: int,
    acc: Seq<(Seq<char>, JsonView)>,
    tail: Seq<(Seq<char>, JsonView)>,
)
    requires
        keys_sorted(acc + tail),
        forall|k: int| 0 <= k < tail.len() ==> (#[trigger] tail[k]).1.wf(),
        holds_at(
            st.toks,
            j,
            sep_tokens(tail.len() == 0) + entries_tokens(tail) + seq![TokenView::RightBrace],
        ),
        tok_at(
            st,
            j + (sep_tokens(tail.len() == 0) + entries_tokens(tail) + seq![TokenView::RightBrace]).len(),
        ) is Some,
    ensures
        spec_object_rest(st, j, acc) == Outcome::Done(
            (
                JsonView::Object(acc + tail),
                j + (sep_tokens(tail.len() == 0) + entries_tokens(tail) + seq![
                    TokenView::RightBrace,
                ]).len(),
            ),
        ),
    decreases tail, 1int,
{
    let ts = sep_tokens(tail.len() == 0) + entries_tokens(tail) + seq![TokenView::RightBrace];
    lemma_holds_char(st.toks, j, ts, 0);
    if tail.len() == 0 {
        assert(acc + tail =~= acc);
    } else {
        let k0 = tail[0].0;
        let v0 = tail[0].1;
        let tail2 = tail.subrange(1, tail.len() as int);
        let n0 = value_tokens(v0).len();
        let head = seq![TokenView::String(k0), TokenView::Collon] + value_tokens(v0);
        let after = sep_tokens(tail2.len() == 0) + entries_tokens(tail2) + seq![TokenView::RightBrace];
        assert(ts =~= seq![TokenView::Comma] + head + after);
        lemma_holds_split(st.toks, j, seq![TokenView::Comma] + head, after);
        lemma_holds_split(st.toks, j, seq![TokenView::Comma], head);
        lemma_holds_split(st.toks, j + 1, seq![TokenView::String(k0), TokenView::Collon], value_tokens(v0));
        lemma_holds_char(st.toks, j + 1, head, 0);
        lemma_holds_char(st.toks, j + 1, head, 1);
        lemma_holds_char(st.toks, j + 3 + n0, after, 0);
        lemma_parse_value(st, j + 3, v0);
        assert(spec_property(st, j + 1) == Outcome::Done((k0, v0, j + 3 + n0)));
        assert forall|m: int| 0 <= m < acc.len() implies key_lt(#[trigger] acc[m].0, k0) by {
            assert((acc + tail)[m] == acc[m]);
            assert((acc + tail)[acc.len() as int] == tail[0]);
        }
        lemma_obj_insert_at(acc, k0, v0, acc.len() as int);
        assert(obj_insert(acc, k0, v0) =~= acc.push(tail[0]));
        assert forall|k: int| 0 <= k < tail2.len() implies (#[trigger] tail2[k]).1.wf() by {
            assert(tail2[k] == tail[k + 1]);
        }
        assert(acc.push(tail[0]) + tail2 =~= acc + tail);
        lemma_parse_object_rest(st, j + 3 + n0, acc.push(tail[0]), tail2);
    }
}

/// Dumping a well-formed value whose strings hold no double quote and
/// parsing the text gives the value back, whatever the indentation.
pub proof fn lemma_dump_parse_roundtrip(indent: nat, v: JsonView)
    requires
        v.wf(),
        quote_free(v),
    ensures
        spec_parse_json(spec_dump(indent, v, 0)) == Outcome::Done(v),
{
    let s = spec_dump(indent, v, 0);
    assert(s.subrange(0, s.len() as int) =~= s);
    lemma_lex_value(indent, v, 0, s, 0);
    let end = lex_stream(s, s.len());
    assert(end == TokenStream { toks: seq![], end: StreamEnd::Eof });
    let st = lex_stream(s, 0);
    assert(st.toks =~= value_tokens(v));
    let n = value_tokens(v).len();
    assert(st.toks.subrange(0, n as int) =~= value_tokens(v));
    lemma_parse_value(st, 0, v);
    lemma_first_token(v);
}

/// Text made only of whitespace (the empty text among it) parses to `null`.
pub proof fn lemma_blank_text_is_null(s: Seq<char>)
    requires
        forall|k: int| 0 <= k < s.len() ==> spec_is_whitespace(#[trigger] s[k]),
    ensures
        spec_parse_json(s) == Outcome::Done(JsonView::Null),
{
    assert(s.subrange(0, s.len() as int) =~= s);
    lemma_lex_ws_run(s, 0, s);
    assert(lex_stream(s, s.len()) == TokenStream { toks: seq![], end: StreamEnd::Eof });
}

} // verus!
