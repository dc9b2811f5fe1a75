use vstd::prelude::*;

use crate::lexer::{lemma_lex_stream_no_eof, lex_stream, StreamEnd, TokenStream};
use crate::parser::{
    advance, eat, spec_array, spec_array_rest, spec_json, spec_object, spec_object_rest,
    spec_parse_json, spec_property, spec_value, tok_at, Outcome,
};
use crate::roundtrip::{holds_at, lemma_holds_char, lemma_holds_join, lemma_holds_split};
use crate::error::ErrorView;
use crate::tokens::{token_debug_text, TokenView};
use crate::value::{obj_insert, JsonView};

verus! {

/// A JSON text as written: a string, a number, a boolean, `null`, an array of
/// items, or an object of members in the order they are written (a key may
/// stand more than once).
pub enum Tree {
    Str(Seq<char>),
    Num(Seq<char>),
    Bool(bool),
    Null,
    Array(Seq<Tree>),
    Object(Seq<(Seq<char>, Tree)>),
}

/// The tokens of a written value: a leaf is one token; an array is `[`, its
/// items separated by commas, `]`; an object is `{`, its members
/// `"key" : value` separated by commas, `}`.
pub open spec fn tree_tokens(t: Tree) -> Seq<TokenView>
    decreases t,
{
    match t {
        Tree::Str(s) => seq![TokenView::String(s)],
        Tree::Num(n) => seq![TokenView::Number(n)],
        Tree::Bool(b) => seq![TokenView::Boolean(b)],
        Tree::Null => seq![TokenView::Null],
        Tree::Array(a) => seq![TokenView::LeftParen] + trees_tokens(a) + seq![TokenView::RightParen],
        Tree::Object(ms) => seq![TokenView::LeftBrace] + members_tokens(ms) + seq![
            TokenView::RightBrace,
        ],
    }
}

/// The tokens of array items, separated by commas.
pub open spec fn trees_tokens(a: Seq<Tree>) -> Seq<TokenView>
    decreases a,
{
    if a.len() == 0 {
        seq![]
    } else {
        tree_tokens(a[0]) + more_trees_tokens(a.subrange(1, a.len() as int))
    }
}

/// The tokens of array items that follow a first one: each after a comma.
pub open spec fn more_trees_tokens(a: Seq<Tree>) -> Seq<TokenView>
    decreases a,
{
    if a.len() == 0 {
        seq![]
    } else {
        seq![TokenView::Comma] + tree_tokens(a[0]) + more_trees_tokens(a.subrange(1, a.len() as int))
    }
}

/// The tokens of object members, separated by commas.
pub open spec fn members_tokens(ms: Seq<(Seq<char>, Tree)>) -> Seq<TokenView>
    decreases ms,
{
    if ms.len() == 0 {
        seq![]
    } else {
        seq![TokenView::String(ms[0].0), TokenView::Collon] + tree_tokens(ms[0].1)
            + more_members_tokens(ms.subrange(1, ms.len() as int))
    }
}

/// The tokens of object members that follow a first one: each after a comma.
pub open spec fn more_members_tokens(ms: Seq<(Seq<char>, Tree)>) -> Seq<TokenView>
    decreases ms,
{
    if ms.len() == 0 {
        seq![]
    } else {
        seq![TokenView::Comma, TokenView::String(ms[0].0), TokenView::Collon] + tree_tokens(ms[0].1)
            + more_members_tokens(ms.subrange(1, ms.len() as int))
    }
}

/// The value a written text stands for: an array holds the values of its
/// items in order; an object binds each key to the value of the last member
/// with that key.
pub open spec fn tree_value(t: Tree) -> JsonView
    decreases t,
{
    match t {
        Tree::Str(s) => JsonView::Str(s),
        Tree::Num(n) => JsonView::Number(n),
        Tree::Bool(b) => JsonView::Bool(b),
        Tree::Null => JsonView::Null,
        Tree::Array(a) => JsonView::Array(trees_values(a)),
        Tree::Object(ms) => JsonView::Object(members_value(ms, seq![])),
    }
}

/// The values of array items, in order.
pub open spec fn trees_values(a: Seq<Tree>) -> Seq<JsonView>
    decreases a,
{
    if a.len() == 0 {
        seq![]
    } else {
        seq![tree_value(a[0])] + trees_values(a.subrange(1, a.len() as int))
    }
}

/// The entries `acc` with the members `ms` bound one after the other, a
/// later binding of a key replacing an earlier one.
pub open spec fn members_value(
    ms: Seq<(Seq<char>, Tree)>,
    acc: Seq<(Seq<char>, JsonView)>,
) -> Seq<(Seq<char>, JsonView)>
    decreases ms,
{
    if ms.len() == 0 {
        acc
    } else {
        members_value(ms.subrange(1, ms.len() as int), obj_insert(acc, ms[0].0, tree_value(ms[0].1)))
    }
}

proof fn lemma_single<A>(s: Seq<A>, i: int)
    requires
        0 <= i < s.len(),
    ensures
        holds_at(s, i, seq![s[i]]),
{
    assert(s.subrange(i, i + 1) =~= seq![s[i]]);
}

/// A value that parses stands for the tokens of a written value, and the
/// result is that value.
proof fn lemma_value_tree(st: TokenStream, i: int) -> (t: Tree)
    requires
        spec_value(st, i) is Done,
    ensures
        holds_at(st.toks, i, tree_tokens(t)),
        spec_value(st, i) == Outcome::Done((tree_value(t), i + tree_tokens(t).len())),
    decreases st.toks.len() - i, 2int,
{
    let c = tok_at(st, i)->0;
    assert(0 <= i < st.toks.len());
    lemma_single(st.toks, i);
    match c {
        TokenView::LeftBrace => lemma_object_tree(st, i),
        TokenView::LeftParen => lemma_array_tree(st, i),
        TokenView::String(s) => Tree::Str(s),
        TokenView::Number(n) => Tree::Num(n),
        TokenView::Boolean(b) => Tree::Bool(b),
        _ => Tree::Null,
    }
}

proof fn lemma_object_tree(st: TokenStream, i: int) -> (t: Tree)
    requires
        0 <= i < st.toks.len(),
        st.toks[i] == TokenView::LeftBrace,
        spec_object(st, i) is Done,
    ensures
        holds_at(st.toks, i, tree_tokens(t)),
        spec_object(st, i) == Outcome::Done((tree_value(t), i + tree_tokens(t).len())),
    decreases st.toks.len() - i, 1int,
{
    let i1 = i + 1;
    lemma_single(st.toks, i);
    if tok_at(st, i1) == Some(TokenView::RightBrace) {
        assert(i1 < st.toks.len());
        lemma_single(st.toks, i1);
        lemma_holds_join(st.toks, i, seq![TokenView::LeftBrace], seq![TokenView::RightBrace]);
        let t = Tree::Object(seq![]);
        assert(tree_tokens(t) =~= seq![TokenView::LeftBrace] + seq![TokenView::RightBrace]);
        t
    } else {
        let (k, m0) = lemma_property_tree(st, i1);
        let i2 = i1 + 2 + tree_tokens(m0).len();
        let es = obj_insert(seq![], k, tree_value(m0));
        let rest = lemma_object_rest_tree(st, i2, es);
        let ms = seq![(k, m0)] + rest;
        let head = seq![TokenView::String(k), TokenView::Collon] + tree_tokens(m0);
        lemma_holds_join(st.toks, i, seq![TokenView::LeftBrace], head);
        lemma_holds_join(
            st.toks,
            i,
            seq![TokenView::LeftBrace] + head,
            more_members_tokens(rest) + seq![TokenView::RightBrace],
        );
        assert(ms.subrange(1, ms.len() as int) =~= rest);
        assert(members_tokens(ms) == head + more_members_tokens(rest));
        let t = Tree::Object(ms);
        assert(tree_tokens(t) =~= seq![TokenView::LeftBrace] + head + (more_members_tokens(rest)
            + seq![TokenView::RightBrace]));
        assert(members_value(ms, seq![]) == members_value(rest, es));
        t
    }
}

/// A property that parses is a key, a colon and a written value.
proof fn lemma_property_tree(st: TokenStream, i: int) -> (r: (Seq<char>, Tree))
    requires
        spec_property(st, i) is Done,
    ensures
        holds_at(
            st.toks,
            i,
            seq![TokenView::String(r.0), TokenView::Collon] + tree_tokens(r.1),
        ),
        spec_property(st, i) == Outcome::Done((r.0, tree_value(r.1), i + 2 + tree_tokens(r.1).len())),
    decreases st.toks.len() - i, 1int,
{
    let k = tok_at(st, i)->0->String_0;
    assert(0 <= i < st.toks.len());
    assert(tok_at(st, i + 1) == Some(TokenView::Collon));
    assert(i + 1 < st.toks.len());
    let t = lemma_value_tree(st, i + 2);
    lemma_single(st.toks, i);
    lemma_single(st.toks, i + 1);
    lemma_holds_join(st.toks, i, seq![TokenView::String(k)], seq![TokenView::Collon]);
    assert(seq![TokenView::String(k)] + seq![TokenView::Collon] =~= seq![
        TokenView::String(k),
        TokenView::Collon,
    ]);
    lemma_holds_join(st.toks, i, seq![TokenView::String(k), TokenView::Collon], tree_tokens(t));
    (k, t)
}

/// The rest of an object that parses is its further members, each after a
/// comma, and the closing brace.
proof fn lemma_object_rest_tree(st: TokenStream, i: int, es: Seq<(Seq<char>, JsonView)>) -> (ms: Seq<
    (Seq<char>, Tree),
>)
    requires
        0 <= i,
        spec_object_rest(st, i, es) is Done,
    ensures
        holds_at(st.toks, i, more_members_tokens(ms) + seq![TokenView::RightBrace]),
        spec_object_rest(st, i, es) == Outcome::Done(
            (
                JsonView::Object(members_value(ms, es)),
                i + (more_members_tokens(ms) + seq![TokenView::RightBrace]).len(),
            ),
        ),
    decreases st.toks.len() - i, 0int,
{
    assert(0 <= i < st.toks.len());
    lemma_single(st.toks, i);
    if tok_at(st, i) == Some(TokenView::Comma) {
        let i1 = i + 1;
        let (k, m0) = lemma_property_tree(st, i1);
        let i2 = i1 + 2 + tree_tokens(m0).len();
        let es2 = obj_insert(es, k, tree_value(m0));
        let rest = lemma_object_rest_tree(st, i2, es2);
        let ms = seq![(k, m0)] + rest;
        let head = seq![TokenView::String(k), TokenView::Collon] + tree_tokens(m0);
        lemma_holds_join(st.toks, i, seq![TokenView::Comma], head);
        lemma_holds_join(
            st.toks,
            i,
            seq![TokenView::Comma] + head,
            more_members_tokens(rest) + seq![TokenView::RightBrace],
        );
        assert(ms.subrange(1, ms.len() as int) =~= rest);
        assert(more_members_tokens(ms) =~= seq![TokenView::Comma] + head + more_members_tokens(rest));
        assert(more_members_tokens(ms) + seq![TokenView::RightBrace] =~= seq![TokenView::Comma]
            + head + (more_members_tokens(rest) + seq![TokenView::RightBrace]));
        ms
    } else {
        let ms = Seq::<(Seq<char>, Tree)>::empty();
        assert(more_members_tokens(ms) + seq![TokenView::RightBrace] =~= seq![TokenView::RightBrace]);
        ms
    }
}

proof fn lemma_array_tree(st: TokenStream, i: int) -> (t: Tree)
    requires
        0 <= i < st.toks.len(),
        st.toks[i] == TokenView::LeftParen,
        spec_array(st, i) is Done,
    ensures
        holds_at(st.toks, i, tree_tokens(t)),
        spec_array(st, i) == Outcome::Done((tree_value(t), i + tree_tokens(t).len())),
    decreases st.toks.len() - i, 1int,
{
    let i1 = i + 1;
    lemma_single(st.toks, i);
    if tok_at(st, i1) == Some(TokenView::RightParen) {
        assert(i1 < st.toks.len());
        lemma_single(st.toks, i1);
        lemma_holds_join(st.toks, i, seq![TokenView::LeftParen], seq![TokenView::RightParen]);
        let t = Tree::Array(seq![]);
        assert(tree_tokens(t) =~= seq![TokenView::LeftParen] + seq![TokenView::RightParen]);
        t
    } else {
        let a0 = lemma_value_tree(st, i1);
        let i2 = i1 + tree_tokens(a0).len();
        let rest = lemma_array_rest_tree(st, i2, seq![tree_value(a0)]);
        let a = seq![a0] + rest;
        lemma_holds_join(st.toks, i, seq![TokenView::LeftParen], tree_tokens(a0));
        lemma_holds_join(
            st.toks,
            i,
            seq![TokenView::LeftParen] + tree_tokens(a0),
            more_trees_tokens(rest) + seq![TokenView::RightParen],
        );
        assert(a.subrange(1, a.len() as int) =~= rest);
        let t = Tree::Array(a);
        assert(tree_tokens(t) =~= seq![TokenView::LeftParen] + tree_tokens(a0) + (more_trees_tokens(
            rest,
        ) + seq![TokenView::RightParen]));
        assert(trees_values(a) == seq![tree_value(a0)] + trees_values(rest));
        t
    }
}

/// The rest of an array that parses is its further items, each after a
/// comma, and the closing bracket.
proof fn lemma_array_rest_tree(st: TokenStream, i: int, vs: Seq<JsonView>) -> (a: Seq<Tree>)
    requires
        0 <= i,
        spec_array_rest(st, i, vs) is Done,
    ensures
        holds_at(st.toks, i, more_trees_tokens(a) + seq![TokenView::RightParen]),
        spec_array_rest(st, i, vs) == Outcome::Done(
            (
                JsonView::Array(vs + trees_values(a)),
                i + (more_trees_tokens(a) + seq![TokenView::RightParen]).len(),
            ),
        ),
    decreases st.toks.len() - i, 0int,
{
    assert(0 <= i < st.toks.len());
    lemma_single(st.toks, i);
    if tok_at(st, i) == Some(TokenView::Comma) {
        let i1 = i + 1;
        let a0 = lemma_value_tree(st, i1);
        let i2 = i1 + tree_tokens(a0).len();
        let rest = lemma_array_rest_tree(st, i2, vs.push(tree_value(a0)));
        let a = seq![a0] + rest;
        lemma_holds_join(st.toks, i, seq![TokenView::Comma], tree_tokens(a0));
        lemma_holds_join(
            st.toks,
            i,
            seq![TokenView::Comma] + tree_tokens(a0),
            more_trees_tokens(rest) + seq![TokenView::RightParen],
        );
        assert(a.subrange(1, a.len() as int) =~= rest);
        assert(more_trees_tokens(a) + seq![TokenView::RightParen] =~= seq![TokenView::Comma]
            + tree_tokens(a0) + (more_trees_tokens(rest) + seq![TokenView::RightParen]));
        assert(trees_values(a) == seq![tree_value(a0)] + trees_values(rest));
        assert(vs.push(tree_value(a0)) + trees_values(rest) =~= vs + trees_values(a));
        a
    } else {
        let a = Seq::<Tree>::empty();
        assert(more_trees_tokens(a) + seq![TokenView::RightParen] =~= seq![TokenView::RightParen]);
        assert(vs + trees_values(a) =~= vs);
        a
    }
}

/// The first token of a written value opens it or is all of it.
proof fn lemma_tree_first_token(t: Tree)
    ensures
        tree_tokens(t).len() >= 1,
        tree_tokens(t)[0] is LeftBrace || tree_tokens(t)[0] is LeftParen || tree_tokens(t)[0] is String
            || tree_tokens(t)[0] is Number || tree_tokens(t)[0] is Boolean || tree_tokens(t)[0] is Null,
{
}

/// The tokens of a written value, followed by any token, parse to the value it
/// stands for.
proof fn lemma_tree_parses(st: TokenStream, i: int, t: Tree)
    requires
        holds_at(st.toks, i, tree_tokens(t)),
        tok_at(st, i + tree_tokens(t).len()) is Some,
    ensures
        spec_value(st, i) == Outcome::Done((tree_value(t), i + tree_tokens(t).len())),
    decreases t, 1int,
{
    lemma_holds_char(st.toks, i, tree_tokens(t), 0);
    match t {
        Tree::Array(a) => {
            let it = trees_tokens(a);
            lemma_holds_split(st.toks, i, seq![TokenView::LeftParen] + it, seq![TokenView::RightParen]);
            lemma_holds_split(st.toks, i, seq![TokenView::LeftParen], it);
            lemma_holds_char(st.toks, i + 1 + it.len(), seq![TokenView::RightParen], 0);
            assert(tok_at(st, i + 1) is Some);
            if a.len() == 0 {
                assert(it.len() == 0);
                assert(trees_values(a) =~= seq![]);
            } else {
                let a0 = a[0];
                let rest = a.subrange(1, a.len() as int);
                let n0 = tree_tokens(a0).len();
                let after = more_trees_tokens(rest) + seq![TokenView::RightParen];
                lemma_holds_split(st.toks, i + 1, tree_tokens(a0), more_trees_tokens(rest));
                lemma_holds_join(st.toks, i + 1 + n0, more_trees_tokens(rest), seq![TokenView::RightParen]);
                lemma_tree_first_token(a0);
                lemma_holds_char(st.toks, i + 1, tree_tokens(a0), 0);
                lemma_holds_char(st.toks, i + 1 + n0, after, 0);
                lemma_tree_parses(st, i + 1, a0);
                lemma_trees_rest_parse(st, i + 1 + n0, seq![tree_value(a0)], rest);
                assert(seq![tree_value(a0)] + trees_values(rest) == trees_values(a));
            }
        },
        Tree::Object(ms) => {
            let mt = members_tokens(ms);
            lemma_holds_split(st.toks, i, seq![TokenView::LeftBrace] + mt, seq![TokenView::RightBrace]);
            lemma_holds_split(st.toks, i, seq![TokenView::LeftBrace], mt);
            lemma_holds_char(st.toks, i + 1 + mt.len(), seq![TokenView::RightBrace], 0);
            assert(tok_at(st, i + 1) is Some);
            if ms.len() == 0 {
                assert(mt.len() == 0);
            } else {
                let k0 = ms[0].0;
                let t0 = ms[0].1;
                let rest = ms.subrange(1, ms.len() as int);
                let n0 = tree_tokens(t0).len();
                let head = seq![TokenView::String(k0), TokenView::Collon] + tree_tokens(t0);
                let after = more_members_tokens(rest) + seq![TokenView::RightBrace];
                lemma_holds_split(st.toks, i + 1, head, more_members_tokens(rest));
                lemma_holds_split(st.toks, i + 1, seq![TokenView::String(k0), TokenView::Collon], tree_tokens(t0));
                lemma_holds_char(st.toks, i + 1, head, 0);
                lemma_holds_char(st.toks, i + 1, head, 1);
                lemma_holds_join(st.toks, i + 3 + n0, more_members_tokens(rest), seq![TokenView::RightBrace]);
                lemma_holds_char(st.toks, i + 3 + n0, after, 0);
                lemma_tree_parses(st, i + 3, t0);
                assert(spec_property(st, i + 1) == Outcome::Done((k0, tree_value(t0), i + 3 + n0)));
                lemma_members_rest_parse(st, i + 3 + n0, obj_insert(seq![], k0, tree_value(t0)), rest);
            }
        },
        _ => {},
    }
}

proof fn lemma_trees_rest_parse(st: TokenStream, j: int, vs: Seq<JsonView>, a: Seq<Tree>)
    requires
        holds_at(st.toks, j, more_trees_tokens(a) + seq![TokenView::RightParen]),
        tok_at(st, j + (more_trees_tokens(a) + seq![TokenView::RightParen]).len()) is Some,
    ensures
        spec_array_rest(st, j, vs) == Outcome::Done(
            (
                JsonView::Array(vs + trees_values(a)),
                j + (more_trees_tokens(a) + seq![TokenView::RightParen]).len(),
            ),
        ),
    decreases a, 0int,
{
    let ts = more_trees_tokens(a) + seq![TokenView::RightParen];
    lemma_holds_char(st.toks, j, ts, 0);
    if a.len() == 0 {
        assert(vs + trees_values(a) =~= vs);
    } else {
        let a0 = a[0];
        let rest = a.subrange(1, a.len() as int);
        let n0 = tree_tokens(a0).len();
        let after = more_trees_tokens(rest) + seq![TokenView::RightParen];
        assert(ts =~= seq![TokenView::Comma] + tree_tokens(a0) + after);
        lemma_holds_split(st.toks, j, seq![TokenView::Comma] + tree_tokens(a0), after);
        lemma_holds_split(st.toks, j, seq![TokenView::Comma], tree_tokens(a0));
        lemma_tree_first_token(a0);
        lemma_holds_char(st.toks, j + 1, tree_tokens(a0), 0);
        lemma_holds_char(st.toks, j + 1 + n0, after, 0);
        lemma_tree_parses(st, j + 1, a0);
        lemma_trees_rest_parse(st, j + 1 + n0, vs.push(tree_value(a0)), rest);
        assert(trees_values(a) == seq![tree_value(a0)] + trees_values(rest));
        assert(vs.push(tree_value(a0)) + trees_values(rest) =~= vs + trees_values(a));
    }
}

proof fn lemma_members_rest_parse(
    st: TokenStream,
    j: int,
    acc: Seq<(Seq<char>, JsonView)>,
    ms: Seq<(Seq<char>, Tree)>,
)
    requires
        holds_at(st.toks, j, more_members_tokens(ms) + seq![TokenView::RightBrace]),
        tok_at(st, j + (more_members_tokens(ms) + seq![TokenView::RightBrace]).len()) is Some,
    ensures
        spec_object_rest(st, j, acc) == Outcome::Done(
            (
                JsonView::Object(members_value(ms, acc)),
                j + (more_members_tokens(ms) + seq![TokenView::RightBrace]).len(),
            ),
        ),
    decreases ms, 0int,
{
    let ts = more_members_tokens(ms) + seq![TokenView::RightBrace];
    lemma_holds_char(st.toks, j, ts, 0);
    if ms.len() > 0 {
        let k0 = ms[0].0;
        let t0 = ms[0].1;
        let rest = ms.subrange(1, ms.len() as int);
        let n0 = tree_tokens(t0).len();
        let head = seq![TokenView::String(k0), TokenView::Collon] + tree_tokens(t0);
        let after = more_members_tokens(rest) + seq![TokenView::RightBrace];
        assert(ts =~= seq![TokenView::Comma] + head + after);
        lemma_holds_split(st.toks, j, seq![TokenView::Comma] + head, after);
        lemma_holds_split(st.toks, j, seq![TokenView::Comma], head);
        lemma_holds_split(st.toks, j + 1, seq![TokenView::String(k0), TokenView::Collon], tree_tokens(t0));
        lemma_holds_char(st.toks, j + 1, head, 0);
        lemma_holds_char(st.toks, j + 1, head, 1);
        lemma_holds_char(st.toks, j + 3 + n0, after, 0);
        lemma_tree_parses(st, j + 3, t0);
        assert(spec_property(st, j + 1) == Outcome::Done((k0, tree_value(t0), j + 3 + n0)));
        lemma_members_rest_parse(st, j + 3 + n0, obj_insert(acc, k0, tree_value(t0)), rest);
    }
}

/// Every JSON text parses: the tokens of a written value, up to the end of the
/// text, parse to the value it stands for, whatever its keys (in any order,
/// one of them repeated) and however deep it nests.
pub proof fn lemma_json_texts_parse(t: Tree)
    ensures
        spec_json(TokenStream { toks: tree_tokens(t), end: StreamEnd::Eof }) == Outcome::Done(
            tree_value(t),
        ),
{
    let st = TokenStream { toks: tree_tokens(t), end: StreamEnd::Eof };
    assert(st.toks.subrange(0, st.toks.len() as int) =~= st.toks);
    lemma_tree_first_token(t);
    lemma_tree_parses(st, 0, t);
}

/// Further members of an object, each after a comma, are taken in one after
/// the other.
proof fn lemma_members_rest_skip(
    st: TokenStream,
    j: int,
    acc: Seq<(Seq<char>, JsonView)>,
    ms: Seq<(Seq<char>, Tree)>,
)
    requires
        holds_at(st.toks, j, more_members_tokens(ms)),
        tok_at(st, j + more_members_tokens(ms).len()) is Some,
    ensures
        spec_object_rest(st, j, acc) == spec_object_rest(
            st,
            j + more_members_tokens(ms).len(),
            members_value(ms, acc),
        ),
    decreases ms,
{
    if ms.len() > 0 {
        let k0 = ms[0].0;
        let t0 = ms[0].1;
        let rest = ms.subrange(1, ms.len() as int);
        let n0 = tree_tokens(t0).len();
        let head = seq![TokenView::String(k0), TokenView::Collon] + tree_tokens(t0);
        let after = more_members_tokens(rest);
        assert(more_members_tokens(ms) =~= seq![TokenView::Comma] + head + after);
        lemma_holds_split(st.toks, j, seq![TokenView::Comma] + head, after);
        lemma_holds_split(st.toks, j, seq![TokenView::Comma], head);
        lemma_holds_split(st.toks, j + 1, seq![TokenView::String(k0), TokenView::Collon], tree_tokens(t0));
        lemma_holds_char(st.toks, j, seq![TokenView::Comma] + head, 0);
        lemma_holds_char(st.toks, j + 1, head, 0);
        lemma_holds_char(st.toks, j + 1, head, 1);
        if after.len() > 0 {
            lemma_holds_char(st.toks, j + 3 + n0, after, 0);
        }
        lemma_tree_parses(st, j + 3, t0);
        assert(spec_property(st, j + 1) == Outcome::Done((k0, tree_value(t0), j + 3 + n0)));
        lemma_members_rest_skip(st, j + 3 + n0, obj_insert(acc, k0, tree_value(t0)), rest);
    }
}

/// Further items of an array, each after a comma, are taken in one after the
/// other.
proof fn lemma_trees_rest_skip(st: TokenStream, j: int, vs: Seq<JsonView>, a: Seq<Tree>)
    requires
        holds_at(st.toks, j, more_trees_tokens(a)),
        tok_at(st, j + more_trees_tokens(a).len()) is Some,
    ensures
        spec_array_rest(st, j, vs) == spec_array_rest(
            st,
            j + more_trees_tokens(a).len(),
            vs + trees_values(a),
        ),
    decreases a,
{
    if a.len() == 0 {
        assert(vs + trees_values(a) =~= vs);
    } else {
        let a0 = a[0];
        let rest = a.subrange(1, a.len() as int);
        let n0 = tree_tokens(a0).len();
        let after = more_trees_tokens(rest);
        assert(more_trees_tokens(a) =~= seq![TokenView::Comma] + tree_tokens(a0) + after);
        lemma_holds_split(st.toks, j, seq![TokenView::Comma] + tree_tokens(a0), after);
        lemma_holds_split(st.toks, j, seq![TokenView::Comma], tree_tokens(a0));
        lemma_holds_char(st.toks, j, seq![TokenView::Comma] + tree_tokens(a0), 0);
        lemma_tree_first_token(a0);
        lemma_holds_char(st.toks, j + 1, tree_tokens(a0), 0);
        if after.len() > 0 {
            lemma_holds_char(st.toks, j + 1 + n0, after, 0);
        }
        lemma_tree_parses(st, j + 1, a0);
        lemma_trees_rest_skip(st, j + 1 + n0, vs.push(tree_value(a0)), rest);
        assert(trees_values(a) == seq![tree_value(a0)] + trees_values(rest));
        assert(vs.push(tree_value(a0)) + trees_values(rest) =~= vs + trees_values(a));
    }
}

/// An object opened with one member or more: parsing goes on after its last
/// member with all its members taken in.
proof fn lemma_object_prefix(st: TokenStream, i: int, ms: Seq<(Seq<char>, Tree)>)
    requires
        ms.len() > 0,
        holds_at(st.toks, i, seq![TokenView::LeftBrace] + members_tokens(ms)),
        tok_at(st, i + 1 + members_tokens(ms).len()) is Some,
    ensures
        spec_value(st, i) == spec_object_rest(
            st,
            i + 1 + members_tokens(ms).len(),
            members_value(ms, seq![]),
        ),
{
    let k0 = ms[0].0;
    let t0 = ms[0].1;
    let rest = ms.subrange(1, ms.len() as int);
    let n0 = tree_tokens(t0).len();
    let head = seq![TokenView::String(k0), TokenView::Collon] + tree_tokens(t0);
    let after = more_members_tokens(rest);
    lemma_holds_split(st.toks, i, seq![TokenView::LeftBrace], members_tokens(ms));
    lemma_holds_char(st.toks, i, seq![TokenView::LeftBrace], 0);
    lemma_holds_split(st.toks, i + 1, head, after);
    lemma_holds_split(st.toks, i + 1, seq![TokenView::String(k0), TokenView::Collon], tree_tokens(t0));
    lemma_holds_char(st.toks, i + 1, head, 0);
    lemma_holds_char(st.toks, i + 1, head, 1);
    if after.len() > 0 {
        lemma_holds_char(st.toks, i + 3 + n0, after, 0);
    }
    lemma_tree_parses(st, i + 3, t0);
    assert(spec_property(st, i + 1) == Outcome::Done((k0, tree_value(t0), i + 3 + n0)));
    lemma_members_rest_skip(st, i + 3 + n0, obj_insert(seq![], k0, tree_value(t0)), rest);
}

/// An array opened with one item or more: parsing goes on after its last item
/// with all its items taken in.
proof fn lemma_array_prefix(st: TokenStream, i: int, a: Seq<Tree>)
    requires
        a.len() > 0,
        holds_at(st.toks, i, seq![TokenView::LeftParen] + trees_tokens(a)),
        tok_at(st, i + 1 + trees_tokens(a).len()) is Some,
    ensures
        spec_value(st, i) == spec_array_rest(st, i + 1 + trees_tokens(a).len(), trees_values(a)),
{
    let a0 = a[0];
    let rest = a.subrange(1, a.len() as int);
    let n0 = tree_tokens(a0).len();
    let after = more_trees_tokens(rest);
    lemma_holds_split(st.toks, i, seq![TokenView::LeftParen], trees_tokens(a));
    lemma_holds_char(st.toks, i, seq![TokenView::LeftParen], 0);
    lemma_holds_split(st.toks, i + 1, tree_tokens(a0), after);
    lemma_tree_first_token(a0);
    lemma_holds_char(st.toks, i + 1, tree_tokens(a0), 0);
    if after.len() > 0 {
        lemma_holds_char(st.toks, i + 1 + n0, after, 0);
    }
    lemma_tree_parses(st, i + 1, a0);
    lemma_trees_rest_skip(st, i + 1 + n0, seq![tree_value(a0)], rest);
    assert(seq![tree_value(a0)] + trees_values(rest) == trees_values(a));
}

/// After a member of an object only a comma or the closing brace may come:
/// any other token (another member, a value, a colon, the end) is reported as
/// the missing closing brace, at that token.
pub proof fn lemma_object_member_needs_comma(
    st: TokenStream,
    i: int,
    ms: Seq<(Seq<char>, Tree)>,
    tok: TokenView,
)
    requires
        ms.len() > 0,
        holds_at(st.toks, i, seq![TokenView::LeftBrace] + members_tokens(ms)),
        tok_at(st, i + 1 + members_tokens(ms).len()) == Some(tok),
        !(tok is Comma),
        !(tok is RightBrace),
    ensures
        spec_value(st, i) == Outcome::<(JsonView, int)>::Fail(
            ErrorView::ParserError { msg: "Expected RightBrace"@, token: tok },
        ),
{
    lemma_object_prefix(st, i, ms);
    reveal_strlit("Expected ");
    reveal_strlit("RightBrace");
    reveal_strlit("Expected RightBrace");
    assert("Expected "@ + token_debug_text(TokenView::RightBrace) =~= "Expected RightBrace"@);
}

/// A comma after the last member of an object is refused as a trailing comma.
pub proof fn lemma_object_trailing_comma(st: TokenStream, i: int, ms: Seq<(Seq<char>, Tree)>)
    requires
        ms.len() > 0,
        holds_at(
            st.toks,
            i,
            seq![TokenView::LeftBrace] + members_tokens(ms) + seq![TokenView::Comma, TokenView::RightBrace],
        ),
    ensures
        spec_value(st, i) == Outcome::<(JsonView, int)>::Fail(
            ErrorView::ParserError { msg: "Trailing comma in object"@, token: TokenView::RightBrace },
        ),
{
    let n = members_tokens(ms).len();
    let front = seq![TokenView::LeftBrace] + members_tokens(ms);
    lemma_holds_split(st.toks, i, front, seq![TokenView::Comma, TokenView::RightBrace]);
    lemma_holds_char(st.toks, i + 1 + n, seq![TokenView::Comma, TokenView::RightBrace], 0);
    lemma_holds_char(st.toks, i + 1 + n, seq![TokenView::Comma, TokenView::RightBrace], 1);
    lemma_object_prefix(st, i, ms);
}

/// After an item of an array only a comma or the closing bracket may come:
/// any other token is reported as the missing closing bracket, at that token.
pub proof fn lemma_array_item_needs_comma(st: TokenStream, i: int, a: Seq<Tree>, tok: TokenView)
    requires
        a.len() > 0,
        holds_at(st.toks, i, seq![TokenView::LeftParen] + trees_tokens(a)),
        tok_at(st, i + 1 + trees_tokens(a).len()) == Some(tok),
        !(tok is Comma),
        !(tok is RightParen),
    ensures
        spec_value(st, i) == Outcome::<(JsonView, int)>::Fail(
            ErrorView::ParserError { msg: "Expected RightParen"@, token: tok },
        ),
{
    lemma_array_prefix(st, i, a);
    reveal_strlit("Expected ");
    reveal_strlit("RightParen");
    reveal_strlit("Expected RightParen");
    assert("Expected "@ + token_debug_text(TokenView::RightParen) =~= "Expected RightParen"@);
}

/// A comma after the last item of an array is refused as a trailing comma.
pub proof fn lemma_array_trailing_comma(st: TokenStream, i: int, a: Seq<Tree>)
    requires
        a.len() > 0,
        holds_at(
            st.toks,
            i,
            seq![TokenView::LeftParen] + trees_tokens(a) + seq![TokenView::Comma, TokenView::RightParen],
        ),
    ensures
        spec_value(st, i) == Outcome::<(JsonView, int)>::Fail(
            ErrorView::ParserError { msg: "Trailing comma in array"@, token: TokenView::RightParen },
        ),
{
    let n = trees_tokens(a).len();
    let front = seq![TokenView::LeftParen] + trees_tokens(a);
    lemma_holds_split(st.toks, i, front, seq![TokenView::Comma, TokenView::RightParen]);
    lemma_holds_char(st.toks, i + 1 + n, seq![TokenView::Comma, TokenView::RightParen], 0);
    lemma_holds_char(st.toks, i + 1 + n, seq![TokenView::Comma, TokenView::RightParen], 1);
    lemma_array_prefix(st, i, a);
}

/// Parsing accepts only JSON texts: when it succeeds, the text was read to its
/// end, and its tokens are either none at all (the result is `null`) or
/// exactly the tokens of one written value, and the result is what that
/// written value stands for. A missing comma, a stray token, an unclosed or
/// extra bracket is never accepted.
pub proof fn lemma_parse_accepts_only_json(s: Seq<char>)
    requires
        spec_parse_json(s) is Done,
    ensures
        lex_stream(s, 0).end is Eof,
        lex_stream(s, 0).toks.len() == 0 ==> spec_parse_json(s) == Outcome::Done(JsonView::Null),
        lex_stream(s, 0).toks.len() > 0 ==> exists|t: Tree|
            #![trigger tree_tokens(t)]
            tree_tokens(t) == lex_stream(s, 0).toks && spec_parse_json(s) == Outcome::Done(
                tree_value(t),
            ),
{
    let st = lex_stream(s, 0);
    lemma_lex_stream_no_eof(s, 0);
    if st.toks.len() > 0 {
        assert(!(st.toks[0] is Eof));
        let t = lemma_value_tree(st, 0);
        let j = tree_tokens(t).len() as int;
        assert(tok_at(st, j) == Some(TokenView::Eof));
        if j < st.toks.len() {
            assert(!(st.toks[j] is Eof));
        }
        assert(st.toks.subrange(0, j) == tree_tokens(t));
        assert(st.toks.subrange(0, j) =~= st.toks);
    }
}

} // verus!
