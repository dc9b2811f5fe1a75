use vstd::prelude::*;

use crate::dumper::{depth, lemma_entries_depth, lemma_items_depth};
use crate::number::{is_canonical_number, Number};

verus! {

/// The mathematical content of a JSON value. An object is the list of its
/// entries in increasing key order.
pub enum JsonView {
    Null,
    Bool(bool),
    Number(Seq<char>),
    Str(Seq<char>),
    Array(Seq<JsonView>),
    Object(Seq<(Seq<char>, JsonView)>),
}

/// A JSON value.
#[derive(Debug, PartialEq)]
pub enum Value {
    Null,
    Bool(bool),
    Number(Number),
    String(String),
    Array(Vec<Value>),
    Object(Object),
}

/// The members of a JSON object: a map from keys to values, kept as a list
/// of entries in increasing key order, each key once.
#[derive(Debug, PartialEq)]
pub struct Object {
    entries: Vec<(String, Value)>,
}

impl View for Value {
    type V = JsonView;

    open spec fn view(&self) -> JsonView
        decreases self,
    {
        match self {
            Value::Null => JsonView::Null,
            Value::Bool(b) => JsonView::Bool(*b),
            Value::Number(n) => JsonView::Number(n@),
            Value::String(s) => JsonView::Str(s@),
            Value::Array(a) => JsonView::Array(
                Seq::new(
                    a.len() as nat,
                    |i: int|
                        if 0 <= i < a.len() {
                            a@[i].view()
                        } else {
                            JsonView::Null
                        },
                ),
            ),
            Value::Object(o) => JsonView::Object(o.entries_view()),
        }
    }
}

/// The views of the items of an array.
pub open spec fn view_items(a: Seq<Value>) -> Seq<JsonView> {
    Seq::new(a.len(), |i: int| a[i]@)
}

impl Object {
    /// The keys of the entries increase strictly: each key once, in order.
    #[verifier::type_invariant]
    spec fn keys_in_order(&self) -> bool {
        keys_sorted(self.entries_view())
    }

    /// The entries, in order.
    pub closed spec fn entries_view(&self) -> Seq<(Seq<char>, JsonView)>
        decreases self,
    {
        Seq::new(
            self.entries.len() as nat,
            |i: int|
                if 0 <= i < self.entries.len() {
                    (self.entries@[i].0@, self.entries@[i].1.view())
                } else {
                    (Seq::empty(), JsonView::Null)
                },
        )
    }
}

impl View for Object {
    type V = Seq<(Seq<char>, JsonView)>;

    open spec fn view(&self) -> Seq<(Seq<char>, JsonView)> {
        self.entries_view()
    }
}

/// Strict order of keys: lexicographic by code point, a proper prefix first.
pub open spec fn key_lt(a: Seq<char>, b: Seq<char>) -> bool
    decreases a.len(),
{
    if a.len() == 0 {
        b.len() > 0
    } else if b.len() == 0 {
        false
    } else if (a[0] as int) < (b[0] as int) {
        true
    } else if a[0] == b[0] {
        key_lt(a.drop_first(), b.drop_first())
    } else {
        false
    }
}

/// The keys of the entries increase strictly.
pub open spec fn keys_sorted(es: Seq<(Seq<char>, JsonView)>) -> bool {
    forall|i: int, j: int| 0 <= i < j < es.len() ==> key_lt(#[trigger] es[i].0, #[trigger] es[j].0)
}

/// The entries after `key` is bound to `value`: the entry of `key` gets the
/// new value, or a new entry goes where the key order puts it.
pub open spec fn obj_insert(
    es: Seq<(Seq<char>, JsonView)>,
    key: Seq<char>,
    value: JsonView,
) -> Seq<(Seq<char>, JsonView)>
    decreases es.len(),
{
    if es.len() == 0 {
        seq![(key, value)]
    } else if es[0].0 == key {
        seq![(key, value)] + es.drop_first()
    } else if key_lt(key, es[0].0) {
        seq![(key, value)] + es
    } else {
        seq![es[0]] + obj_insert(es.drop_first(), key, value)
    }
}

/// The value bound to `key` in the entries, if any (the first entry with
/// that key).
pub open spec fn obj_lookup(es: Seq<(Seq<char>, JsonView)>, key: Seq<char>) -> Option<JsonView>
    decreases es.len(),
{
    if es.len() == 0 {
        None
    } else if es[0].0 == key {
        Some(es[0].1)
    } else {
        obj_lookup(es.drop_first(), key)
    }
}

impl JsonView {
    /// Numbers in canonical writing, object keys strictly increasing, at every depth.
    pub open spec fn wf(self) -> bool
        decreases self,
    {
        match self {
            JsonView::Number(t) => is_canonical_number(t),
            JsonView::Array(a) => forall|i: int| 0 <= i < a.len() ==> (#[trigger] a[i]).wf(),
            JsonView::Object(es) => {
                &&& keys_sorted(es)
                &&& forall|i: int| 0 <= i < es.len() ==> (#[trigger] es[i]).1.wf()
            },
            _ => true,
        }
    }
}

/// No string or key of the value holds a double quote (the dumper writes
/// strings between quotes without escaping them).
pub open spec fn quote_free(v: JsonView) -> bool
    decreases v,
{
    match v {
        JsonView::Str(x) => !x.contains('"'),
        JsonView::Array(a) => forall|i: int| 0 <= i < a.len() ==> quote_free(#[trigger] a[i]),
        JsonView::Object(es) => forall|i: int|
            0 <= i < es.len() ==> !(#[trigger] es[i]).0.contains('"') && quote_free(es[i].1),
        _ => true,
    }
}

pub proof fn lemma_key_lt_irreflexive(a: Seq<char>)
    ensures
        !key_lt(a, a),
    decreases a.len(),
{
    if a.len() > 0 {
        lemma_key_lt_irreflexive(a.drop_first());
    }
}

pub proof fn lemma_key_lt_transitive(a: Seq<char>, b: Seq<char>, c: Seq<char>)
    requires
        key_lt(a, b),
        key_lt(b, c),
    ensures
        key_lt(a, c),
    decreases a.len(),
{
    if a.len() > 0 && b.len() > 0 && c.len() > 0 && a[0] == b[0] && b[0] == c[0] {
        lemma_key_lt_transitive(a.drop_first(), b.drop_first(), c.drop_first());
    }
}

pub proof fn lemma_key_lt_total(a: Seq<char>, b: Seq<char>)
    ensures
        a == b || key_lt(a, b) || key_lt(b, a),
    decreases a.len(),
{
    if a.len() > 0 && b.len() > 0 && a[0] == b[0] {
        lemma_key_lt_total(a.drop_first(), b.drop_first());
        if a.drop_first() == b.drop_first() {
            assert(a =~= seq![a[0]] + a.drop_first());
            assert(b =~= seq![b[0]] + b.drop_first());
        }
    } else if a.len() == 0 && b.len() == 0 {
        assert(a =~= b);
    } else if a.len() > 0 && b.len() > 0 {
        assert((a[0] as int) != (b[0] as int));
    }
}

pub proof fn lemma_key_lt_asymmetric(a: Seq<char>, b: Seq<char>)
    requires
        key_lt(a, b),
    ensures
        !key_lt(b, a),
{
    if key_lt(b, a) {
        lemma_key_lt_transitive(a, b, a);
        lemma_key_lt_irreflexive(a);
    }
}


/// Every entry after an insertion is the inserted one or an entry from before.
pub proof fn lemma_obj_insert_members(es: Seq<(Seq<char>, JsonView)>, key: Seq<char>, value: JsonView)
    ensures
        forall|i: int| 0 <= i < obj_insert(es, key, value).len() ==>
            #[trigger] obj_insert(es, key, value)[i] == (key, value)
            || es.contains(obj_insert(es, key, value)[i]),
    decreases es.len(),
{
    let r = obj_insert(es, key, value);
    if es.len() > 0 {
        lemma_obj_insert_members(es.drop_first(), key, value);
        assert forall|i: int| 0 <= i < r.len() implies #[trigger] r[i] == (key, value) || es.contains(r[i]) by {
            if es[0].0 == key {
                if i > 0 {
                    assert(r[i] == es[i]);
                }
            } else if key_lt(key, es[0].0) {
                if i > 0 {
                    assert(r[i] == es[i - 1]);
                }
            } else {
                if i == 0 {
                    assert(r[0] == es[0]);
                } else {
                    let q = obj_insert(es.drop_first(), key, value);
                    assert(r[i] == q[i - 1]);
                    if q[i - 1] != (key, value) {
                        let j = choose|j: int| 0 <= j < es.drop_first().len() && es.drop_first()[j] == q[i - 1];
                        assert(es[j + 1] == q[i - 1]);
                    }
                }
            }
        }
    }
}

/// Inserting keeps the keys strictly increasing.
pub proof fn lemma_obj_insert_sorted(es: Seq<(Seq<char>, JsonView)>, key: Seq<char>, value: JsonView)
    requires
        keys_sorted(es),
    ensures
        keys_sorted(obj_insert(es, key, value)),
    decreases es.len(),
{
    let r = obj_insert(es, key, value);
    if es.len() == 0 {
    } else if es[0].0 == key {
        assert forall|i: int, j: int| 0 <= i < j < r.len() implies key_lt(#[trigger] r[i].0, #[trigger] r[j].0) by {
            assert(r[j] == es[j]);
            if i > 0 {
                assert(r[i] == es[i]);
            }
        }
    } else if key_lt(key, es[0].0) {
        assert forall|i: int, j: int| 0 <= i < j < r.len() implies key_lt(#[trigger] r[i].0, #[trigger] r[j].0) by {
            assert(r[j] == es[j - 1]);
            if i > 0 {
                assert(r[i] == es[i - 1]);
            } else if j - 1 > 0 {
                assert(key_lt(es[0].0, es[j - 1].0));
                lemma_key_lt_transitive(key, es[0].0, es[j - 1].0);
            }
        }
    } else {
        lemma_key_lt_total(key, es[0].0);
        let rest = es.drop_first();
        assert(keys_sorted(rest)) by {
            assert forall|i: int, j: int| 0 <= i < j < rest.len() implies key_lt(#[trigger] rest[i].0, #[trigger] rest[j].0) by {
                assert(rest[i] == es[i + 1] && rest[j] == es[j + 1]);
            }
        }
        lemma_obj_insert_sorted(rest, key, value);
        lemma_obj_insert_members(rest, key, value);
        let q = obj_insert(rest, key, value);
        assert forall|i: int, j: int| 0 <= i < j < r.len() implies key_lt(#[trigger] r[i].0, #[trigger] r[j].0) by {
            assert(r[j] == q[j - 1]);
            if i > 0 {
                assert(r[i] == q[i - 1]);
            } else {
                assert(r[0] == es[0]);
                if q[j - 1] != (key, value) {
                    let m = choose|m: int| 0 <= m < rest.len() && rest[m] == q[j - 1];
                    assert(es[m + 1] == q[j - 1]);
                }
            }
        }
    }
}

/// An object behaves as a map: after `key` is bound to `value`, looking up
/// `key` gives `value` and looking up any other key gives what it gave before.
pub proof fn lemma_obj_insert_lookup(
    es: Seq<(Seq<char>, JsonView)>,
    key: Seq<char>,
    value: JsonView,
    other: Seq<char>,
)
    ensures
        obj_lookup(obj_insert(es, key, value), other) == if other == key {
            Some(value)
        } else {
            obj_lookup(es, other)
        },
    decreases es.len(),
{
    let r = obj_insert(es, key, value);
    if es.len() == 0 {
        assert(r.drop_first() =~= Seq::<(Seq<char>, JsonView)>::empty());
        assert(obj_lookup(r.drop_first(), other) is None);
        assert(r[0] == (key, value));
    } else {
        if es[0].0 == key {
            assert(r.drop_first() =~= es.drop_first());
        } else if key_lt(key, es[0].0) {
            assert(r.drop_first() =~= es);
        } else {
            lemma_obj_insert_lookup(es.drop_first(), key, value, other);
            assert(r.drop_first() =~= obj_insert(es.drop_first(), key, value));
        }
    }
}

/// Where the insertion lands when the first `p` keys are below `key` and the
/// key at `p`, if any, is not.
pub proof fn lemma_obj_insert_at(es: Seq<(Seq<char>, JsonView)>, key: Seq<char>, value: JsonView, p: int)
    requires
        0 <= p <= es.len(),
        forall|i: int| 0 <= i < p ==> key_lt(#[trigger] es[i].0, key),
        p < es.len() ==> !key_lt(es[p].0, key),
    ensures
        obj_insert(es, key, value) == if p < es.len() && es[p].0 == key {
            es.take(p) + seq![(key, value)] + es.skip(p + 1)
        } else {
            es.take(p) + seq![(key, value)] + es.skip(p)
        },
    decreases p,
{
    if p == 0 {
        if es.len() > 0 && es[0].0 != key {
            lemma_key_lt_total(key, es[0].0);
        }
        assert(es.take(0) =~= Seq::<(Seq<char>, JsonView)>::empty());
        assert(es.skip(0) =~= es);
        if es.len() > 0 {
            assert(es.skip(1) =~= es.drop_first());
        }
    } else {
        let rest = es.drop_first();
        assert forall|i: int| 0 <= i < p - 1 implies key_lt(#[trigger] rest[i].0, key) by {
            assert(rest[i] == es[i + 1]);
        }
        if p - 1 < rest.len() {
            assert(rest[p - 1] == es[p]);
        }
        lemma_obj_insert_at(rest, key, value, p - 1);
        lemma_key_lt_asymmetric(es[0].0, key);
        lemma_key_lt_irreflexive(key);
        if p < es.len() && es[p].0 == key {
            assert(obj_insert(es, key, value) =~= es.take(p) + seq![(key, value)] + es.skip(p + 1));
        } else {
            assert(obj_insert(es, key, value) =~= es.take(p) + seq![(key, value)] + es.skip(p));
        }
    }
}

/// Whether key `a` comes before key `b`.
pub fn key_less(a: &String, b: &String) -> (r: bool)
    ensures
        r == key_lt(a@, b@),
{
    let la = a.as_str().unicode_len();
    let lb = b.as_str().unicode_len();
    let mut i: usize = 0;
    assert(a@.skip(0) =~= a@);
    assert(b@.skip(0) =~= b@);
    while i < la && i < lb
        invariant
            i <= la,
            i <= lb,
            la == a@.len(),
            lb == b@.len(),
            key_lt(a@, b@) == key_lt(a@.skip(i as int), b@.skip(i as int)),
        decreases la - i,
    {
        let ca = a.as_str().get_char(i);
        let cb = b.as_str().get_char(i);
        if ca != cb {
            return ca < cb;
        }
        assert(a@.skip(i as int).drop_first() =~= a@.skip(i + 1));
        assert(b@.skip(i as int).drop_first() =~= b@.skip(i + 1));
        i = i + 1;
    }
    i == la && i < lb
}

impl Object {
    /// The object with no entry.
    pub fn new() -> (r: Object)
        ensures
            r@ == Seq::<(Seq<char>, JsonView)>::empty(),
    {
        let r = Object { entries: Vec::new() };
        assert(r@ =~= Seq::<(Seq<char>, JsonView)>::empty());
        r
    }

    /// The number of entries.
    pub fn len(&self) -> (r: usize)
        ensures
            r == self@.len(),
    {
        self.entries.len()
    }

    /// The key of entry `i`.
    pub fn key(&self, i: usize) -> (r: &String)
        requires
            i < self@.len(),
        ensures
            r@ == self@[i as int].0,
    {
        &self.entries[i].0
    }

    /// The value of entry `i`.
    pub fn value(&self, i: usize) -> (r: &Value)
        requires
            i < self@.len(),
        ensures
            r@ == self@[i as int].1,
    {
        &self.entries[i].1
    }

    /// Binds `key` to `value`, replacing the value it had.
    pub fn insert(&mut self, key: String, value: Value)
        ensures
            final(self)@ == obj_insert(old(self)@, key@, value@),
            keys_sorted(final(self)@),
    {
        proof {
            use_type_invariant(&*self);
        }
        let ghost old_view = self@;
        let mut entries: Vec<(String, Value)> = Vec::new();
        std::mem::swap(&mut entries, &mut self.entries);
        assert((Object { entries })@ =~= old_view);
        let n = entries.len();
        let mut p: usize = 0;
        while p < n && key_less(&entries[p].0, &key)
            invariant
                p <= n,
                n == entries.len(),
                (Object { entries })@ == old_view,
                forall|i: int| 0 <= i < p ==> key_lt(#[trigger] old_view[i].0, key@),
            decreases n - p,
        {
            p = p + 1;
        }
        proof {
            lemma_obj_insert_at(old_view, key@, value@, p as int);
            lemma_obj_insert_sorted(old_view, key@, value@);
        }
        let ghost kv = (key@, value@);
        if p < n && entries[p].0 == key {
            entries.set(p, (key, value));
            assert((Object { entries })@ =~= old_view.take(p as int) + seq![kv] + old_view.skip(p + 1));
        } else {
            entries.insert(p, (key, value));
            assert((Object { entries })@ =~= old_view.take(p as int) + seq![kv] + old_view.skip(p as int));
        }
        self.entries = entries;
    }
}
impl Value {
    /// A copy of the value.
    pub fn duplicate(&self) -> (r: Value)
        ensures
            r@ == self@,
        decreases depth(self@), 1int,
    {
        match self {
            Value::Null => Value::Null,
            Value::Bool(b) => Value::Bool(*b),
            Value::Number(n) => Value::Number(n.duplicate()),
            Value::String(s) => Value::String(s.clone()),
            Value::Array(arr) => {
                let ghost items = view_items(arr@);
                assert(self@->Array_0 =~= items);
                let mut out: Vec<Value> = Vec::new();
                let n = arr.len();
                let mut i: usize = 0;
                while i < n
                    invariant
                        i <= n,
                        n == arr@.len(),
                        items == view_items(arr@),
                        self@ == JsonView::Array(items),
                        view_items(out@) == items.subrange(0, i as int),
                    decreases n - i,
                {
                    proof {
                        lemma_items_depth(items, i as int);
                    }
                    let item = arr[i].duplicate();
                    let ghost before = view_items(out@);
                    out.push(item);
                    assert(view_items(out@) =~= before.push(items[i as int]));
                    assert(items.subrange(0, i + 1) =~= items.subrange(0, i as int).push(items[i as int]));
                    i = i + 1;
                }
                let r = Value::Array(out);
                assert(r@->Array_0 =~= view_items(out@));
                assert(items.subrange(0, n as int) =~= items);
                r
            },
            Value::Object(obj) => Value::Object(obj.duplicate()),
        }
    }
}

impl Object {
    /// A copy of the object.
    pub fn duplicate(&self) -> (r: Object)
        ensures
            r@ == self@,
        decreases depth(JsonView::Object(self@)), 0int,
    {
        proof {
            use_type_invariant(self);
        }
        let ghost es = self@;
        let mut entries: Vec<(String, Value)> = Vec::new();
        let n = self.entries.len();
        let mut i: usize = 0;
        assert((Object { entries })@ =~= es.subrange(0, 0));
        while i < n
            invariant
                i <= n,
                n == es.len(),
                n == self.entries.len(),
                es == self@,
                (Object { entries })@ == es.subrange(0, i as int),
            decreases n - i,
        {
            proof {
                lemma_entries_depth(es, i as int);
            }
            let key = self.entries[i].0.clone();
            let value = self.entries[i].1.duplicate();
            let ghost before = (Object { entries })@;
            entries.push((key, value));
            assert((Object { entries })@ =~= before.push(es[i as int]));
            assert(es.subrange(0, i + 1) =~= es.subrange(0, i as int).push(es[i as int]));
            i = i + 1;
        }
        assert(es.subrange(0, n as int) =~= es);
        Object { entries }
    }
}

impl Clone for Value {
    fn clone(&self) -> (r: Self)
        ensures
            r@ == self@,
    {
        self.duplicate()
    }
}

impl Clone for Object {
    fn clone(&self) -> (r: Self)
        ensures
            r@ == self@,
    {
        self.duplicate()
    }
}

} // verus!
