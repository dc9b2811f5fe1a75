use vstd::prelude::*;

use crate::text::{repeat_space, spaces};
use crate::tokens::{bool_text, bool_to_text};
use crate::value::{view_items, JsonView, Value};

verus! {

/// The text of a value at nesting level `level`, with `indent` spaces per level.
pub open spec fn spec_dump(indent: nat, v: JsonView, level: nat) -> Seq<char>
    decreases v,
{
    match v {
        JsonView::Null => "null"@,
        JsonView::Bool(b) => bool_text(b),
        JsonView::Number(t) => t,
        JsonView::Str(s) => "\""@ + s + "\""@,
        JsonView::Array(a) => "[\n"@ + dump_items(indent, a, level) + spaces(indent * level) + "]"@,
        JsonView::Object(es) => "{\n"@ + dump_entries(indent, es, level) + spaces(indent * level)
            + "}"@,
    }
}

/// The separator written after an item: a comma unless it is the last one.
pub open spec fn item_sep(last: bool) -> Seq<char> {
    if last {
        "\n"@
    } else {
        ",\n"@
    }
}

/// The items of an array at level `level`, one per line.
pub open spec fn dump_items(indent: nat, a: Seq<JsonView>, level: nat) -> Seq<char>
    decreases a,
{
    if a.len() == 0 {
        seq![]
    } else {
        spaces(indent * (level + 1)) + spec_dump(indent, a[0], level + 1) + item_sep(a.len() == 1)
            + dump_items(indent, a.subrange(1, a.len() as int), level)
    }
}

/// The entries of an object at level `level`, one per line.
pub open spec fn dump_entries(indent: nat, es: Seq<(Seq<char>, JsonView)>, level: nat) -> Seq<char>
    decreases es,
{
    if es.len() == 0 {
        seq![]
    } else {
        spaces(indent * (level + 1)) + "\""@ + es[0].0 + "\": "@ + spec_dump(
            indent,
            es[0].1,
            level + 1,
        ) + item_sep(es.len() == 1) + dump_entries(indent, es.subrange(1, es.len() as int), level)
    }
}

/// How deep non-empty containers nest in a value (0 for a value that is no
/// container or an empty one): the levels below the value's own at which
/// the dump writes something.
pub open spec fn depth(v: JsonView) -> nat
    decreases v,
{
    match v {
        JsonView::Array(a) => if a.len() == 0 {
            0
        } else {
            1 + items_depth(a)
        },
        JsonView::Object(es) => if es.len() == 0 {
            0
        } else {
            1 + entries_depth(es)
        },
        _ => 0,
    }
}

pub open spec fn items_depth(a: Seq<JsonView>) -> nat
    decreases a,
{
    if a.len() == 0 {
        0
    } else {
        let d0 = depth(a[0]);
        let d1 = items_depth(a.subrange(1, a.len() as int));
        if d0 >= d1 {
            d0
        } else {
            d1
        }
    }
}

pub open spec fn entries_depth(es: Seq<(Seq<char>, JsonView)>) -> nat
    decreases es,
{
    if es.len() == 0 {
        0
    } else {
        let d0 = depth(es[0].1);
        let d1 = entries_depth(es.subrange(1, es.len() as int));
        if d0 >= d1 {
            d0
        } else {
            d1
        }
    }
}

pub proof fn lemma_items_depth(a: Seq<JsonView>, i: int)
    requires
        0 <= i < a.len(),
    ensures
        depth(a[i]) <= items_depth(a),
    decreases a.len(),
{
    if i > 0 {
        let rest = a.subrange(1, a.len() as int);
        lemma_items_depth(rest, i - 1);
        assert(rest[i - 1] == a[i]);
    }
}

pub proof fn lemma_entries_depth(es: Seq<(Seq<char>, JsonView)>, i: int)
    requires
        0 <= i < es.len(),
    ensures
        depth(es[i].1) <= entries_depth(es),
    decreases es.len(),
{
    if i > 0 {
        let rest = es.subrange(1, es.len() as int);
        lemma_entries_depth(rest, i - 1);
        assert(rest[i - 1] == es[i]);
    }
}

/// The dump of a value fits: no level or indentation width overflows.
pub open spec fn dump_fits(indent: nat, v: JsonView, level: nat) -> bool {
    &&& level + depth(v) <= usize::MAX
    &&& indent * (level + depth(v)) <= usize::MAX
}

proof fn lemma_fits_child(indent: nat, level: nat, d_parent: nat, d_child: nat)
    requires
        d_child + 1 <= d_parent,
        level + d_parent <= usize::MAX,
        indent * (level + d_parent) <= usize::MAX,
    ensures
        level + 1 + d_child <= usize::MAX,
        indent * (level + 1 + d_child) <= usize::MAX,
        indent * (level + 1) <= usize::MAX,
        indent * level <= usize::MAX,
{
    assert(indent * (level + 1 + d_child) <= indent * (level + d_parent)) by (nonlinear_arith)
        requires
            level + 1 + d_child <= level + d_parent,
    ;
    assert(indent * (level + 1) <= indent * (level + d_parent)) by (nonlinear_arith)
        requires
            level + 1 <= level + d_parent,
    ;
    assert(indent * level <= indent * (level + d_parent)) by (nonlinear_arith);
}

/// How deep non-empty containers nest in `value` (`depth`), or `None` when
/// that count does not fit in `usize`.
pub fn nesting_depth(value: &Value) -> (r: Option<usize>)
    ensures
        match r {
            Some(d) => d == depth(value@),
            None => depth(value@) > usize::MAX,
        },
    decreases depth(value@),
{
    match value {
        Value::Array(arr) => {
            let ghost items = view_items(arr@);
            assert(value@->Array_0 =~= items);
            let n = arr.len();
            if n == 0 {
                return Some(0);
            }
            let mut m: usize = 0;
            let mut i: usize = n;
            assert(items.subrange(n as int, n as int) =~= Seq::<JsonView>::empty());
            while i > 0
                invariant
                    i <= n,
                    n == arr@.len(),
                    n > 0,
                    items == view_items(arr@),
                    value@ == JsonView::Array(items),
                    m == items_depth(items.subrange(i as int, n as int)),
                decreases i,
            {
                i = i - 1;
                let ghost rest = items.subrange(i as int, n as int);
                assert(rest.subrange(1, rest.len() as int) =~= items.subrange(i + 1, n as int));
                assert(rest[0] == arr@[i as int]@);
                proof {
                    lemma_items_depth(items, i as int);
                }
                match nesting_depth(&arr[i]) {
                    None => {
                        return None;
                    },
                    Some(d) => {
                        if d > m {
                            m = d;
                        }
                    },
                }
            }
            assert(items.subrange(0, n as int) =~= items);
            m.checked_add(1)
        },
        Value::Object(obj) => {
            let ghost es = obj@;
            let n = obj.len();
            if n == 0 {
                return Some(0);
            }
            let mut m: usize = 0;
            let mut i: usize = n;
            assert(es.subrange(n as int, n as int) =~= Seq::<(Seq<char>, JsonView)>::empty());
            while i > 0
                invariant
                    i <= n,
                    n == es.len(),
                    n > 0,
                    es == obj@,
                    value@ == JsonView::Object(es),
                    m == entries_depth(es.subrange(i as int, n as int)),
                decreases i,
            {
                i = i - 1;
                let ghost rest = es.subrange(i as int, n as int);
                assert(rest.subrange(1, rest.len() as int) =~= es.subrange(i + 1, n as int));
                proof {
                    lemma_entries_depth(es, i as int);
                }
                match nesting_depth(obj.value(i)) {
                    None => {
                        return None;
                    },
                    Some(d) => {
                        if d > m {
                            m = d;
                        }
                    },
                }
            }
            assert(es.subrange(0, n as int) =~= es);
            m.checked_add(1)
        },
        _ => Some(0),
    }
}

/// Writes JSON values as indented text.
#[derive(Debug)]
pub struct Dumper {
    pub indent: usize,
}

impl Dumper {
    /// Whether the dump of `value` fits: its nesting depth, and that depth
    /// times the indentation width, fit in `usize`.
    pub fn fits(&self, value: &Value) -> (r: bool)
        ensures
            r == dump_fits(self.indent as nat, value@, 0),
    {
        match nesting_depth(value) {
            None => false,
            Some(d) => self.indent.checked_mul(d).is_some(),
        }
    }

    /// The text of `value`, `indent` spaces per nesting level.
    pub fn dump(&self, value: &Value) -> (r: String)
        requires
            dump_fits(self.indent as nat, value@, 0),
        ensures
            r@ == spec_dump(self.indent as nat, value@, 0),
    {
        self.visit(value, 0)
    }

    fn visit(&self, value: &Value, level: usize) -> (r: String)
        requires
            dump_fits(self.indent as nat, value@, level as nat),
        ensures
            r@ == spec_dump(self.indent as nat, value@, level as nat),
        decreases depth(value@),
    {
        let ghost ind = self.indent as nat;
        proof {
            assert(self.indent * level <= self.indent * (level + depth(value@))) by (nonlinear_arith);
        }
        let indent_str = repeat_space(self.indent * level);
        match value {
            Value::Null => String::from_str("null"),
            Value::Bool(b) => bool_to_text(*b),
            Value::Number(n) => n.to_text(),
            Value::String(s) => {
                let mut r = String::from_str("\"");
                r.append(s.as_str());
                r.append("\"");
                r
            },
            Value::Array(arr) => {
                let ghost items = view_items(arr@);
                assert(value@->Array_0 =~= items);
                let mut result = String::from_str("[\n");
                let n = arr.len();
                let mut i: usize = 0;
                assert(items.subrange(0, n as int) =~= items);
                while i < n
                    invariant
                        i <= n,
                        n == arr@.len(),
                        items == view_items(arr@),
                        items.len() == n,
                        value@ == JsonView::Array(items),
                        ind == self.indent as nat,
                        dump_fits(ind, value@, level as nat),
                        result@ + dump_items(ind, items.subrange(i as int, n as int), level as nat)
                            == "[\n"@ + dump_items(ind, items, level as nat),
                    decreases n - i,
                {
                    let ghost rest = items.subrange(i as int, n as int);
                    assert(rest.subrange(1, rest.len() as int) =~= items.subrange(i + 1, n as int));
                    assert(rest[0] == arr@[i as int]@);
                    proof {
                        lemma_items_depth(items, i as int);
                        lemma_fits_child(ind, level as nat, depth(value@), depth(items[i as int]));
                        assert(self.indent * (level + 1) <= usize::MAX);
                    }
                    let pad = repeat_space(self.indent * (level + 1));
                    let item = self.visit(&arr[i], level + 1);
                    result.append(pad.as_str());
                    result.append(item.as_str());
                    if i + 1 < n {
                        result.append(",\n");
                    } else {
                        result.append("\n");
                    }
                    i = i + 1;
                }
                result.append(indent_str.as_str());
                result.append("]");
                assert(items.subrange(n as int, n as int) =~= Seq::<JsonView>::empty());
                result
            },
            Value::Object(obj) => {
                let ghost es = obj@;
                let mut result = String::from_str("{\n");
                let n = obj.len();
                let mut i: usize = 0;
                assert(es.subrange(0, n as int) =~= es);
                while i < n
                    invariant
                        i <= n,
                        n == es.len(),
                        es == obj@,
                        value@ == JsonView::Object(es),
                        ind == self.indent as nat,
                        dump_fits(ind, value@, level as nat),
                        result@ + dump_entries(ind, es.subrange(i as int, n as int), level as nat)
                            == "{\n"@ + dump_entries(ind, es, level as nat),
                    decreases n - i,
                {
                    let ghost rest = es.subrange(i as int, n as int);
                    assert(rest.subrange(1, rest.len() as int) =~= es.subrange(i + 1, n as int));
                    proof {
                        lemma_entries_depth(es, i as int);
                        lemma_fits_child(ind, level as nat, depth(value@), depth(es[i as int].1));
                        assert(self.indent * (level + 1) <= usize::MAX);
                    }
                    let pad = repeat_space(self.indent * (level + 1));
                    let item = self.visit(obj.value(i), level + 1);
                    result.append(pad.as_str());
                    result.append("\"");
                    result.append(obj.key(i).as_str());
                    result.append("\": ");
                    result.append(item.as_str());
                    if i + 1 < n {
                        result.append(",\n");
                    } else {
                        result.append("\n");
                    }
                    i = i + 1;
                }
                result.append(indent_str.as_str());
                result.append("}");
                assert(es.subrange(n as int, n as int) =~= Seq::<(Seq<char>, JsonView)>::empty());
                result
            },
        }
    }
}

} // verus!
