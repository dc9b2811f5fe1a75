use vstd::prelude::*;

use crate::chars::{char_is_decimal_digit, spec_is_decimal_digit};
use crate::text::{decimal_text, lemma_decimal_text_shape, push_char, push_decimal};

verus! {

/// Index of the first `'.'` of `t` at or after `i`, or `t.len()` when there is none.
pub open spec fn dot_from(t: Seq<char>, i: int) -> int
    decreases t.len() - i,
{
    if i < 0 || i >= t.len() {
        t.len() as int
    } else if t[i] == '.' {
        i
    } else {
        dot_from(t, i + 1)
    }
}

/// Index of the decimal point of `t`, or `t.len()` when there is none.
pub open spec fn dot_index(t: Seq<char>) -> int {
    dot_from(t, 0)
}

/// Every character of `t` in `[a, b)` is a decimal digit.
pub open spec fn all_digits(t: Seq<char>, a: int, b: int) -> bool {
    forall|k: int| a <= k < b ==> #[trigger] spec_is_decimal_digit(t[k])
}

/// A run of digits and dots that begins with a digit and holds at most one
/// dot: `Digit+ ('.' Digit*)?`. Among the runs the lexer collects (empty, or
/// starting with a digit) these are exactly the ones that the grammar of
/// `f64::from_str` accepts.
pub open spec fn valid_lexeme(l: Seq<char>) -> bool {
    let d = dot_index(l);
    &&& l.len() > 0
    &&& spec_is_decimal_digit(l[0])
    &&& all_digits(l, 0, d)
    &&& all_digits(l, d + 1, l.len() as int)
}

/// The canonical decimal writing: an integer part without leading zeros
/// (a single `0` allowed) and, if any, a fraction part that does not end in `0`.
pub open spec fn is_canonical_number(t: Seq<char>) -> bool {
    let d = dot_index(t);
    &&& d >= 1
    &&& all_digits(t, 0, d)
    &&& (d == 1 || t[0] != '0')
    &&& d < t.len() ==> {
        &&& t.len() > d + 1
        &&& all_digits(t, d + 1, t.len() as int)
        &&& t[t.len() - 1] != '0'
    }
}

/// Index of the first integer digit kept once leading zeros are dropped
/// (the last one before the point is always kept).
pub open spec fn lead_end(l: Seq<char>, i: int, d: int) -> int
    decreases d - i,
{
    if i + 1 < d && l[i] == '0' {
        lead_end(l, i + 1, d)
    } else {
        i
    }
}

/// End of the fraction digits once trailing zeros are dropped.
pub open spec fn trail_end(l: Seq<char>, j: int, d: int) -> int
    decreases j - d,
{
    if j > d + 1 && l[j - 1] == '0' {
        trail_end(l, j - 1, d)
    } else {
        j
    }
}

/// The canonical writing of the number that a valid lexeme denotes:
/// leading zeros of the integer part and trailing zeros of the fraction are
/// dropped, and so is a point with no digit left after it.
pub open spec fn canonicalize(l: Seq<char>) -> Seq<char> {
    let d = dot_index(l);
    let a = lead_end(l, 0, d);
    let b = trail_end(l, l.len() as int, d);
    l.subrange(a, d) + if b > d + 1 {
        seq!['.'] + l.subrange(d + 1, b)
    } else {
        Seq::<char>::empty()
    }
}

/// The digits of `t` without its decimal point.
pub open spec fn digits_of(t: Seq<char>) -> Seq<char> {
    let d = dot_index(t);
    if d < t.len() {
        t.take(d) + t.skip(d + 1)
    } else {
        t
    }
}

/// The end of `x.take(j)` once its trailing zeros are dropped (the first
/// character is always kept).
pub open spec fn trim_end(x: Seq<char>, j: int) -> int
    decreases j,
{
    if j > 1 && x[j - 1] == '0' {
        trim_end(x, j - 1)
    } else {
        j
    }
}

/// The first position at or after `i` that does not hold a `0`.
pub open spec fn zero_run(x: Seq<char>, i: int) -> int
    decreases x.len() - i,
{
    if 0 <= i < x.len() && x[i] == '0' {
        zero_run(x, i + 1)
    } else {
        i
    }
}

/// The mantissa of an exponent form: the first digit, then a point and the
/// other digits if there are any (`1`, `1.5`).
pub open spec fn mantissa_text(x: Seq<char>) -> Seq<char> {
    if x.len() <= 1 {
        x
    } else {
        seq![x[0], '.'] + x.skip(1)
    }
}

/// How a number prints with `{:?}`, in the layout of `f64` and with the exact
/// digits of its decimal writing. From `1e16` on (an integer
/// part of 17 digits or more) and below `1e-4` (an integer part `0` and a
/// fraction that starts with four zeros or more, zero itself excepted) in
/// exponent form, the significant digits as a mantissa followed by `e` and the
/// exponent (`1e16`, `1.5e16`, `1e-5`); otherwise the decimal writing, with
/// `.0` appended when it has no fraction.
pub open spec fn number_debug_text(t: Seq<char>) -> Seq<char> {
    let d = dot_index(t);
    if d > 16 {
        let x = digits_of(t);
        mantissa_text(x.take(trim_end(x, x.len() as int))) + seq!['e'] + decimal_text(
            (d - 1) as nat,
        )
    } else if d == 1 && t[0] == '0' && zero_run(t, 2) >= 6 {
        let z = zero_run(t, 2);
        mantissa_text(t.skip(z)) + seq!['e', '-'] + decimal_text((z - 1) as nat)
    } else if d == t.len() {
        t + seq!['.', '0']
    } else {
        t
    }
}

pub proof fn lemma_dot_from(t: Seq<char>, i: int)
    requires
        0 <= i <= t.len(),
    ensures
        i <= dot_from(t, i) <= t.len(),
        forall|k: int| i <= k < dot_from(t, i) ==> t[k] != '.',
        dot_from(t, i) < t.len() ==> t[dot_from(t, i)] == '.',
    decreases t.len() - i,
{
    if i < t.len() && t[i] != '.' {
        lemma_dot_from(t, i + 1);
    }
}

pub proof fn lemma_dot_from_unique(t: Seq<char>, i: int, j: int)
    requires
        0 <= i <= j <= t.len(),
        forall|k: int| i <= k < j ==> t[k] != '.',
        j == t.len() || t[j] == '.',
    ensures
        dot_from(t, i) == j,
    decreases j - i,
{
    if i < j {
        lemma_dot_from_unique(t, i + 1, j);
    }
}

pub proof fn lemma_lead_end(l: Seq<char>, i: int, d: int)
    requires
        0 <= i < d <= l.len(),
    ensures
        i <= lead_end(l, i, d) < d,
        forall|k: int| i <= k < lead_end(l, i, d) ==> l[k] == '0',
        lead_end(l, i, d) == d - 1 || l[lead_end(l, i, d)] != '0',
    decreases d - i,
{
    if i + 1 < d && l[i] == '0' {
        lemma_lead_end(l, i + 1, d);
    }
}

pub proof fn lemma_trail_end(l: Seq<char>, j: int, d: int)
    requires
        0 <= d < j <= l.len(),
    ensures
        d + 1 <= trail_end(l, j, d) <= j,
        forall|k: int| trail_end(l, j, d) <= k < j ==> l[k] == '0',
        trail_end(l, j, d) == d + 1 || l[trail_end(l, j, d) - 1] != '0',
    decreases j - d,
{
    if j > d + 1 && l[j - 1] == '0' {
        lemma_trail_end(l, j - 1, d);
    }
}

/// Canonicalizing a valid lexeme gives a canonical writing.
pub proof fn lemma_canonicalize_is_canonical(l: Seq<char>)
    requires
        valid_lexeme(l),
    ensures
        is_canonical_number(canonicalize(l)),
{
    let d = dot_index(l);
    lemma_dot_from(l, 0);
    assert(d >= 1) by {
        assert(l[0] != '.');
    }
    let a = lead_end(l, 0, d);
    lemma_lead_end(l, 0, d);
    let b = trail_end(l, l.len() as int, d);
    let ip = l.subrange(a, d);
    let r = canonicalize(l);
    if d < l.len() {
        lemma_trail_end(l, l.len() as int, d);
    }
    if b > d + 1 {
        let fp = l.subrange(d + 1, b);
        assert(r == ip + (seq!['.'] + fp));
        assert forall|k: int| 0 <= k < ip.len() implies r[k] != '.' by {
            assert(r[k] == l[a + k]);
        }
        lemma_dot_from_unique(r, 0, ip.len() as int);
        assert forall|k: int| ip.len() + 1 <= k < r.len() implies #[trigger] spec_is_decimal_digit(r[k]) by {
            assert(r[k] == l[d + 1 + (k - ip.len() - 1)]);
        }
        assert forall|k: int| 0 <= k < ip.len() implies #[trigger] spec_is_decimal_digit(r[k]) by {
            assert(r[k] == l[a + k]);
        }
        assert(r[r.len() - 1] == l[b - 1]);
    } else {
        assert(r == ip);
        assert forall|k: int| 0 <= k < ip.len() implies r[k] != '.' by {
            assert(r[k] == l[a + k]);
        }
        lemma_dot_from_unique(r, 0, ip.len() as int);
        assert forall|k: int| 0 <= k < ip.len() implies #[trigger] spec_is_decimal_digit(r[k]) by {
            assert(r[k] == l[a + k]);
        }
    }
}

/// The value of a decimal digit character.
pub open spec fn digit_value(c: char) -> int {
    c as int - '0' as int
}

/// The number that a run of decimal digits writes (`0` for no digit).
pub open spec fn digits_value(x: Seq<char>) -> int
    decreases x.len(),
{
    if x.len() == 0 {
        0
    } else {
        digits_value(x.drop_last()) * 10 + digit_value(x.last())
    }
}

/// `n` zero digits.
pub open spec fn zeros(n: nat) -> Seq<char> {
    Seq::new(n, |_i: int| '0')
}

/// The digits of a writing before its point (all of them if it has none).
pub open spec fn int_digits(t: Seq<char>) -> Seq<char> {
    t.take(dot_index(t))
}

/// The digits of a writing after its point (none if it has none).
pub open spec fn frac_digits(t: Seq<char>) -> Seq<char> {
    let d = dot_index(t);
    if d < t.len() {
        t.skip(d + 1)
    } else {
        seq![]
    }
}

/// The value of a decimal writing times `10^m`, for `m` at least its number
/// of fraction digits: its digits without the point, with zeros appended up
/// to `m` fraction digits, read as one integer. Two writings stand for the
/// same number exactly when they agree here for every such `m`.
pub open spec fn scaled_value(t: Seq<char>, m: nat) -> int {
    digits_value(int_digits(t) + frac_digits(t) + zeros((m - frac_digits(t).len()) as nat))
}

/// Leading zeros do not change the number that digits write.
pub proof fn lemma_leading_zeros_value(a: nat, x: Seq<char>)
    ensures
        digits_value(zeros(a) + x) == digits_value(x),
    decreases x.len() + a,
{
    if x.len() == 0 {
        assert(zeros(a) + x =~= zeros(a));
        if a > 0 {
            assert(zeros(a).drop_last() =~= zeros((a - 1) as nat) + x);
            lemma_leading_zeros_value((a - 1) as nat, x);
        }
    } else {
        assert((zeros(a) + x).drop_last() =~= zeros(a) + x.drop_last());
        lemma_leading_zeros_value(a, x.drop_last());
    }
}

/// Canonicalizing a lexeme keeps its value: the canonical writing has no more
/// fraction digits, and both writings give the same number, whatever the
/// number of fraction digits they are compared at. (Dropping a zero that is
/// not a leading zero of the integer part or a trailing zero of the fraction
/// would change the value.)
pub proof fn lemma_canonicalize_keeps_value(l: Seq<char>, m: nat)
    requires
        valid_lexeme(l),
        frac_digits(l).len() <= m,
    ensures
        frac_digits(canonicalize(l)).len() <= frac_digits(l).len(),
        scaled_value(canonicalize(l), m) == scaled_value(l, m),
{
    let d = dot_index(l);
    lemma_dot_from(l, 0);
    assert(d >= 1) by {
        assert(l[0] != '.');
    }
    let a = lead_end(l, 0, d);
    lemma_lead_end(l, 0, d);
    let b = trail_end(l, l.len() as int, d);
    let c = canonicalize(l);
    let ip = l.subrange(a, d);
    if d < l.len() {
        lemma_trail_end(l, l.len() as int, d);
    }
    let fl = frac_digits(l);
    let fc: Seq<char> = if b > d + 1 { l.subrange(d + 1, b) } else { seq![] };
    if b > d + 1 {
        assert(c == ip + (seq!['.'] + fc));
    } else {
        assert(c =~= ip);
    }
    assert forall|k: int| 0 <= k < ip.len() implies c[k] != '.' by {
        assert(c[k] == l[a + k]);
    }
    if b > d + 1 {
        assert(c[ip.len() as int] == '.');
        lemma_dot_from_unique(c, 0, ip.len() as int);
        assert(c.take(ip.len() as int) =~= ip);
        assert(c.skip(ip.len() + 1int) =~= fc);
    } else {
        lemma_dot_from_unique(c, 0, ip.len() as int);
        assert(c.take(ip.len() as int) =~= ip);
    }
    assert(int_digits(c) == ip);
    assert(frac_digits(c) == fc);
    let pad_l = zeros((m - fl.len()) as nat);
    let pad_c = zeros((m - fc.len()) as nat);
    let left = int_digits(l) + fl + pad_l;
    let right = zeros(a as nat) + (ip + fc + pad_c);
    if d < l.len() {
        assert(fl == l.subrange(d + 1, l.len() as int));
        assert(fc.len() == b - d - 1);
        assert forall|k: int| 0 <= k < left.len() implies left[k] == right[k] by {
            if k < a {
                assert(left[k] == l[k]);
            } else if k < d {
                assert(left[k] == l[k]);
            } else if k < d + (b - d - 1) {
                assert(left[k] == l[k + 1]);
            } else if k < l.len() - 1 {
                assert(left[k] == l[k + 1]);
                assert(l[k + 1] == '0');
            }
        }
    } else {
        assert(b == l.len());
        assert forall|k: int| 0 <= k < left.len() implies left[k] == right[k] by {
            if k < a {
                assert(left[k] == l[k]);
            } else if k < d {
                assert(left[k] == l[k]);
            }
        }
    }
    assert(left =~= right);
    lemma_leading_zeros_value(a as nat, ip + fc + pad_c);
}

/// Ten to the power `n`.
pub open spec fn pow10(n: nat) -> int
    decreases n,
{
    if n == 0 {
        1
    } else {
        10 * pow10((n - 1) as nat)
    }
}

proof fn lemma_pow10_positive(n: nat)
    ensures
        pow10(n) >= 1,
    decreases n,
{
    if n > 0 {
        lemma_pow10_positive((n - 1) as nat);
    }
}

proof fn lemma_pow10_adds(a: nat, b: nat)
    ensures
        pow10(a + b) == pow10(a) * pow10(b),
    decreases a,
{
    if a > 0 {
        lemma_pow10_adds((a - 1) as nat, b);
        assert(pow10(a + b) == 10 * pow10((a - 1 + b) as nat));
        assert(10 * (pow10((a - 1) as nat) * pow10(b)) == (10 * pow10((a - 1) as nat)) * pow10(b))
            by (nonlinear_arith);
    }
}

proof fn lemma_pow10_increases(a: nat, b: nat)
    requires
        a <= b,
    ensures
        pow10(a) <= pow10(b),
    decreases b,
{
    if a < b {
        lemma_pow10_increases(a, (b - 1) as nat);
        lemma_pow10_positive((b - 1) as nat);
    }
}

/// Trailing zeros multiply the number that digits write by ten each.
proof fn lemma_trailing_zeros_value(x: Seq<char>, k: nat)
    ensures
        digits_value(x + zeros(k)) == digits_value(x) * pow10(k),
    decreases k,
{
    if k == 0 {
        assert(x + zeros(0) =~= x);
    } else {
        let y = x + zeros(k);
        assert(y.drop_last() =~= x + zeros((k - 1) as nat));
        lemma_trailing_zeros_value(x, (k - 1) as nat);
        assert(digits_value(y) == digits_value(x + zeros((k - 1) as nat)) * 10);
        assert((digits_value(x) * pow10((k - 1) as nat)) * 10 == digits_value(x) * (10 * pow10(
            (k - 1) as nat,
        ))) by (nonlinear_arith);
    }
}

/// A run of `n` digits writes a number below `10^n`, and one of at least
/// `10^(n-1)` when its first digit is not zero.
proof fn lemma_digits_value_bounds(x: Seq<char>)
    requires
        all_digits(x, 0, x.len() as int),
    ensures
        0 <= digits_value(x) < pow10(x.len()),
        x.len() >= 1 && x[0] != '0' ==> digits_value(x) >= pow10((x.len() - 1) as nat),
    decreases x.len(),
{
    if x.len() > 0 {
        let y = x.drop_last();
        assert forall|k: int| 0 <= k < y.len() implies #[trigger] spec_is_decimal_digit(y[k]) by {
            assert(y[k] == x[k]);
            assert(spec_is_decimal_digit(x[k]));
        }
        lemma_digits_value_bounds(y);
        assert(spec_is_decimal_digit(x[x.len() - 1]));
        assert(0 <= digit_value(x.last()) <= 9);
        if x.len() >= 2 && x[0] != '0' {
            assert(y[0] == x[0]);
        }
        if x.len() == 1 && x[0] != '0' {
            assert(y.len() == 0);
            assert(digit_value(x.last()) >= 1);
        }
    }
}

proof fn lemma_zero_run(x: Seq<char>, i: int)
    requires
        0 <= i <= x.len(),
    ensures
        i <= zero_run(x, i) <= x.len(),
        forall|k: int| i <= k < zero_run(x, i) ==> x[k] == '0',
        zero_run(x, i) < x.len() ==> x[zero_run(x, i)] != '0',
    decreases x.len() - i,
{
    if i < x.len() && x[i] == '0' {
        lemma_zero_run(x, i + 1);
    }
}

proof fn lemma_trim_end(x: Seq<char>, j: int)
    requires
        1 <= j <= x.len(),
    ensures
        1 <= trim_end(x, j) <= j,
        forall|k: int| trim_end(x, j) <= k < j ==> x[k] == '0',
    decreases j,
{
    if j > 1 && x[j - 1] == '0' {
        lemma_trim_end(x, j - 1);
    }
}

/// The digits of a canonical writing, without its point: what its value
/// counted in units of its last fraction digit is written with.
proof fn lemma_canonical_digits(t: Seq<char>)
    requires
        is_canonical_number(t),
    ensures
        digits_of(t) == int_digits(t) + frac_digits(t),
        digits_of(t).len() == dot_index(t) + frac_digits(t).len(),
        all_digits(digits_of(t), 0, digits_of(t).len() as int),
        scaled_value(t, frac_digits(t).len()) == digits_value(digits_of(t)),
        digits_of(t)[0] == t[0],
        dot_index(t) < t.len() ==> frac_digits(t).len() >= 1 && t[t.len() - 1] != '0',
{
    let d = dot_index(t);
    lemma_dot_from(t, 0);
    let x = digits_of(t);
    if d < t.len() {
        assert(x == t.take(d) + t.skip(d + 1));
        assert forall|k: int| 0 <= k < x.len() implies #[trigger] spec_is_decimal_digit(x[k]) by {
            if k < d {
                assert(x[k] == t[k]);
            } else {
                assert(x[k] == t[k + 1]);
            }
        }
    } else {
        assert(t.take(d) =~= t);
        assert forall|k: int| 0 <= k < x.len() implies #[trigger] spec_is_decimal_digit(x[k]) by {
            assert(x[k] == t[k]);
        }
    }
    assert(int_digits(t) + frac_digits(t) + zeros(0) =~= x);
}

/// How `{:?}` writes a number is a writing of that same number. Counted in
/// units of its last fraction digit (`scaled_value`), a number of at least
/// `10^16` is written in exponent form whose mantissa digits, times ten to
/// the exponent, give it; a number above zero and below `10^-4` likewise with
/// a negative exponent; any other number is written as it is, with `.0`
/// added when it has no fraction.
pub proof fn lemma_number_debug_text_value(t: Seq<char>)
    requires
        is_canonical_number(t),
    ensures
        scaled_value(t, frac_digits(t).len()) >= pow10(16 + frac_digits(t).len()) ==> exists|
            x: Seq<char>,
            e: nat,
        |
            #![trigger mantissa_text(x), decimal_text(e)]
            {
                &&& x.len() >= 1 && x[0] != '0' && all_digits(x, 0, x.len() as int)
                &&& x.len() <= frac_digits(t).len() + e + 1
                &&& number_debug_text(t) == mantissa_text(x) + seq!['e'] + decimal_text(e)
                &&& digits_value(x) * pow10((frac_digits(t).len() + e + 1 - x.len()) as nat)
                    == scaled_value(t, frac_digits(t).len())
            },
        0 < scaled_value(t, frac_digits(t).len()) && scaled_value(t, frac_digits(t).len()) * pow10(4)
            < pow10(frac_digits(t).len()) ==> exists|x: Seq<char>, e: nat|
            #![trigger mantissa_text(x), decimal_text(e)]
            {
                &&& x.len() >= 1 && x[0] != '0' && all_digits(x, 0, x.len() as int)
                &&& x.len() + e <= frac_digits(t).len() + 1
                &&& number_debug_text(t) == mantissa_text(x) + seq!['e', '-'] + decimal_text(e)
                &&& digits_value(x) * pow10((frac_digits(t).len() + 1 - e - x.len()) as nat)
                    == scaled_value(t, frac_digits(t).len())
            },
        scaled_value(t, frac_digits(t).len()) < pow10(16 + frac_digits(t).len()) && !(0
            < scaled_value(t, frac_digits(t).len()) && scaled_value(t, frac_digits(t).len()) * pow10(
            4,
        ) < pow10(frac_digits(t).len())) ==> {
            ||| frac_digits(t).len() > 0 && number_debug_text(t) == t
            ||| frac_digits(t).len() == 0 && number_debug_text(t) == t + seq!['.', '0']
        },
{
    let d = dot_index(t);
    let m = frac_digits(t).len();
    let all = digits_of(t);
    lemma_dot_from(t, 0);
    lemma_canonical_digits(t);
    let v = scaled_value(t, m);
    assert(v == digits_value(all));
    lemma_digits_value_bounds(all);
    lemma_pow10_positive(4);
    lemma_pow10_positive(m);
    lemma_pow10_increases(m, 16 + m);
    if d > 16 {
        assert(t[0] != '0');
        lemma_pow10_increases(16 + m, (all.len() - 1) as nat);
        let n = all.len() as int;
        lemma_trim_end(all, n);
        let j = trim_end(all, n);
        let x = all.take(j);
        let z = (n - j) as nat;
        assert(all =~= x + zeros(z));
        lemma_trailing_zeros_value(x, z);
        assert forall|k: int| 0 <= k < x.len() implies #[trigger] spec_is_decimal_digit(x[k]) by {
            assert(x[k] == all[k]);
        }
        let e = (d - 1) as nat;
        assert(number_debug_text(t) == mantissa_text(x) + seq!['e'] + decimal_text(e));
        assert(m + e + 1 - x.len() == z);
        assert(v * pow10(4) >= pow10(m)) by (nonlinear_arith)
            requires
                v >= pow10(16 + m),
                pow10(16 + m) >= pow10(m),
                pow10(m) >= 1,
                pow10(4) >= 1,
        ;
    } else if d == 1 && t[0] == '0' && zero_run(t, 2) >= 6 {
        let z = zero_run(t, 2);
        lemma_zero_run(t, 2);
        assert(z < t.len());
        let x = t.skip(z);
        assert(all =~= zeros((z - 1) as nat) + x) by {
            assert forall|k: int| 0 <= k < all.len() implies all[k] == (zeros((z - 1) as nat) + x)[k] by {
                if k == 0 {
                    assert(all[0] == t[0]);
                } else {
                    assert(all[k] == t[k + 1]);
                }
            }
        }
        lemma_leading_zeros_value((z - 1) as nat, x);
        assert forall|k: int| 0 <= k < x.len() implies #[trigger] spec_is_decimal_digit(x[k]) by {
            assert(x[k] == all[k + z - 1]);
        }
        lemma_digits_value_bounds(x);
        lemma_pow10_positive((x.len() - 1) as nat);
        let e = (z - 1) as nat;
        assert(m + 1 - e - x.len() == 0);
        assert(digits_value(x) * pow10(0) == digits_value(x));
        lemma_pow10_adds(x.len(), 4);
        lemma_pow10_increases(x.len() + 4, m);
        assert(v * pow10(4) < pow10(x.len()) * pow10(4)) by (nonlinear_arith)
            requires
                v < pow10(x.len()),
                pow10(4) >= 1,
        ;
        lemma_pow10_increases(x.len(), 16 + m);
        assert(x[0] != '0');
        assert(m == t.len() - 2);
        assert(number_debug_text(t) == mantissa_text(x) + seq!['e', '-'] + decimal_text(e));
        assert(digits_value(x) * pow10((m + 1 - e - x.len()) as nat) == v);
        assert(v * pow10(4) < pow10(m));
        assert(0 < v);
    } else {
        assert(d <= 16);
        lemma_pow10_increases(all.len(), 16 + m);
        if t[0] != '0' {
            lemma_pow10_increases(m, (all.len() - 1) as nat);
            assert(v * pow10(4) >= pow10(m)) by (nonlinear_arith)
                requires
                    v >= pow10(m),
                    pow10(m) >= 1,
                    pow10(4) >= 1,
            ;
        } else if t.len() > 1 {
            assert(d == 1);
            let z = zero_run(t, 2);
            lemma_zero_run(t, 2);
            assert(z < t.len());
            let x = t.skip(z);
            assert(all =~= zeros((z - 1) as nat) + x) by {
                assert forall|k: int| 0 <= k < all.len() implies all[k] == (zeros((z - 1) as nat) + x)[k] by {
                    if k == 0 {
                        assert(all[0] == t[0]);
                    } else {
                        assert(all[k] == t[k + 1]);
                    }
                }
            }
            lemma_leading_zeros_value((z - 1) as nat, x);
            assert forall|k: int| 0 <= k < x.len() implies #[trigger] spec_is_decimal_digit(x[k]) by {
                assert(x[k] == all[k + z - 1]);
            }
            lemma_digits_value_bounds(x);
            lemma_pow10_adds((x.len() - 1) as nat, 4);
            lemma_pow10_increases(m, (x.len() - 1 + 4) as nat);
            assert(v * pow10(4) >= pow10((x.len() - 1) as nat) * pow10(4)) by (nonlinear_arith)
                requires
                    v >= pow10((x.len() - 1) as nat),
                    pow10(4) >= 1,
            ;
        } else {
            assert(all.len() == 1);
            assert(v == digits_value(all.drop_last()) * 10 + digit_value(all.last()));
            assert(all.drop_last().len() == 0);
        }
    }
}

/// A canonical writing is a valid lexeme, and canonicalizing it changes nothing.
pub proof fn lemma_canonical_fixed_point(t: Seq<char>)
    requires
        is_canonical_number(t),
    ensures
        valid_lexeme(t),
        canonicalize(t) == t,
{
    let d = dot_index(t);
    lemma_dot_from(t, 0);
    assert(spec_is_decimal_digit(t[0]));
    assert(lead_end(t, 0, d) == 0);
    if d < t.len() {
        assert(trail_end(t, t.len() as int, d) == t.len());
        assert(canonicalize(t) =~= t.subrange(0, d) + (seq!['.'] + t.subrange(d + 1, t.len() as int)));
        assert(t[d] == '.');
        assert(canonicalize(t) =~= t);
    } else {
        assert(trail_end(t, t.len() as int, d) == t.len());
        assert(canonicalize(t) =~= t);
    }
}

/// The decimal writing of a natural number is canonical.
pub proof fn lemma_decimal_text_canonical(n: nat)
    ensures
        is_canonical_number(decimal_text(n)),
{
    let t = decimal_text(n);
    lemma_decimal_text_shape(n);
    assert forall|k: int| 0 <= k < t.len() implies t[k] != '.' by {
        assert('0' <= t[k] <= '9');
    }
    lemma_dot_from_unique(t, 0, t.len() as int);
    if n < 10 {
        assert(t.len() == 1);
    }
}

/// Whether a run of characters is a valid lexeme `Digit+ ('.' Digit*)?`.
pub fn lexeme_is_valid(l: &Vec<char>) -> (r: bool)
    ensures
        r == valid_lexeme(l@),
{
    let n = l.len();
    if n == 0 {
        return false;
    }
    if !char_is_decimal_digit(l[0]) {
        return false;
    }
    let mut d: usize = 0;
    while d < n && l[d] != '.'
        invariant
            d <= n,
            n == l@.len(),
            forall|k: int| 0 <= k < d ==> l@[k] != '.',
        decreases n - d,
    {
        d = d + 1;
    }
    proof {
        lemma_dot_from_unique(l@, 0, d as int);
    }
    let mut k: usize = 0;
    while k < d
        invariant
            k <= d <= n,
            n == l@.len(),
            d == dot_index(l@),
            all_digits(l@, 0, k as int),
        decreases d - k,
    {
        if !char_is_decimal_digit(l[k]) {
            return false;
        }
        k = k + 1;
    }
    if d < n {
        let mut k: usize = d + 1;
        while k < n
            invariant
                d + 1 <= k <= n,
                n == l@.len(),
                d == dot_index(l@),
                all_digits(l@, 0, d as int),
                all_digits(l@, d + 1, k as int),
            decreases n - k,
        {
            if !char_is_decimal_digit(l[k]) {
                return false;
            }
            k = k + 1;
        }
    }
    true
}

/// The characters of a text, one by one.
fn chars_of(s: &str) -> (r: Vec<char>)
    ensures
        r@ == s@,
{
    let n = s.unicode_len();
    let mut r: Vec<char> = Vec::new();
    let mut k: usize = 0;
    while k < n
        invariant
            k <= n,
            n == s@.len(),
            r@ == s@.take(k as int),
        decreases n - k,
    {
        r.push(s.get_char(k));
        k = k + 1;
        assert(r@ =~= s@.take(k as int));
    }
    assert(s@.take(n as int) =~= s@);
    r
}

/// The mantissa writing of the digits `x[a..b]`.
fn mantissa_string(x: &Vec<char>, a: usize, b: usize) -> (r: String)
    requires
        a < b <= x.len(),
    ensures
        r@ == mantissa_text(x@.subrange(a as int, b as int)),
{
    let mut r = String::new();
    push_char(&mut r, x[a]);
    if b - a > 1 {
        push_char(&mut r, '.');
        let mut k: usize = a + 1;
        while k < b
            invariant
                a + 1 <= k <= b <= x.len(),
                r@ == seq![x@[a as int], '.'] + x@.subrange(a + 1, k as int),
            decreases b - k,
        {
            push_char(&mut r, x[k]);
            k = k + 1;
            assert(r@ =~= seq![x@[a as int], '.'] + x@.subrange(a + 1, k as int));
        }
        assert(x@.subrange(a as int, b as int).skip(1) =~= x@.subrange(a + 1, b as int));
    } else {
        assert(r@ =~= x@.subrange(a as int, b as int));
    }
    r
}

/// A non-negative decimal number, kept in its canonical writing.
#[derive(Debug, PartialEq)]
pub struct Number {
    text: String,
}

impl View for Number {
    type V = Seq<char>;

    closed spec fn view(&self) -> Seq<char> {
        self.text@
    }
}

impl Number {
    #[verifier::type_invariant]
    spec fn inv(&self) -> bool {
        is_canonical_number(self.text@)
    }

    /// The number is kept in canonical writing.
    pub open spec fn wf(&self) -> bool {
        is_canonical_number(self@)
    }

    /// The number `n`.
    pub fn from_u64(n: u64) -> (r: Number)
        ensures
            r@ == decimal_text(n as nat),
            r.wf(),
    {
        let mut text = String::new();
        push_decimal(&mut text, n);
        proof {
            lemma_decimal_text_canonical(n as nat);
            assert(text@ =~= decimal_text(n as nat));
        }
        Number { text }
    }

    /// The number that a lexeme `Digit+ ('.' Digit*)?` denotes.
    pub fn from_lexeme(l: &Vec<char>) -> (r: Number)
        requires
            valid_lexeme(l@),
        ensures
            r@ == canonicalize(l@),
            r.wf(),
            forall|m: nat|
                frac_digits(l@).len() <= m ==> #[trigger] scaled_value(r@, m) == scaled_value(l@, m),
    {
        let n = l.len();
        let mut d: usize = 0;
        while d < n && l[d] != '.'
            invariant
                d <= n,
                n == l@.len(),
                forall|k: int| 0 <= k < d ==> l@[k] != '.',
            decreases n - d,
        {
            d = d + 1;
        }
        proof {
            lemma_dot_from_unique(l@, 0, d as int);
        }
        let mut a: usize = 0;
        while a + 1 < d && l[a] == '0'
            invariant
                a < d <= n,
                n == l@.len(),
                lead_end(l@, 0, d as int) == lead_end(l@, a as int, d as int),
            decreases d - a,
        {
            a = a + 1;
        }
        let mut b: usize = n;
        if d < n {
            while b > d + 1 && l[b - 1] == '0'
                invariant
                    d < b <= n,
                    n == l@.len(),
                    trail_end(l@, n as int, d as int) == trail_end(l@, b as int, d as int),
                decreases b,
            {
                b = b - 1;
            }
        }
        let mut text = String::new();
        let mut k: usize = a;
        while k < d
            invariant
                a <= k <= d <= n,
                n == l@.len(),
                text@ == l@.subrange(a as int, k as int),
            decreases d - k,
        {
            push_char(&mut text, l[k]);
            k = k + 1;
            assert(text@ =~= l@.subrange(a as int, k as int));
        }
        if d < n && b > d + 1 {
            push_char(&mut text, '.');
            let mut k: usize = d + 1;
            while k < b
                invariant
                    d + 1 <= k <= b <= n,
                    a <= d,
                    n == l@.len(),
                    text@ == l@.subrange(a as int, d as int) + seq!['.'] + l@.subrange(d + 1, k as int),
                decreases b - k,
            {
                push_char(&mut text, l[k]);
                k = k + 1;
                assert(text@ =~= l@.subrange(a as int, d as int) + seq!['.'] + l@.subrange(d + 1, k as int));
            }
        }
        proof {
            assert(text@ =~= canonicalize(l@));
            lemma_canonicalize_is_canonical(l@);
            assert forall|m: nat| frac_digits(l@).len() <= m implies #[trigger] scaled_value(text@, m)
                == scaled_value(l@, m) by {
                lemma_canonicalize_keeps_value(l@, m);
            }
        }
        Number { text }
    }

    /// The decimal writing.
    pub fn to_text(&self) -> (r: String)
        ensures
            r@ == self@,
    {
        self.text.clone()
    }

    /// The `{:?}` writing of the number, as `f64` prints it (see
    /// `number_debug_text`).
    pub fn debug_text(&self) -> (r: String)
        ensures
            r@ == number_debug_text(self@),
    {
        proof {
            use_type_invariant(self);
        }
        let cs = chars_of(self.text.as_str());
        let n = cs.len();
        let mut d: usize = 0;
        while d < n && cs[d] != '.'
            invariant
                d <= n,
                n == cs@.len(),
                forall|k: int| 0 <= k < d ==> cs@[k] != '.',
            decreases n - d,
        {
            d = d + 1;
        }
        proof {
            lemma_dot_from_unique(cs@, 0, d as int);
        }
        if d > 16 {
            let mut digits: Vec<char> = Vec::new();
            let mut k: usize = 0;
            while k < d
                invariant
                    k <= d <= n,
                    n == cs@.len(),
                    digits@ == cs@.take(k as int),
                decreases d - k,
            {
                digits.push(cs[k]);
                k = k + 1;
                assert(digits@ =~= cs@.take(k as int));
            }
            if d < n {
                let mut k: usize = d + 1;
                while k < n
                    invariant
                        d + 1 <= k <= n,
                        n == cs@.len(),
                        digits@ == cs@.take(d as int) + cs@.subrange(d + 1, k as int),
                    decreases n - k,
                {
                    digits.push(cs[k]);
                    k = k + 1;
                    assert(digits@ =~= cs@.take(d as int) + cs@.subrange(d + 1, k as int));
                }
                assert(cs@.subrange(d + 1, n as int) =~= cs@.skip(d + 1));
            } else {
                assert(cs@.take(d as int) =~= cs@);
            }
            assert(digits@ == digits_of(cs@));
            let mut m: usize = digits.len();
            while m > 1 && digits[m - 1] == '0'
                invariant
                    1 <= m <= digits@.len(),
                    trim_end(digits@, digits@.len() as int) == trim_end(digits@, m as int),
                decreases m,
            {
                m = m - 1;
            }
            let mut r = mantissa_string(&digits, 0, m);
            push_char(&mut r, 'e');
            push_decimal(&mut r, (d - 1) as u64);
            proof {
                assert(digits@.subrange(0, m as int) =~= digits@.take(m as int));
            }
            r
        } else if d == 1 && n > 2 && cs[0] == '0' {
            let mut z: usize = 2;
            while z < n && cs[z] == '0'
                invariant
                    2 <= z <= n,
                    n == cs@.len(),
                    zero_run(cs@, 2) == zero_run(cs@, z as int),
                    forall|x: int| 2 <= x < z ==> cs@[x] == '0',
                decreases n - z,
            {
                z = z + 1;
            }
            if z >= 6 {
                assert(cs@[n - 1] != '0');
                let mut r = mantissa_string(&cs, z, n);
                push_char(&mut r, 'e');
                push_char(&mut r, '-');
                push_decimal(&mut r, (z - 1) as u64);
                proof {
                    assert(cs@.subrange(z as int, n as int) =~= cs@.skip(z as int));
                }
                r
            } else {
                self.text.clone()
            }
        } else if d == n {
            let mut r = self.text.clone();
            push_char(&mut r, '.');
            push_char(&mut r, '0');
            proof {
                assert(r@ =~= self@ + seq!['.', '0']);
            }
            r
        } else {
            self.text.clone()
        }
    }

    /// A copy of the number.
    pub fn duplicate(&self) -> (r: Number)
        ensures
            r@ == self@,
            r.wf(),
    {
        proof {
            use_type_invariant(self);
        }
        Number { text: self.text.clone() }
    }
}

impl Clone for Number {
    fn clone(&self) -> (r: Self)
        ensures
            r@ == self@,
    {
        self.duplicate()
    }
}

} // verus!
