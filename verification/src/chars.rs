use vstd::prelude::*;

verus! {

/// The characters that carry the Unicode `White_Space` property
/// (the list of `PropList.txt`).
pub open spec fn spec_is_whitespace(c: char) -> bool {
    let u = c as int;
    ||| 0x09 <= u <= 0x0d
    ||| u == 0x20
    ||| u == 0x85
    ||| u == 0xa0
    ||| u == 0x1680
    ||| 0x2000 <= u <= 0x200a
    ||| u == 0x2028
    ||| u == 0x2029
    ||| u == 0x202f
    ||| u == 0x205f
    ||| u == 0x3000
}

/// A decimal digit `0`..=`9`.
pub open spec fn spec_is_decimal_digit(c: char) -> bool {
    '0' <= c <= '9'
}

pub open spec fn is_ascii_char(c: char) -> bool {
    (c as int) < 0x80
}

pub open spec fn is_ascii_letter(c: char) -> bool {
    ('a' <= c <= 'z') || ('A' <= c <= 'Z')
}

/// Whether a non-ASCII character has the Unicode `Alphabetic` property.
pub uninterp spec fn unicode_alphabetic(c: char) -> bool;

/// Whether a non-ASCII character has the Unicode `Numeric` property
/// (general category `Nd`, `Nl` or `No`).
pub uninterp spec fn unicode_numeric(c: char) -> bool;

/// What `char::is_alphabetic` answers: on ASCII exactly the letters; no
/// `White_Space` character (all of general category `Cc`, `Zs`, `Zl` or
/// `Zp`) is `Alphabetic`; elsewhere the Unicode `Alphabetic` property.
pub open spec fn spec_is_alphabetic(c: char) -> bool {
    if is_ascii_char(c) {
        is_ascii_letter(c)
    } else if spec_is_whitespace(c) {
        false
    } else {
        unicode_alphabetic(c)
    }
}

/// What `char::is_alphanumeric` answers: `is_alphabetic() || is_numeric()`;
/// on ASCII exactly the letters and the digits; no `White_Space` character is
/// `Alphabetic` or `Numeric`; elsewhere the Unicode `Alphabetic` or `Numeric`
/// property.
pub open spec fn spec_is_alphanumeric(c: char) -> bool {
    if is_ascii_char(c) {
        is_ascii_letter(c) || spec_is_decimal_digit(c)
    } else if spec_is_whitespace(c) {
        false
    } else {
        unicode_alphabetic(c) || unicode_numeric(c)
    }
}

/// Calls `char::is_whitespace`, which holds exactly of the characters with the
/// Unicode `White_Space` property; the contract lists them.
#[verifier::external_body]
pub(crate) fn char_is_whitespace(c: char) -> (r: bool)
    ensures
        r == spec_is_whitespace(c),
{
    c.is_whitespace()
}

/// Calls `char::is_digit(10)`, which holds exactly of `'0'..='9'` (radix 10
/// does not panic).
#[verifier::external_body]
pub(crate) fn char_is_decimal_digit(c: char) -> (r: bool)
    ensures
        r == spec_is_decimal_digit(c),
{
    c.is_digit(10)
}

/// Calls `char::is_alphabetic` (the Unicode `Alphabetic` property). The
/// contract states the ASCII part (the letters `a-z`, `A-Z`), that no
/// `White_Space` character is `Alphabetic` (they are controls, spaces and
/// separators), and leaves the rest of Unicode under the name
/// `unicode_alphabetic`.
#[verifier::external_body]
pub(crate) fn char_is_alphabetic(c: char) -> (r: bool)
    ensures
        r == spec_is_alphabetic(c),
        !is_ascii_char(c) && !spec_is_whitespace(c) ==> r == unicode_alphabetic(c),
{
    c.is_alphabetic()
}

/// Calls `char::is_alphanumeric`, which std defines as `is_alphabetic() ||
/// is_numeric()`. The contract states the ASCII part (letters and digits),
/// that no `White_Space` character is `Alphabetic` or `Numeric` (general
/// categories `Cc`, `Zs`, `Zl`, `Zp`, not `Nd`, `Nl`, `No`); elsewhere it is
/// the `Alphabetic` property (the name `unicode_alphabetic`) or the `Numeric`
/// property (the name `unicode_numeric`).
#[verifier::external_body]
pub(crate) fn char_is_alphanumeric(c: char) -> (r: bool)
    ensures
        r == spec_is_alphanumeric(c),
        !is_ascii_char(c) && !spec_is_whitespace(c) ==> r == (unicode_alphabetic(c)
            || unicode_numeric(c)),
{
    c.is_alphanumeric()
}

} // verus!
