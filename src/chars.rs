//! Character classes and conversions between strings and character vectors.

use vstd::prelude::*;

verus! {

/// What `char::is_whitespace` says of a character outside ASCII.
pub uninterp spec fn unicode_white(c: char) -> bool;

/// What `char::is_alphanumeric` says of a character outside ASCII.
pub uninterp spec fn unicode_alnum(c: char) -> bool;

/// White space as Unicode's `White_Space` property defines it.
pub open spec fn is_white(c: char) -> bool {
    if (c as u32) < 128 {
        c == ' ' || ('\t' <= c && c <= '\r')
    } else {
        unicode_white(c)
    }
}

/// A character that may stand in a variable name: a letter, a number, `_` or `-`.
pub open spec fn is_name_char(c: char) -> bool {
    if (c as u32) < 128 {
        ('a' <= c && c <= 'z') || ('A' <= c && c <= 'Z') || ('0' <= c && c <= '9') || c == '_'
            || c == '-'
    } else {
        unicode_alnum(c)
    }
}

/// Relies on `char::is_whitespace` for characters outside ASCII.
#[verifier::external_body]
fn std_is_whitespace(c: char) -> (r: bool)
    requires
        c as u32 >= 128,
    ensures
        r == unicode_white(c),
{
    c.is_whitespace()
}

/// Relies on `char::is_alphanumeric` for characters outside ASCII.
#[verifier::external_body]
pub(crate) fn std_is_alphanumeric(c: char) -> (r: bool)
    requires
        c as u32 >= 128,
    ensures
        r == unicode_alnum(c),
{
    c.is_alphanumeric()
}

pub fn is_whitespace(c: char) -> (r: bool)
    ensures
        r == is_white(c),
{
    if (c as u32) < 128 {
        c == ' ' || ('\t' <= c && c <= '\r')
    } else {
        std_is_whitespace(c)
    }
}

pub fn is_var_char(c: char) -> (r: bool)
    ensures
        r == is_name_char(c),
{
    if (c as u32) < 128 {
        ('a' <= c && c <= 'z') || ('A' <= c && c <= 'Z') || ('0' <= c && c <= '9') || c == '_'
            || c == '-'
    } else {
        std_is_alphanumeric(c)
    }
}

/// The characters of a string, in order.
pub fn to_chars(s: &str) -> (r: Vec<char>)
    ensures
        r@ == s@,
{
    let mut v: Vec<char> = Vec::new();
    for c in it: s.chars()
        invariant
            v@ == it.seq().take(it.index() as int),
    {
        v.push(c);
    }
    v
}

/// Relies on `String: FromIterator<&char>`: the string holds the characters in order.
#[verifier::external_body]
pub(crate) fn from_chars(v: &[char]) -> (r: String)
    ensures
        r@ == v@,
{
    v.iter().collect()
}

} // verus!
