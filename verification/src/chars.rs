//! Character-level rules shared by the compiler and the matcher.

use vstd::prelude::*;

verus! {

/// The path separator.
pub open spec fn is_separator(c: char) -> bool {
    c == '/'
}

/// Whether `c` is one of `a`..=`z`.
pub open spec fn is_ascii_lower(c: char) -> bool {
    'a' <= c <= 'z'
}

/// Whether `c` is one of `A`..=`Z`.
pub open spec fn is_ascii_upper(c: char) -> bool {
    'A' <= c <= 'Z'
}

/// Lower-case form of an ASCII letter; every other character is unchanged.
pub open spec fn ascii_lower(c: char) -> char {
    if is_ascii_upper(c) {
        ((c as u32) + 32) as char
    } else {
        c
    }
}

/// Equality of two characters, ignoring the case of ASCII letters unless
/// `case_sensitive` is set.
pub open spec fn chars_match(a: char, b: char, case_sensitive: bool) -> bool {
    if case_sensitive {
        a == b
    } else {
        ascii_lower(a) == ascii_lower(b)
    }
}

/// Whether the code point of `c` is a Unicode scalar value, as that of every
/// `char` is.
pub open spec fn is_scalar(c: char) -> bool {
    0 <= c as int <= 0xD7FF || 0xE000 <= c as int <= 0x10FFFF
}

/// Every `char` is a scalar value.
pub proof fn lemma_char_is_scalar(c: char)
    ensures
        is_scalar(c),
{
}

/// The characters of a sequence are scalar values, like any other `char`.
pub broadcast proof fn lemma_seq_chars_are_scalars(s: Seq<char>, i: int)
    ensures
        is_scalar(#[trigger] s[i]),
{
    lemma_char_is_scalar(s[i]);
}

/// Tests for the path separator.
pub fn is_sep(c: char) -> (r: bool)
    ensures
        r == is_separator(c),
{
    c == '/'
}

/// Computes [`ascii_lower`].
pub fn to_ascii_lower(c: char) -> (r: char)
    ensures
        r == ascii_lower(c),
{
    if 'A' <= c && c <= 'Z' {
        ((c as u8) + 32u8) as char
    } else {
        c
    }
}

/// Determines if two chars are (possibly case-insensitively) equal.
pub fn chars_eq(a: char, b: char, case_sensitive: bool) -> (r: bool)
    ensures
        r == chars_match(a, b, case_sensitive),
{
    if !case_sensitive && a <= '\x7f' && b <= '\x7f' {
        to_ascii_lower(a) == to_ascii_lower(b)
    } else {
        a == b
    }
}

} // verus!
