//! The character classes of the G-code alphabet.

use vstd::prelude::*;

verus! {

/// A blank separates nothing: the reader drops spaces and horizontal tabs
/// wherever they stand, even inside a number.
pub open spec fn spec_is_blank(c: char) -> bool {
    c == ' ' || c == '\t'
}

/// An ASCII letter of either case.
pub open spec fn spec_is_letter(c: char) -> bool {
    ('a' <= c && c <= 'z') || ('A' <= c && c <= 'Z')
}

/// An ASCII decimal digit.
pub open spec fn spec_is_digit(c: char) -> bool {
    '0' <= c && c <= '9'
}

/// A plus or minus sign.
pub open spec fn spec_is_sign(c: char) -> bool {
    c == '+' || c == '-'
}

/// A character that the number scanner accumulates: a digit, a sign or
/// the decimal point.
pub open spec fn spec_is_number_char(c: char) -> bool {
    spec_is_digit(c) || spec_is_sign(c) || c == '.'
}

/// The upper-case form of an ASCII letter; every other character is left
/// as it is.
pub open spec fn spec_to_upper(c: char) -> char {
    if 'a' <= c && c <= 'z' {
        ((c as u32) - 32) as char
    } else {
        c
    }
}

/// A character with the Unicode property `White_Space`, which is what
/// trimming a line removes from both of its ends.
pub open spec fn spec_is_whitespace(c: char) -> bool {
    ||| ('\u{9}' <= c && c <= '\u{d}')
    ||| c == ' '
    ||| c == '\u{85}'
    ||| c == '\u{a0}'
    ||| c == '\u{1680}'
    ||| ('\u{2000}' <= c && c <= '\u{200a}')
    ||| c == '\u{2028}'
    ||| c == '\u{2029}'
    ||| c == '\u{202f}'
    ||| c == '\u{205f}'
    ||| c == '\u{3000}'
}

#[verifier::when_used_as_spec(spec_is_blank)]
pub fn is_blank(c: char) -> (b: bool)
    ensures
        b == spec_is_blank(c),
{
    c == ' ' || c == '\t'
}

#[verifier::when_used_as_spec(spec_is_letter)]
pub fn is_letter(c: char) -> (b: bool)
    ensures
        b == spec_is_letter(c),
{
    ('a' <= c && c <= 'z') || ('A' <= c && c <= 'Z')
}

#[verifier::when_used_as_spec(spec_is_digit)]
pub fn is_digit(c: char) -> (b: bool)
    ensures
        b == spec_is_digit(c),
{
    '0' <= c && c <= '9'
}

#[verifier::when_used_as_spec(spec_is_sign)]
pub fn is_sign(c: char) -> (b: bool)
    ensures
        b == spec_is_sign(c),
{
    c == '+' || c == '-'
}

#[verifier::when_used_as_spec(spec_is_number_char)]
pub fn is_number_char(c: char) -> (b: bool)
    ensures
        b == spec_is_number_char(c),
{
    is_digit(c) || is_sign(c) || c == '.'
}

#[verifier::when_used_as_spec(spec_to_upper)]
pub fn to_upper(c: char) -> (u: char)
    ensures
        u == spec_to_upper(c),
{
    if 'a' <= c && c <= 'z' {
        let code: u32 = c as u32;
        let shifted: u8 = (code - 32) as u8;
        shifted as char
    } else {
        c
    }
}

#[verifier::when_used_as_spec(spec_is_whitespace)]
pub fn is_whitespace(c: char) -> (b: bool)
    ensures
        b == spec_is_whitespace(c),
{
    ('\u{9}' <= c && c <= '\u{d}') || c == ' ' || c == '\u{85}' || c == '\u{a0}' || c == '\u{1680}'
        || ('\u{2000}' <= c && c <= '\u{200a}') || c == '\u{2028}' || c == '\u{2029}' || c
        == '\u{202f}' || c == '\u{205f}' || c == '\u{3000}'
}

/// Upper-casing yields an upper-case letter exactly on letters, and
/// changes nothing twice.
pub proof fn lemma_to_upper(c: char)
    ensures
        is_letter(c) <==> is_letter(to_upper(c)),
        is_letter(c) ==> 'A' <= to_upper(c) && to_upper(c) <= 'Z',
        !is_letter(c) ==> to_upper(c) == c,
        to_upper(to_upper(c)) == to_upper(c),
{
}

} // verus!
