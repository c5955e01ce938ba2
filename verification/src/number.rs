//! Decimal literals and their exact values.
//!
//! A literal is an optional sign followed by digits with at most one
//! decimal point among them: `12`, `+12.5`, `-.5`, `3.`.  Its value is
//! kept exactly, as an integer mantissa and the count of digits that
//! stood behind the point.

use vstd::prelude::*;
use crate::chars::{is_digit, is_sign};
use crate::prefix::{lemma_prefix_len, lemma_prefix_len_is, prefix_len};

verus! {

/// The most characters a literal may have.
pub const MAX_LITERAL_LEN: usize = 32;

/// An exact decimal number: `mantissa / 10^scale`, negated where
/// `negative` is set.
///
/// The fields record the literal as it was written: `5` and `5.0` are the
/// same quantity with different scales, and `-0` keeps its sign.
#[derive(Debug, Clone, Copy, PartialEq, Eq, Structural)]
pub struct Number {
    pub negative: bool,
    pub mantissa: u128,
    pub scale: u8,
}

/// What a digit counts for.
pub open spec fn digit_value(c: char) -> nat {
    (c as u32 - '0' as u32) as nat
}

/// The number that a run of digits denotes in base ten; the empty run
/// denotes zero.
pub open spec fn digits_value(digits: Seq<char>) -> nat
    decreases digits.len(),
{
    if digits.len() == 0 {
        0
    } else {
        10 * digits_value(digits.drop_last()) + digit_value(digits.last())
    }
}

pub open spec fn all_digits(s: Seq<char>) -> bool {
    forall|i: int| 0 <= i < s.len() ==> is_digit(#[trigger] s[i])
}

/// The literal without its sign.
pub open spec fn magnitude(text: Seq<char>) -> Seq<char> {
    if text.len() > 0 && is_sign(text[0]) {
        text.drop_first()
    } else {
        text
    }
}

/// Where the first decimal point of `body` stands, or its length if it
/// has none.
pub open spec fn point_index(body: Seq<char>) -> int {
    prefix_len(body, |c: char| c != '.') as int
}

/// What stands before the decimal point.
pub open spec fn integer_part(text: Seq<char>) -> Seq<char> {
    magnitude(text).take(point_index(magnitude(text)))
}

/// What stands behind the decimal point; empty where there is no point.
pub open spec fn fraction_part(text: Seq<char>) -> Seq<char> {
    let body = magnitude(text);
    if point_index(body) < body.len() {
        body.skip(point_index(body) + 1)
    } else {
        Seq::empty()
    }
}

/// The grammar of a literal: both sides of the point hold digits only,
/// at least one digit in all, and the whole is no longer than
/// `MAX_LITERAL_LEN`.
pub open spec fn is_literal(text: Seq<char>) -> bool {
    &&& text.len() <= MAX_LITERAL_LEN
    &&& all_digits(integer_part(text))
    &&& all_digits(fraction_part(text))
    &&& integer_part(text).len() + fraction_part(text).len() > 0
}

/// The number that a literal denotes.
pub open spec fn literal_value(text: Seq<char>) -> Number {
    Number {
        negative: text.len() > 0 && text[0] == '-',
        mantissa: digits_value(integer_part(text) + fraction_part(text)) as u128,
        scale: fraction_part(text).len() as u8,
    }
}

/// `10^n`.
pub open spec fn pow10(n: nat) -> nat
    decreases n,
{
    if n == 0 {
        1
    } else {
        10 * pow10((n - 1) as nat)
    }
}

pub proof fn lemma_pow10_monotonic(a: nat, b: nat)
    requires
        a <= b,
    ensures
        pow10(a) <= pow10(b),
    decreases b,
{
    if a < b {
        lemma_pow10_monotonic(a, (b - 1) as nat);
    }
}

/// A run of `n` digits denotes less than `10^n`.
pub proof fn lemma_digits_value_bound(digits: Seq<char>)
    requires
        all_digits(digits),
    ensures
        digits_value(digits) < pow10(digits.len()),
    decreases digits.len(),
{
    if digits.len() > 0 {
        let front = digits.drop_last();
        assert forall|i: int| 0 <= i < front.len() implies is_digit(#[trigger] front[i]) by {
            assert(front[i] == digits[i]);
        }
        lemma_digits_value_bound(front);
        assert(is_digit(digits[digits.len() - 1]));
    }
}

/// Thirty-two digits fit a `u128` with room for one more.
pub proof fn lemma_pow10_fits()
    ensures
        pow10(MAX_LITERAL_LEN as nat) == 100_000_000_000_000_000_000_000_000_000_000,
        10 * pow10(MAX_LITERAL_LEN as nat) < u128::MAX,
{
    reveal_with_fuel(pow10, 33);
}

/// The point of a body is at `d` if the body has a point there and none
/// before it.
pub proof fn lemma_point_at(body: Seq<char>, d: int)
    requires
        0 <= d < body.len(),
        body[d] == '.',
        all_digits(body.take(d)),
    ensures
        point_index(body) == d,
{
    let not_point = |c: char| c != '.';
    assert forall|i: int| 0 <= i < d implies not_point(#[trigger] body[i]) by {
        assert(body[i] == body.take(d)[i]);
    }
    lemma_prefix_len_is(body, not_point, d);
}

/// A body of digits has no point.
pub proof fn lemma_no_point(body: Seq<char>)
    requires
        all_digits(body),
    ensures
        point_index(body) == body.len(),
{
    let not_point = |c: char| c != '.';
    assert forall|i: int| 0 <= i < body.len() implies not_point(#[trigger] body[i]) by {
        assert(is_digit(body[i]));
    }
    lemma_prefix_len_is(body, not_point, body.len() as int);
}

impl Number {
    /// Reads a literal.
    ///
    /// Gives its value for a text that is a literal, and nothing for any
    /// other text.
    pub fn parse(text: &str) -> (r: Option<Number>)
        ensures
            r == if is_literal(text@) {
                Some(literal_value(text@))
            } else {
                None::<Number>
            },
    {
        broadcast use vstd::string::group_string_axioms;

        let mut negative = false;
        let mut signed = false;
        let mut mantissa: u128 = 0;
        let mut scale: u8 = 0;
        let mut digits: u8 = 0;
        let mut seen_point = false;
        let mut count: usize = 0;
        let ghost point: int = 0;
        for c in iter: text.chars()
            invariant
                iter.seq() == text@,
                count == iter.index(),
                count <= MAX_LITERAL_LEN,
                signed == (count > 0 && is_sign(text@[0])),
                negative == (count > 0 && text@[0] == '-'),
                digits <= count,
                scale <= digits,
                ({
                    let body = magnitude(text@.take(count as int));
                    if seen_point {
                        &&& 0 <= point < body.len()
                        &&& body[point] == '.'
                        &&& all_digits(body.take(point))
                        &&& all_digits(body.skip(point + 1))
                        &&& mantissa == digits_value(body.take(point) + body.skip(point + 1))
                        &&& scale == body.len() - point - 1
                        &&& digits == body.len() - 1
                    } else {
                        &&& all_digits(body)
                        &&& mantissa == digits_value(body)
                        &&& scale == 0
                        &&& digits == body.len()
                    }
                }),
        {
            let ghost seen = text@.take(count as int);
            let ghost body = magnitude(seen);
            let ghost next = text@.take(count + 1);
            let ghost next_body = magnitude(next);
            assert(c == text@[count as int]);
            assert(next == seen.push(c));
            if count >= MAX_LITERAL_LEN {
                return None;
            }
            if count == 0 && is_sign(c) {
                negative = c == '-';
                signed = true;
                assert(next_body == Seq::<char>::empty());
                assert(body == Seq::<char>::empty());
            } else {
                assert(next_body == body.push(c)) by {
                    if count == 0 {
                        assert(seen == Seq::<char>::empty());
                    }
                }
                if is_digit(c) {
                    let d: u8 = (c as u32 - '0' as u32) as u8;
                    proof {
                        let run = if seen_point {
                            body.take(point) + body.skip(point + 1)
                        } else {
                            body
                        };
                        let next_run = if seen_point {
                            next_body.take(point) + next_body.skip(point + 1)
                        } else {
                            next_body
                        };
                        if seen_point {
                            assert(next_body.take(point) == body.take(point));
                            assert(next_body.skip(point + 1) == body.skip(point + 1).push(c));
                        }
                        assert(next_run == run.push(c));
                        assert(next_run.drop_last() == run);
                        assert(all_digits(run));
                        lemma_digits_value_bound(run);
                        lemma_pow10_monotonic(run.len(), MAX_LITERAL_LEN as nat);
                        lemma_pow10_fits();
                    }
                    mantissa = mantissa * 10 + d as u128;
                    digits = digits + 1;
                    if seen_point {
                        scale = scale + 1;
                    }
                } else if c == '.' && !seen_point {
                    seen_point = true;
                    proof {
                        point = body.len() as int;
                        assert(next_body.take(point) == body);
                        assert(next_body.skip(point + 1) == Seq::<char>::empty());
                        assert(body + Seq::<char>::empty() == body);
                    }
                } else {
                    proof {
                        lemma_refused(text@, count as int, seen_point, point);
                    }
                    return None;
                }
            }
            count = count + 1;
        }
        assert(text@.take(count as int) == text@);
        let ghost body = magnitude(text@);
        proof {
            if seen_point {
                lemma_point_at(body, point);
            } else {
                lemma_no_point(body);
                assert(body.take(body.len() as int) == body);
                assert(body + Seq::<char>::empty() == body);
            }
        }
        if digits == 0 {
            return None;
        }
        Some(Number { negative, mantissa, scale })
    }
}

/// A text is no literal if, after a well-formed start of `count`
/// characters, it goes on with a character that can no longer belong to
/// one: a second point, or anything but a digit.
proof fn lemma_refused(text: Seq<char>, count: int, seen_point: bool, point: int)
    requires
        0 <= count < text.len(),
        !is_digit(text[count]),
        !(count == 0 && is_sign(text[0])),
        text[count] == '.' ==> seen_point,
        ({
            let body = magnitude(text.take(count));
            if seen_point {
                &&& 0 <= point < body.len()
                &&& body[point] == '.'
                &&& all_digits(body.take(point))
            } else {
                all_digits(body)
            }
        }),
    ensures
        !is_literal(text),
{
    let body = magnitude(text);
    let seen_body = magnitude(text.take(count));
    let offset = text.len() - body.len();
    let at = count - offset;
    assert(body[at] == text[count]);
    assert(seen_body == body.take(at));
    if seen_point {
        assert(body.take(point) == seen_body.take(point));
        lemma_point_at(body, point);
        assert(fraction_part(text)[at - point - 1] == text[count]);
    } else {
        let not_point = |c: char| c != '.';
        assert forall|i: int| 0 <= i < at implies not_point(#[trigger] body[i]) by {
            assert(body[i] == seen_body[i]);
            assert(is_digit(seen_body[i]));
        }
        lemma_prefix_len(body, not_point);
        if point_index(body) < at {
            assert(not_point(body[point_index(body)]));
        }
        assert(integer_part(text)[at] == text[count]);
    }
}

} // verus!
