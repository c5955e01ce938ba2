//! Numbers, words and blocks written out as text that parses back to them.

use vstd::prelude::*;
use vstd::string::StringExecFns;
use crate::chars::{is_digit, is_number_char};
use crate::parser::{Block, Content, Word};
use crate::number::{
    all_digits, digit_value, digits_value, fraction_part, integer_part, is_literal,
    lemma_digits_value_bound, lemma_no_point, lemma_point_at, lemma_pow10_fits,
    lemma_pow10_monotonic, literal_value, magnitude, pow10, Number, MAX_LITERAL_LEN,
};
use crate::prefix::lemma_prefix_len;

verus! {

/// `String::push`: appends one character to the string.
pub assume_specification[ String::push ](s: &mut String, c: char)
    ensures
        final(s)@ == old(s)@.push(c),
;

/// The digit that counts for `d`.
pub open spec fn digit_char(d: nat) -> char {
    ('0' as u32 + d as u32) as char
}

/// The digits of `n` in base ten, the most significant first; zero has
/// none.
pub open spec fn digits_of(n: nat) -> Seq<char>
    decreases n,
{
    if n == 0 {
        Seq::empty()
    } else {
        digits_of(n / 10).push(digit_char(n % 10))
    }
}

/// `count` zeros.
pub open spec fn zeros(count: nat) -> Seq<char> {
    Seq::new(count, |i: int| '0')
}

/// The digits of `n`, with zeros in front where they are fewer than
/// `width`.
pub open spec fn padded_digits(n: nat, width: nat) -> Seq<char> {
    let digits = digits_of(n);
    if digits.len() >= width {
        digits
    } else {
        zeros((width - digits.len()) as nat) + digits
    }
}

/// The digits that a number is written with: as many as its scale asks
/// for, and one at least.
pub open spec fn number_digits(number: Number) -> Seq<char> {
    padded_digits(
        number.mantissa as nat,
        if number.scale == 0 {
            1
        } else {
            number.scale as nat
        },
    )
}

/// A number as a literal: a minus sign if it is negative, then its
/// digits, with a point before the last `scale` of them.  No digit stands
/// before the point where the number has none there: `.5`, not `0.5`.
#[verifier::opaque]
pub open spec fn number_text(number: Number) -> Seq<char> {
    let digits = number_digits(number);
    let sign = if number.negative {
        seq!['-']
    } else {
        Seq::<char>::empty()
    };
    if number.scale == 0 {
        sign + digits
    } else {
        sign + digits.take(digits.len() - number.scale) + seq!['.'] + digits.skip(
            digits.len() - number.scale,
        )
    }
}

/// A digit character counts for what it was made from.
pub proof fn lemma_digit_char(d: nat)
    requires
        d < 10,
    ensures
        is_digit(digit_char(d)),
        digit_value(digit_char(d)) == d,
{
}

/// The value of a run with one more digit behind it.
pub proof fn lemma_digits_value_push(digits: Seq<char>, c: char)
    ensures
        digits_value(digits.push(c)) == 10 * digits_value(digits) + digit_value(c),
{
    assert(digits.push(c).drop_last() == digits);
}

/// The digits of a number are digits, and denote it.
pub proof fn lemma_digits_of(n: nat)
    ensures
        all_digits(digits_of(n)),
        digits_value(digits_of(n)) == n,
    decreases n,
{
    if n > 0 {
        lemma_digits_of(n / 10);
        lemma_digit_char(n % 10);
        lemma_digits_value_push(digits_of(n / 10), digit_char(n % 10));
    }
}

/// A number below `10^k` has at most `k` digits.
pub proof fn lemma_digits_of_len(n: nat, k: nat)
    requires
        n < pow10(k),
    ensures
        digits_of(n).len() <= k,
    decreases n,
{
    if n > 0 {
        assert(k > 0);
        lemma_digits_of_len(n / 10, (k - 1) as nat);
    }
}

/// Zeros in front do not change what a run of digits denotes.
pub proof fn lemma_leading_zeros(count: nat, digits: Seq<char>)
    ensures
        digits_value(zeros(count) + digits) == digits_value(digits),
        all_digits(digits) ==> all_digits(zeros(count) + digits),
    decreases digits.len(), count,
{
    let all = zeros(count) + digits;
    if digits.len() > 0 {
        assert(all.drop_last() == zeros(count) + digits.drop_last());
        lemma_leading_zeros(count, digits.drop_last());
    } else if count > 0 {
        assert(all == zeros(count));
        assert(all.drop_last() == zeros((count - 1) as nat) + digits);
        lemma_leading_zeros((count - 1) as nat, digits);
    } else {
        assert(all == digits);
    }
    if all_digits(digits) {
        assert forall|i: int| 0 <= i < all.len() implies is_digit(#[trigger] all[i]) by {
            if i >= count {
                assert(all[i] == digits[i - count]);
            }
        }
    }
}

/// The digits that a number is written with are digits, denote its
/// mantissa, and are as many as its scale at least.
pub proof fn lemma_number_digits(number: Number)
    ensures
        all_digits(number_digits(number)),
        digits_value(number_digits(number)) == number.mantissa,
        number_digits(number).len() >= number.scale,
        number_digits(number).len() >= 1,
{
    let n = number.mantissa as nat;
    let digits = digits_of(n);
    lemma_digits_of(n);
    let width: nat = if number.scale == 0 {
        1
    } else {
        number.scale as nat
    };
    if digits.len() < width {
        lemma_leading_zeros((width - digits.len()) as nat, digits);
    }
}

/// A number that is written with no more characters than a literal may
/// have is read back as it was.
pub proof fn lemma_number_text_parses(number: Number)
    requires
        number_text(number).len() <= MAX_LITERAL_LEN,
    ensures
        is_literal(number_text(number)),
        literal_value(number_text(number)) == number,
{
    reveal(number_text);
    lemma_number_digits(number);
    let digits = number_digits(number);
    let text = number_text(number);
    let split = digits.len() - number.scale;
    let body = if number.scale == 0 {
        digits
    } else {
        digits.take(split) + seq!['.'] + digits.skip(split)
    };
    assert(is_digit(digits[0]));
    if number.scale > 0 && split == 0 {
        assert(body[0] == '.');
    } else {
        assert(body[0] == digits[0]);
    }
    if number.negative {
        assert(text == seq!['-'] + body);
        assert(text[0] == '-');
        assert(text.drop_first() == body);
    } else {
        assert(text == body);
        assert(text[0] == body[0]);
    }
    assert(magnitude(text) == body);
    if number.scale == 0 {
        lemma_no_point(body);
        assert(body.take(body.len() as int) == body);
        assert(body + Seq::<char>::empty() == body);
        assert(integer_part(text) == digits);
        assert(fraction_part(text) == Seq::<char>::empty());
    } else {
        assert(body[split] == '.');
        assert(body.take(split) == digits.take(split));
        assert forall|i: int| 0 <= i < split implies is_digit(#[trigger] digits.take(split)[i]) by {
            assert(digits.take(split)[i] == digits[i]);
        }
        lemma_point_at(body, split);
        assert(body.skip(split + 1) == digits.skip(split));
        assert forall|i: int| 0 <= i < digits.skip(split).len() implies is_digit(
            #[trigger] digits.skip(split)[i],
        ) by {
            assert(digits.skip(split)[i] == digits[i + split]);
        }
        assert(digits.take(split) + digits.skip(split) == digits);
        assert(integer_part(text) == digits.take(split));
        assert(fraction_part(text) == digits.skip(split));
    }
}

/// What a literal denotes is written with no more characters than the
/// literal had.
pub proof fn lemma_literal_value_fits(text: Seq<char>)
    requires
        is_literal(text),
    ensures
        number_text(literal_value(text)).len() <= text.len(),
        literal_value(text).mantissa == digits_value(integer_part(text) + fraction_part(text)),
        literal_value(text).scale == fraction_part(text).len(),
{
    reveal(number_text);
    let body = magnitude(text);
    let whole = integer_part(text);
    let fraction = fraction_part(text);
    let run = whole + fraction;
    lemma_prefix_len(body, |c: char| c != '.');
    assert forall|i: int| 0 <= i < run.len() implies is_digit(#[trigger] run[i]) by {
        if i < whole.len() {
            assert(run[i] == whole[i]);
        } else {
            assert(run[i] == fraction[i - whole.len()]);
        }
    }
    lemma_digits_value_bound(run);
    lemma_pow10_monotonic(run.len(), MAX_LITERAL_LEN as nat);
    lemma_pow10_fits();
    let number = literal_value(text);
    assert(number.mantissa == digits_value(run));
    assert(number.scale == fraction.len());
    lemma_digits_of_len(number.mantissa as nat, run.len());
    let digits = number_digits(number);
    assert(digits.len() <= run.len());
}

/// Appends the digits from `from` up to `to` of a number that is written
/// with `total` digits, the most significant first.  `digits` holds the
/// digits of the number the other way round, without zeros in front.
fn write_digits(
    text: &mut String,
    digits: &Vec<char>,
    total: usize,
    from: usize,
    to: usize,
    Ghost(written): Ghost<Seq<char>>,
)
    requires
        digits.len() <= total,
        from <= to <= total,
        written.len() == total,
        forall|i: int|
            0 <= i < total ==> #[trigger] written[i] == if i < total - digits.len() {
                '0'
            } else {
                digits[total - 1 - i]
            },
    ensures
        final(text)@ == old(text)@ + written.subrange(from as int, to as int),
{
    let mut at = from;
    assert(written.subrange(from as int, from as int) == Seq::<char>::empty());
    assert(text@ + Seq::<char>::empty() == text@);
    while at < to
        invariant
            digits.len() <= total,
            from <= at <= to <= total,
            written.len() == total,
            forall|i: int|
                0 <= i < total ==> #[trigger] written[i] == if i < total - digits.len() {
                    '0'
                } else {
                    digits[total - 1 - i]
                },
            text@ == old(text)@ + written.subrange(from as int, at as int),
        decreases to - at,
    {
        let c = if at < total - digits.len() {
            '0'
        } else {
            digits[total - 1 - at]
        };
        assert(c == written[at as int]);
        assert(written.subrange(from as int, at + 1) == written.subrange(
            from as int,
            at as int,
        ).push(c));
        text.push(c);
        at = at + 1;
    }
}

impl Number {
    /// Writes the number as a literal.
    pub fn to_text(&self) -> (text: String)
        ensures
            text@ == number_text(*self),
    {
        let mut digits: Vec<char> = Vec::new();
        let mut n = self.mantissa;
        let ghost tail = Seq::<char>::empty();
        assert(digits_of(n as nat) + tail == digits_of(n as nat));
        while n > 0
            invariant
                digits_of(self.mantissa as nat) == digits_of(n as nat) + tail,
                tail.len() == digits.len(),
                forall|i: int| 0 <= i < tail.len() ==> #[trigger] tail[i] == digits[tail.len() - 1 - i],
            decreases n,
        {
            let d: u8 = (n % 10) as u8;
            let c: char = (48u8 + d) as char;
            assert(c == digit_char((n % 10) as nat));
            proof {
                let before = digits_of((n / 10) as nat);
                assert(before.push(c) + tail == before + (seq![c] + tail));
                tail = seq![c] + tail;
            }
            digits.push(c);
            n = n / 10;
        }
        assert(digits_of(self.mantissa as nat) == tail);
        let width: usize = if self.scale == 0 {
            1
        } else {
            self.scale as usize
        };
        let total: usize = if digits.len() >= width {
            digits.len()
        } else {
            width
        };
        let ghost written = number_digits(*self);
        assert(written.len() == total);
        assert forall|i: int| 0 <= i < total implies #[trigger] written[i] == if i < total
            - digits.len() {
            '0'
        } else {
            digits[total - 1 - i]
        } by {
            if i >= total - digits.len() {
                assert(written[i] == tail[i - (total - digits.len())]);
            }
        }
        let mut text = String::new();
        if self.negative {
            text.push('-');
        }
        let split: usize = total - self.scale as usize;
        write_digits(&mut text, &digits, total, 0, split, Ghost(written));
        if self.scale > 0 {
            text.push('.');
            write_digits(&mut text, &digits, total, split, total, Ghost(written));
        }
        proof {
            reveal(number_text);
            let sign = if self.negative {
                seq!['-']
            } else {
                Seq::<char>::empty()
            };
            assert(Seq::<char>::empty().push('-') == seq!['-']);
            assert(written.subrange(0, split as int) == written.take(split as int));
            assert(written.subrange(split as int, total as int) == written.skip(split as int));
            if self.scale == 0 {
                assert(written.take(split as int) == written);
            } else {
                assert((sign + written.take(split as int)).push('.') == sign + written.take(
                    split as int,
                ) + seq!['.']);
            }
        }
        text
    }
}

/// A number is written with digits, a sign and a point only, ends in a
/// digit, and holds no blank.
pub proof fn lemma_number_text_chars(number: Number)
    ensures
        number_text(number).len() > 0,
        forall|i: int|
            0 <= i < number_text(number).len() ==> is_number_char(#[trigger] number_text(number)[i]),
        is_digit(number_text(number).last()),
{
    reveal(number_text);
    lemma_number_digits(number);
    let digits = number_digits(number);
    let text = number_text(number);
    let split = digits.len() - number.scale;
    let sign = if number.negative {
        seq!['-']
    } else {
        Seq::<char>::empty()
    };
    assert(is_digit(digits.last()));
    if number.scale == 0 {
        assert(text == sign + digits);
        assert forall|i: int| 0 <= i < text.len() implies is_number_char(#[trigger] text[i]) by {
            if i >= sign.len() {
                assert(text[i] == digits[i - sign.len()]);
            }
        }
        assert(text.last() == digits.last());
    } else {
        let whole = digits.take(split);
        let fraction = digits.skip(split);
        assert(text == sign + whole + seq!['.'] + fraction);
        assert forall|i: int| 0 <= i < text.len() implies is_number_char(#[trigger] text[i]) by {
            if i < sign.len() {
            } else if i < sign.len() + whole.len() {
                assert(text[i] == digits[i - sign.len()]);
            } else if i == sign.len() + whole.len() {
            } else {
                assert(text[i] == fraction[i - sign.len() - whole.len() - 1]);
                assert(fraction[i - sign.len() - whole.len() - 1] == digits[i - sign.len() - 1]);
            }
        }
        assert(text.last() == fraction.last());
        assert(fraction.last() == digits.last());
    }
}

/// A word with blanks before its letter and before its number.
pub open spec fn spaced_word(letter: char, value: Number) -> Seq<char> {
    seq![' ', letter, ' '] + number_text(value)
}

/// The words one after the other, each with a blank before it.
pub open spec fn spaced_words(words: Seq<Word>) -> Seq<char>
    decreases words.len(),
{
    if words.len() == 0 {
        Seq::empty()
    } else {
        spaced_word(words[0].mnemonic, words[0].value) + spaced_words(words.drop_first())
    }
}

/// All that a block holds, each part with a blank before it: the `/` of
/// a deleted block, the line number as a word `N`, and the words.
pub open spec fn spaced_block(content: Content) -> Seq<char> {
    let mark = if content.deleted {
        seq![' ', '/']
    } else {
        Seq::<char>::empty()
    };
    let number = match content.line_number {
        Some(value) => spaced_word('N', value),
        None => Seq::<char>::empty(),
    };
    mark + number + spaced_words(content.words)
}

/// The text without the blank that it begins with.
pub open spec fn unspaced(spaced: Seq<char>) -> Seq<char> {
    if spaced.len() > 0 {
        spaced.drop_first()
    } else {
        spaced
    }
}

/// A block as a line of a program: `/ N10 G 1 X 12.5`.
pub open spec fn block_text(content: Content) -> Seq<char> {
    unspaced(spaced_block(content))
}

/// The words with one more behind them.
pub proof fn lemma_spaced_words_push(words: Seq<Word>, word: Word)
    ensures
        spaced_words(words.push(word)) == spaced_words(words) + spaced_word(
            word.mnemonic,
            word.value,
        ),
    decreases words.len(),
{
    let all = words.push(word);
    let last = spaced_word(word.mnemonic, word.value);
    assert(all[0] == if words.len() == 0 {
        word
    } else {
        words[0]
    });
    if words.len() == 0 {
        assert(all.drop_first() == Seq::<Word>::empty());
        assert(spaced_words(all.drop_first()) == Seq::<char>::empty());
        assert(spaced_words(all) == last + Seq::<char>::empty());
        assert(last + Seq::<char>::empty() == Seq::<char>::empty() + last);
    } else {
        assert(all.drop_first() == words.drop_first().push(word));
        lemma_spaced_words_push(words.drop_first(), word);
        let first = spaced_word(words[0].mnemonic, words[0].value);
        assert(spaced_words(all) == first + spaced_words(all.drop_first()));
        assert(first + (spaced_words(words.drop_first()) + last) == (first + spaced_words(
            words.drop_first(),
        )) + last);
    }
}

/// Appends a word to a text that holds `spaced` without its first
/// blank.
fn write_word(
    text: &mut String,
    started: bool,
    letter: char,
    value: &Number,
    Ghost(spaced): Ghost<Seq<char>>,
)
    requires
        old(text)@ == unspaced(spaced),
        started == (spaced.len() > 0),
    ensures
        final(text)@ == unspaced(spaced + spaced_word(letter, *value)),
{
    if started {
        text.push(' ');
    }
    text.push(letter);
    text.push(' ');
    let number = value.to_text();
    text.append(number.as_str());
    proof {
        let word = spaced_word(letter, *value);
        let tail = seq![letter, ' '] + number_text(*value);
        assert(word.drop_first() == tail);
        if started {
            assert(text@ == spaced.drop_first() + word);
            assert((spaced + word).drop_first() == spaced.drop_first() + word);
        } else {
            assert(text@ == tail);
            assert(spaced + word == word);
        }
    }
}

impl Block {
    /// Writes the block as a line of a program: the `/` of a deleted
    /// block, the line number as a word `N`, then the words, with blanks
    /// between them.
    pub fn to_text(&self) -> (text: String)
        ensures
            text@ == block_text(self@.content),
    {
        let mut text = String::new();
        let ghost spaced = Seq::<char>::empty();
        let mut started = false;
        if self.deleted {
            text.push('/');
            started = true;
            proof {
                spaced = seq![' ', '/'];
                assert(text@ == spaced.drop_first());
            }
        }
        if let Some(value) = &self.line_number {
            write_word(&mut text, started, 'N', value, Ghost(spaced));
            started = true;
            proof {
                spaced = spaced + spaced_word('N', *value);
            }
        }
        let ghost head = spaced;
        let mut at: usize = 0;
        assert(self.words@.take(0) == Seq::<Word>::empty());
        assert(head + Seq::<char>::empty() == head);
        while at < self.words.len()
            invariant
                at <= self.words.len(),
                spaced == head + spaced_words(self.words@.take(at as int)),
                text@ == unspaced(spaced),
                started == (spaced.len() > 0),
            decreases self.words.len() - at,
        {
            let word = &self.words[at];
            write_word(&mut text, started, word.mnemonic, &word.value, Ghost(spaced));
            started = true;
            proof {
                let done = self.words@.take(at as int);
                lemma_spaced_words_push(done, *word);
                assert(self.words@.take(at + 1) == done.push(*word));
                let one = spaced_word(word.mnemonic, word.value);
                assert(head + (spaced_words(done) + one) == (head + spaced_words(done)) + one);
                spaced = spaced + one;
            }
            at = at + 1;
        }
        assert(self.words@.take(at as int) == self.words@);
        text
    }
}

} // verus!
