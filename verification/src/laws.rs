//! What holds of the lexer and the parser on every input.

use vstd::prelude::*;
use crate::chars::{
    is_blank, is_digit, is_letter, is_number_char, is_whitespace, lemma_to_upper, to_upper,
};
use crate::lexer::{
    after_comments, after_line_comment, in_block_comment, in_line_comment, in_number,
    lemma_lex_progress, lemma_strip_blanks_step, lex, number_run, scan, strip_blanks,
    LexerErrorView, Token,
};
use crate::number::{
    fraction_part, integer_part, is_literal, literal_value, magnitude, point_index, Number,
    MAX_LITERAL_LEN,
};
use crate::parser::{
    assemble_words, empty_content, parse_line, parse_stream, with_word, BlockView, Content,
    ParserErrorView, Word,
};
use crate::prefix::{lemma_prefix_len, lemma_prefix_len_concat, lemma_prefix_len_is, prefix_len};
use crate::render::{
    block_text, lemma_literal_value_fits, lemma_number_text_chars, lemma_number_text_parses,
    number_text, spaced_block, spaced_word, spaced_words, unspaced,
};
use crate::trim::{
    all_whitespace, is_trimmed, lemma_trim_parts, lemma_trimmed_keeps, lemma_trimmed_of, trimmed,
};

verus! {

/// Holds where every character of `text` is a blank.
pub open spec fn all_blank(text: Seq<char>) -> bool {
    forall|i: int| 0 <= i < text.len() ==> is_blank(#[trigger] text[i])
}

/// Holds where the token at `i` is the letter `letter` and a number
/// follows it.
pub open spec fn is_word_at(tokens: Seq<Token>, i: int, letter: char) -> bool {
    &&& 0 <= i
    &&& i + 1 < tokens.len()
    &&& tokens[i] == Token::Letter(letter)
    &&& tokens[i + 1] is Number
}

/// Holds where the tokens hold the word `N` with the number `value`.
pub open spec fn has_line_number(tokens: Seq<Token>, value: Number) -> bool {
    exists|i: int| #[trigger] is_word_at(tokens, i, 'N') && tokens[i + 1] == Token::Number(value)
}

/// Nothing is left of blanks.
proof fn lemma_strip_all_blank(text: Seq<char>)
    requires
        all_blank(text),
    ensures
        strip_blanks(text) == Seq::<char>::empty(),
    decreases text.len(),
{
    lemma_strip_blanks_step(text);
    if text.len() > 0 {
        assert(is_blank(text[0]));
        let rest = text.drop_first();
        assert forall|i: int| 0 <= i < rest.len() implies is_blank(#[trigger] rest[i]) by {
            assert(rest[i] == text[i + 1]);
        }
        lemma_strip_all_blank(rest);
    }
}

/// Blanks are invisible: with blanks put in at any place, between
/// tokens or inside one, the lexer has the same characters pending and
/// yields the same tokens.
pub proof fn lemma_blanks_are_invisible(before: Seq<char>, blanks: Seq<char>, after: Seq<char>)
    requires
        all_blank(blanks),
    ensures
        strip_blanks(before + blanks + after) == strip_blanks(before + after),
        scan(strip_blanks(before + blanks + after)) == scan(strip_blanks(before + after)),
        parse_stream(strip_blanks(before + blanks + after)) == parse_stream(
            strip_blanks(before + after),
        ),
{
    let keep = |c: char| !is_blank(c);
    Seq::filter_distributes_over_add(before + blanks, after, keep);
    Seq::filter_distributes_over_add(before, blanks, keep);
    Seq::filter_distributes_over_add(before, after, keep);
    lemma_strip_all_blank(blanks);
    assert(strip_blanks(before) + Seq::<char>::empty() == strip_blanks(before));
}

/// The lexer comes to an end: it yields no more tokens than it has
/// characters pending.
pub proof fn lemma_scan_is_bounded(stream: Seq<char>)
    ensures
        scan(stream).tokens.len() <= stream.len(),
    decreases stream.len(),
{
    lemma_lex_progress(stream);
    if lex(stream).result matches Ok(Some(_)) {
        lemma_scan_is_bounded(lex(stream).rest);
    }
}

/// Every letter among the tokens is in upper case.
pub proof fn lemma_letters_are_upper(stream: Seq<char>)
    ensures
        forall|i: int|
            0 <= i < scan(stream).tokens.len() ==> (#[trigger] scan(stream).tokens[i] matches Token::Letter(
                c,
            ) ==> 'A' <= c && c <= 'Z'),
    decreases stream.len(),
{
    lemma_lex_progress(stream);
    let step = lex(stream);
    if let Ok(Some(token)) = step.result {
        lemma_letters_are_upper(step.rest);
        let tail = scan(step.rest).tokens;
        if let Token::Letter(c) = token {
            let s = after_comments(stream);
            lemma_to_upper(s[0]);
        }
        assert forall|i: int| 0 <= i < scan(stream).tokens.len() implies (
        #[trigger] scan(stream).tokens[i] matches Token::Letter(c) ==> 'A' <= c && c <= 'Z') by {
            if i > 0 {
                assert(scan(stream).tokens[i] == tail[i - 1]);
            }
        }
    }
}

/// Holds where every word has an upper-case letter other than `N`.
pub open spec fn words_are_lifted(words: Seq<Word>) -> bool {
    forall|i: int|
        0 <= i < words.len() ==> {
            let c = (#[trigger] words[i]).mnemonic;
            'A' <= c && c <= 'Z' && c != 'N'
        }
}

/// Holds where every letter among the tokens is in upper case.
pub open spec fn letters_are_upper(tokens: Seq<Token>) -> bool {
    forall|i: int|
        0 <= i < tokens.len() ==> (#[trigger] tokens[i] matches Token::Letter(c) ==> 'A' <= c && c
            <= 'Z')
}

/// What the state machine adds to a block: words other than `N`, and a
/// line number only from a word `N`.
proof fn lemma_assemble_words(
    tokens: Seq<Token>,
    failure: Option<LexerErrorView>,
    start: Content,
)
    requires
        letters_are_upper(tokens),
        words_are_lifted(start.words),
    ensures
        assemble_words(tokens, failure, start) matches Ok(content) ==> {
            &&& words_are_lifted(content.words)
            &&& content.deleted == start.deleted
            &&& content.line_number != start.line_number ==> content.line_number is Some
            &&& content.line_number matches Some(value) ==> (content.line_number
                == start.line_number && !exists|i: int| #[trigger] is_word_at(tokens, i, 'N'))
                || has_line_number(tokens, value)
            &&& content.line_number is None ==> !exists|i: int| #[trigger] is_word_at(tokens, i, 'N')
        },
    decreases tokens.len(),
{
    if let Ok(content) = assemble_words(tokens, failure, start) {
        if tokens.len() == 0 {
        } else {
            let letter = tokens[0]->Letter_0;
            let value = tokens[1]->Number_0;
            let next = with_word(start, letter, value);
            let rest = tokens.skip(2);
            assert forall|i: int| 0 <= i < rest.len() implies (#[trigger] rest[i] matches Token::Letter(
                c,
            ) ==> 'A' <= c && c <= 'Z') by {
                assert(rest[i] == tokens[i + 2]);
            }
            assert(tokens[0] matches Token::Letter(c) ==> 'A' <= c && c <= 'Z');
            lemma_assemble_words(rest, failure, next);
            assert forall|i: int| is_word_at(rest, i, 'N') implies #[trigger] is_word_at(
                tokens,
                i + 2,
                'N',
            ) by {
                assert(rest[i] == tokens[i + 2]);
                assert(rest[i + 1] == tokens[i + 3]);
            }
            assert forall|i: int| #[trigger] is_word_at(tokens, i, 'N') implies i == 0
                || is_word_at(rest, i - 2, 'N') by {
                if i != 0 {
                    assert(i != 1);
                    assert(rest[i - 2] == tokens[i]);
                    assert(rest[i - 1] == tokens[i + 1]);
                }
            }
            if let Some(found) = content.line_number {
                if has_line_number(rest, found) {
                    let i = choose|i: int| #[trigger]
                        is_word_at(rest, i, 'N') && rest[i + 1] == Token::Number(found);
                    assert(is_word_at(tokens, i + 2, 'N'));
                    assert(tokens[i + 2 + 1] == rest[i + 1]);
                } else if letter == 'N' {
                    assert(is_word_at(tokens, 0, 'N'));
                    assert(!exists|i: int| #[trigger] is_word_at(rest, i, 'N'));
                    assert(content.line_number == next.line_number);
                } else {
                    assert(!exists|i: int| #[trigger] is_word_at(rest, i, 'N'));
                    if exists|i: int| #[trigger] is_word_at(tokens, i, 'N') {
                        let i = choose|i: int| #[trigger] is_word_at(tokens, i, 'N');
                        assert(is_word_at(rest, i - 2, 'N'));
                    }
                }
            } else {
                if exists|i: int| #[trigger] is_word_at(tokens, i, 'N') {
                    let i = choose|i: int| #[trigger] is_word_at(tokens, i, 'N');
                    if i == 0 {
                        assert(next.line_number is Some);
                    } else {
                        assert(is_word_at(rest, i - 2, 'N'));
                    }
                }
            }
        }
    }
}

/// Line numbers are lifted out of the words: in the block of a line no
/// word is `N`, every word has an upper-case letter, and the block has a
/// line number exactly if a word `N` stands among the tokens of the line;
/// the number is then that of such a word.
pub proof fn lemma_line_number_is_lifted(stream: Seq<char>)
    ensures
        parse_stream(stream) matches Ok(content) ==> {
            &&& words_are_lifted(content.words)
            &&& content.line_number is Some <==> exists|i: int| #[trigger]
                is_word_at(scan(stream).tokens, i, 'N')
            &&& content.line_number matches Some(value) ==> has_line_number(
                scan(stream).tokens,
                value,
            )
        },
{
    lemma_letters_are_upper(stream);
    let all = scan(stream);
    if let Ok(content) = parse_stream(stream) {
        if all.tokens.len() > 0 && all.tokens[0] == Token::BlockDelete {
            let rest = all.tokens.drop_first();
            let start = Content { deleted: true, ..empty_content() };
            assert forall|i: int| 0 <= i < rest.len() implies (#[trigger] rest[i] matches Token::Letter(
                c,
            ) ==> 'A' <= c && c <= 'Z') by {
                assert(rest[i] == all.tokens[i + 1]);
            }
            lemma_assemble_words(rest, all.failure, start);
            assert forall|i: int| is_word_at(rest, i, 'N') implies #[trigger] is_word_at(
                all.tokens,
                i + 1,
                'N',
            ) by {
                assert(rest[i] == all.tokens[i + 1]);
                assert(rest[i + 1] == all.tokens[i + 2]);
            }
            assert forall|i: int| #[trigger] is_word_at(all.tokens, i, 'N') implies is_word_at(
                rest,
                i - 1,
                'N',
            ) by {
                assert(i != 0);
                assert(rest[i - 1] == all.tokens[i]);
                assert(rest[i] == all.tokens[i + 1]);
            }
            if let Some(value) = content.line_number {
                assert(has_line_number(rest, value));
                let i = choose|i: int| #[trigger]
                    is_word_at(rest, i, 'N') && rest[i + 1] == Token::Number(value);
                assert(is_word_at(all.tokens, i + 1, 'N'));
                assert(all.tokens[i + 1 + 1] == rest[i + 1]);
            } else {
                if exists|i: int| #[trigger] is_word_at(all.tokens, i, 'N') {
                    let i = choose|i: int| #[trigger] is_word_at(all.tokens, i, 'N');
                    assert(is_word_at(rest, i - 1, 'N'));
                }
            }
        } else {
            lemma_assemble_words(all.tokens, all.failure, empty_content());
            if let Some(value) = content.line_number {
                let i = choose|i: int| #[trigger]
                    is_word_at(all.tokens, i, 'N') && all.tokens[i + 1] == Token::Number(value);
                assert(is_word_at(all.tokens, i, 'N'));
            }
        }
    }
}

/// The text with its letters in upper case.
pub open spec fn upper_case(text: Seq<char>) -> Seq<char> {
    text.map_values(|c: char| to_upper(c))
}

/// A predicate that does not tell a letter from its upper-case form
/// accepts the same prefix of a text and of its upper-case form.
proof fn lemma_prefix_len_upper(s: Seq<char>, accepts: spec_fn(char) -> bool)
    requires
        forall|c: char| accepts(to_upper(c)) == #[trigger] accepts(c),
    ensures
        prefix_len(upper_case(s), accepts) == prefix_len(s, accepts),
{
    lemma_prefix_len(s, accepts);
    let n = prefix_len(s, accepts) as int;
    let u = upper_case(s);
    assert forall|i: int| 0 <= i < n implies accepts(#[trigger] u[i]) by {
        assert(accepts(s[i]));
    }
    if n < u.len() {
        assert(!accepts(s[n]));
    }
    lemma_prefix_len_is(u, accepts, n);
}

/// One step of the lexer does not tell a letter from its upper-case
/// form.
proof fn lemma_lex_upper(s: Seq<char>)
    ensures
        lex(upper_case(s)).result == lex(s).result,
        lex(upper_case(s)).rest == upper_case(lex(s).rest),
{
    let u = upper_case(s);
    assert forall|c: char| in_line_comment()(to_upper(c)) == #[trigger] in_line_comment()(c) by {
        lemma_to_upper(c);
    }
    assert forall|c: char| in_block_comment()(to_upper(c)) == #[trigger] in_block_comment()(
        c,
    ) by {
        lemma_to_upper(c);
    }
    assert forall|c: char| in_number()(to_upper(c)) == #[trigger] in_number()(c) by {
        lemma_to_upper(c);
    }
    lemma_prefix_len_upper(s, in_line_comment());
    lemma_prefix_len(s, in_line_comment());
    if s.len() > 0 {
        lemma_to_upper(s[0]);
    }
    let s1 = after_line_comment(s);
    let u1 = after_line_comment(u);
    assert(u1 == upper_case(s1));
    lemma_prefix_len_upper(s1, in_block_comment());
    lemma_prefix_len(s1, in_block_comment());
    if s1.len() > 0 {
        lemma_to_upper(s1[0]);
    }
    let s2 = after_comments(s);
    let u2 = after_comments(u);
    assert(u2 == upper_case(s2));
    if s2.len() > 0 {
        lemma_to_upper(s2[0]);
        assert(u2.drop_first() == upper_case(s2.drop_first()));
        if is_number_char(s2[0]) {
            lemma_prefix_len_upper(s2, in_number());
            lemma_prefix_len(s2, in_number());
            let n = prefix_len(s2, in_number()) as int;
            assert(number_run(u2) == number_run(s2)) by {
                assert forall|i: int| 0 <= i < n implies u2[i] == s2[i] by {
                    assert(in_number()(s2[i]));
                    lemma_to_upper(s2[i]);
                }
            }
            assert(u2.skip(n) == upper_case(s2.skip(n)));
        }
    }
}

/// The tokens of a text do not depend on the case of its letters.
proof fn lemma_scan_upper(s: Seq<char>)
    ensures
        scan(upper_case(s)) == scan(s),
    decreases s.len(),
{
    lemma_lex_upper(s);
    lemma_lex_progress(s);
    if lex(s).result matches Ok(Some(_)) {
        lemma_scan_upper(lex(s).rest);
    }
}

/// Letters count without their case: a stream and the same stream with
/// its letters in upper case parse to the same block or fail with the
/// same error.
pub proof fn lemma_case_is_ignored(stream: Seq<char>)
    ensures
        scan(upper_case(stream)) == scan(stream),
        parse_stream(upper_case(stream)) == parse_stream(stream),
{
    lemma_scan_upper(stream);
}

/// Holds for the two characters that open a comment.
pub open spec fn opens_comment(c: char) -> bool {
    c == '(' || c == ';'
}

/// Holds where the text has no character that opens a comment.
pub open spec fn is_comment_free(text: Seq<char>) -> bool {
    forall|i: int| 0 <= i < text.len() ==> !opens_comment(#[trigger] text[i])
}

/// Holds where the end of `before` and the start of `after` are not
/// both part of a number: a cut between the two falls between tokens.
pub open spec fn is_between_tokens(before: Seq<char>, after: Seq<char>) -> bool {
    !(before.len() > 0 && is_number_char(before.last()) && after.len() > 0 && is_number_char(
        after[0],
    ))
}

/// A block comment with the text `body`.
pub open spec fn block_comment(body: Seq<char>) -> Seq<char> {
    seq!['('] + body + seq![')']
}

/// A line comment with the text `body`.
pub open spec fn line_comment(body: Seq<char>) -> Seq<char> {
    seq![';'] + body
}

/// Behind a text without comments, two tails that the lexer reads alike
/// stay alike, provided that neither goes on with a number that the text
/// ends in.
proof fn lemma_scan_tail(a: Seq<char>, tail: Seq<char>, other: Seq<char>)
    requires
        is_comment_free(a),
        scan(tail) == scan(other),
        a.len() > 0 && is_number_char(a.last()) ==> prefix_len(tail, in_number()) == 0
            && prefix_len(other, in_number()) == 0,
    ensures
        scan(a + tail) == scan(a + other),
    decreases a.len(),
{
    if a.len() == 0 {
        assert(a + tail == tail);
        assert(a + other == other);
    } else {
        let s = a + tail;
        let t = a + other;
        assert(s[0] == a[0] && t[0] == a[0]);
        assert(!opens_comment(a[0]));
        assert(after_comments(s) == s);
        assert(after_comments(t) == t);
        lemma_lex_progress(s);
        lemma_lex_progress(t);
        let c = a[0];
        if c == '/' || c == '%' || is_letter(c) {
            let rest = a.drop_first();
            assert(s.drop_first() == rest + tail);
            assert(t.drop_first() == rest + other);
            assert forall|i: int| 0 <= i < rest.len() implies !opens_comment(#[trigger] rest[i]) by {
                assert(rest[i] == a[i + 1]);
            }
            if rest.len() > 0 {
                assert(rest.last() == a.last());
            }
            lemma_scan_tail(rest, tail, other);
        } else if is_number_char(c) {
            lemma_prefix_len(a, in_number());
            lemma_prefix_len_concat(a, tail, in_number());
            lemma_prefix_len_concat(a, other, in_number());
            let n = prefix_len(a, in_number()) as int;
            assert(n > 0) by {
                assert(in_number()(a[0]));
            }
            if n == a.len() {
                assert(in_number()(a[n - 1]));
            }
            assert(prefix_len(s, in_number()) == n);
            assert(prefix_len(t, in_number()) == n);
            assert(s.take(n) == a.take(n));
            assert(t.take(n) == a.take(n));
            let rest = a.skip(n);
            assert(s.skip(n) == rest + tail);
            assert(t.skip(n) == rest + other);
            assert forall|i: int| 0 <= i < rest.len() implies !opens_comment(#[trigger] rest[i]) by {
                assert(rest[i] == a[i + n]);
            }
            if rest.len() > 0 {
                assert(rest.last() == a.last());
            }
            lemma_scan_tail(rest, tail, other);
        } else {
        }
    }
}

/// Block comments are invisible: a stream without comments parses the
/// same with a block comment put in between two of its tokens, at its
/// start or at its end.
pub proof fn lemma_block_comment_is_invisible(
    before: Seq<char>,
    body: Seq<char>,
    after: Seq<char>,
)
    requires
        is_comment_free(before + after),
        is_between_tokens(before, after),
        !body.contains(')'),
    ensures
        scan(before + block_comment(body) + after) == scan(before + after),
        parse_stream(before + block_comment(body) + after) == parse_stream(before + after),
{
    let comment = block_comment(body);
    let tail = comment + after;
    assert(before + comment + after == before + tail);
    assert forall|i: int| 0 <= i < before.len() implies !opens_comment(#[trigger] before[i]) by {
        assert(before[i] == (before + after)[i]);
    }
    if after.len() > 0 {
        assert(after[0] == (before + after)[before.len() as int]);
        assert(!opens_comment(after[0]));
    }
    // The step that meets the comment passes over it and goes on as on
    // what follows.
    assert(after_line_comment(tail) == tail);
    let close = body.len() as int + 1;
    assert forall|i: int| 0 <= i < close implies in_block_comment()(#[trigger] tail[i]) by {
        if i > 0 {
            assert(tail[i] == body[i - 1]);
            assert(body.contains(body[i - 1]));
        }
    }
    assert(tail[close] == ')');
    lemma_prefix_len_is(tail, in_block_comment(), close);
    assert(tail.skip(close + 1) == after);
    assert(after_comments(tail) == after);
    assert(after_comments(after) == after);
    assert(lex(tail) == lex(after));
    lemma_lex_progress(tail);
    assert(scan(tail) == scan(after));
    assert(prefix_len(tail, in_number()) == 0);
    lemma_scan_tail(before, tail, after);
}

/// Line comments are invisible: a stream without comments parses the
/// same with a line comment behind it.
pub proof fn lemma_line_comment_is_invisible(before: Seq<char>, body: Seq<char>)
    requires
        is_comment_free(before),
        !body.contains('\n'),
    ensures
        scan(before + line_comment(body)) == scan(before),
        parse_stream(before + line_comment(body)) == parse_stream(before),
{
    let tail = line_comment(body);
    let nothing = Seq::<char>::empty();
    assert(before + nothing == before);
    assert forall|i: int| 0 <= i < tail.len() implies in_line_comment()(#[trigger] tail[i]) by {
        if i > 0 {
            assert(tail[i] == body[i - 1]);
            assert(body.contains(body[i - 1]));
        }
    }
    lemma_prefix_len_is(tail, in_line_comment(), tail.len() as int);
    assert(tail.skip(tail.len() as int) == nothing);
    assert(after_comments(tail) == nothing);
    assert(after_comments(nothing) == nothing);
    assert(lex(tail) == lex(nothing));
    assert(scan(tail) == scan(nothing));
    assert(prefix_len(tail, in_number()) == 0);
    lemma_scan_tail(before, tail, nothing);
}

/// Holds where the number is written with no more characters than a
/// literal may have.
pub open spec fn fits(value: Number) -> bool {
    number_text(value).len() <= MAX_LITERAL_LEN
}

/// Holds where every number among the words fits.
pub open spec fn words_fit(words: Seq<Word>) -> bool {
    forall|i: int| 0 <= i < words.len() ==> fits((#[trigger] words[i]).value)
}

/// Holds where the block can be written out and read back: its words
/// have upper-case letters other than `N`, and its numbers fit.
pub open spec fn is_printable(content: Content) -> bool {
    &&& words_are_lifted(content.words)
    &&& words_fit(content.words)
    &&& content.line_number matches Some(value) ==> fits(value)
}

/// A word as the lexer reads it: its letter and its number.
pub open spec fn word_stream(letter: char, value: Number) -> Seq<char> {
    seq![letter] + number_text(value)
}

/// The words as the lexer reads them.
pub open spec fn words_stream(words: Seq<Word>) -> Seq<char>
    decreases words.len(),
{
    if words.len() == 0 {
        Seq::empty()
    } else {
        word_stream(words[0].mnemonic, words[0].value) + words_stream(words.drop_first())
    }
}

/// The tokens of the words.
pub open spec fn words_tokens(words: Seq<Word>) -> Seq<Token>
    decreases words.len(),
{
    if words.len() == 0 {
        Seq::empty()
    } else {
        seq![Token::Letter(words[0].mnemonic), Token::Number(words[0].value)] + words_tokens(
            words.drop_first(),
        )
    }
}

/// Stripping leaves a text without blanks as it is.
proof fn lemma_strip_keeps(text: Seq<char>)
    requires
        forall|i: int| 0 <= i < text.len() ==> !is_blank(#[trigger] text[i]),
    ensures
        strip_blanks(text) == text,
    decreases text.len(),
{
    lemma_strip_blanks_step(text);
    if text.len() > 0 {
        let rest = text.drop_first();
        assert forall|i: int| 0 <= i < rest.len() implies !is_blank(#[trigger] rest[i]) by {
            assert(rest[i] == text[i + 1]);
        }
        lemma_strip_keeps(rest);
        assert(seq![text[0]] + rest == text);
    }
}

/// Stripping the blanks around a letter leaves the letter.
proof fn lemma_strip_spaced_letter(letter: char)
    requires
        !is_blank(letter),
    ensures
        strip_blanks(seq![' ', letter, ' ']) == seq![letter],
{
    let front = seq![' ', letter, ' '];
    let second = front.drop_first();
    let third = second.drop_first();
    lemma_strip_blanks_step(front);
    lemma_strip_blanks_step(second);
    lemma_strip_blanks_step(third);
    lemma_strip_blanks_step(third.drop_first());
    assert(strip_blanks(third) == Seq::<char>::empty());
    assert(strip_blanks(second) == seq![letter] + Seq::<char>::empty());
}

/// A number is written without blanks.
proof fn lemma_strip_number(value: Number)
    ensures
        strip_blanks(number_text(value)) == number_text(value),
{
    let number = number_text(value);
    lemma_number_text_chars(value);
    assert forall|i: int| 0 <= i < number.len() implies !is_blank(#[trigger] number[i]) by {
        assert(is_number_char(number[i]));
    }
    lemma_strip_keeps(number);
}

/// Stripping a word leaves its letter and its number.
proof fn lemma_strip_spaced_word(letter: char, value: Number)
    requires
        !is_blank(letter),
    ensures
        strip_blanks(spaced_word(letter, value)) == word_stream(letter, value),
{
    lemma_strip_spaced_letter(letter);
    lemma_strip_number(value);
    Seq::filter_distributes_over_add(
        seq![' ', letter, ' '],
        number_text(value),
        |c: char| !is_blank(c),
    );
}

/// Stripping the words leaves their letters and numbers.
proof fn lemma_strip_spaced_words(words: Seq<Word>)
    requires
        words_are_lifted(words),
    ensures
        strip_blanks(spaced_words(words)) == words_stream(words),
    decreases words.len(),
{
    let keep = |c: char| !is_blank(c);
    if words.len() == 0 {
        lemma_strip_blanks_step(Seq::<char>::empty());
    } else {
        let rest = words.drop_first();
        assert forall|i: int| 0 <= i < rest.len() implies {
            let c = (#[trigger] rest[i]).mnemonic;
            'A' <= c && c <= 'Z' && c != 'N'
        } by {
            assert(rest[i] == words[i + 1]);
        }
        lemma_strip_spaced_words(rest);
        let first = words[0];
        assert('A' <= first.mnemonic && first.mnemonic <= 'Z');
        lemma_strip_spaced_word(first.mnemonic, first.value);
        Seq::filter_distributes_over_add(
            spaced_word(first.mnemonic, first.value),
            spaced_words(rest),
            keep,
        );
    }
}

/// The lexer reads an upper-case letter as itself and goes on behind
/// it.
proof fn lemma_lex_letter(letter: char, rest: Seq<char>)
    requires
        'A' <= letter && letter <= 'Z',
    ensures
        lex(seq![letter] + rest).result == Ok::<Option<Token>, LexerErrorView>(
            Some(Token::Letter(letter)),
        ),
        lex(seq![letter] + rest).rest == rest,
{
    let s = seq![letter] + rest;
    lemma_to_upper(letter);
    assert(s[0] == letter);
    assert(after_comments(s) == s);
    assert(s.drop_first() == rest);
}

/// A literal holds digits, signs and points only, and at least one
/// character.
pub proof fn lemma_literal_chars(text: Seq<char>)
    requires
        is_literal(text),
    ensures
        text.len() > 0,
        forall|i: int| 0 <= i < text.len() ==> is_number_char(#[trigger] text[i]),
{
    let body = magnitude(text);
    let not_point = |c: char| c != '.';
    lemma_prefix_len(body, not_point);
    let point = point_index(body);
    let whole = integer_part(text);
    let fraction = fraction_part(text);
    let sign = text.len() - body.len();
    assert forall|i: int| 0 <= i < text.len() implies is_number_char(#[trigger] text[i]) by {
        if i < sign {
        } else {
            let j = i - sign;
            assert(text[i] == body[j]);
            if j < point {
                assert(whole[j] == body[j]);
            } else if j == point {
                assert(!not_point(body[j]));
            } else {
                assert(fraction[j - point - 1] == body[j]);
            }
        }
    }
}

/// The lexer reads a literal as the number it denotes and goes on behind
/// it, provided that what follows is no part of a number.
proof fn lemma_lex_literal(text: Seq<char>, rest: Seq<char>)
    requires
        is_literal(text),
        rest.len() > 0 ==> !is_number_char(rest[0]),
    ensures
        lex(text + rest).result == Ok::<Option<Token>, LexerErrorView>(
            Some(Token::Number(literal_value(text))),
        ),
        lex(text + rest).rest == rest,
{
    let t = text + rest;
    lemma_literal_chars(text);
    assert(t[0] == text[0]);
    assert(is_number_char(text[0]));
    assert(after_comments(t) == t);
    assert forall|i: int| 0 <= i < text.len() implies in_number()(#[trigger] text[i]) by {
        assert(is_number_char(text[i]));
    }
    lemma_prefix_len_is(text, in_number(), text.len() as int);
    lemma_prefix_len_concat(text, rest, in_number());
    assert(prefix_len(rest, in_number()) == 0);
    assert(t.take(text.len() as int) == text);
    assert(number_run(t) == text);
    assert(t.skip(text.len() as int) == rest);
}

/// The lexer reads a written number as that number and goes on behind
/// it, provided that what follows is no part of a number.
proof fn lemma_lex_number(value: Number, rest: Seq<char>)
    requires
        fits(value),
        rest.len() > 0 ==> !is_number_char(rest[0]),
    ensures
        lex(number_text(value) + rest).result == Ok::<Option<Token>, LexerErrorView>(
            Some(Token::Number(value)),
        ),
        lex(number_text(value) + rest).rest == rest,
{
    lemma_number_text_parses(value);
    lemma_lex_literal(number_text(value), rest);
}

/// The lexer reads a word as its letter and its number, and goes on
/// with what follows, provided that this is no part of the number.
proof fn lemma_scan_word(letter: char, value: Number, rest: Seq<char>)
    requires
        'A' <= letter && letter <= 'Z',
        fits(value),
        rest.len() > 0 ==> !is_number_char(rest[0]),
    ensures
        scan(word_stream(letter, value) + rest).tokens == seq![
            Token::Letter(letter),
            Token::Number(value),
        ] + scan(rest).tokens,
        scan(word_stream(letter, value) + rest).failure == scan(rest).failure,
{
    let s = word_stream(letter, value) + rest;
    let t = number_text(value) + rest;
    assert(s == seq![letter] + t);
    lemma_lex_letter(letter, t);
    lemma_lex_number(value, rest);
    assert(scan(t).tokens == seq![Token::Number(value)] + scan(rest).tokens);
    assert(scan(s).tokens == seq![Token::Letter(letter)] + scan(t).tokens);
    assert(seq![Token::Letter(letter)] + (seq![Token::Number(value)] + scan(rest).tokens) == seq![
        Token::Letter(letter),
        Token::Number(value),
    ] + scan(rest).tokens);
}

/// The lexer reads written words as their tokens.
proof fn lemma_scan_words(words: Seq<Word>)
    requires
        words_are_lifted(words),
        words_fit(words),
    ensures
        scan(words_stream(words)).tokens == words_tokens(words),
        scan(words_stream(words)).failure is None,
        words_stream(words).len() > 0 ==> !is_number_char(words_stream(words)[0]),
    decreases words.len(),
{
    if words.len() == 0 {
        assert(after_comments(Seq::<char>::empty()) == Seq::<char>::empty());
    } else {
        let rest = words.drop_first();
        assert forall|i: int| 0 <= i < rest.len() implies {
            let c = (#[trigger] rest[i]).mnemonic;
            'A' <= c && c <= 'Z' && c != 'N'
        } by {
            assert(rest[i] == words[i + 1]);
        }
        assert forall|i: int| 0 <= i < rest.len() implies fits((#[trigger] rest[i]).value) by {
            assert(rest[i] == words[i + 1]);
        }
        lemma_scan_words(rest);
        let first = words[0];
        assert('A' <= first.mnemonic && first.mnemonic <= 'Z');
        assert(fits(first.value));
        lemma_scan_word(first.mnemonic, first.value, words_stream(rest));
        assert(words_stream(words)[0] == first.mnemonic);
    }
}

/// The state machine takes the tokens of written words as those words.
proof fn lemma_assemble_printed(words: Seq<Word>, start: Content)
    requires
        words_are_lifted(words),
    ensures
        assemble_words(words_tokens(words), None, start) == Ok::<Content, ParserErrorView>(
            Content { words: start.words + words, ..start },
        ),
    decreases words.len(),
{
    let tokens = words_tokens(words);
    if words.len() == 0 {
        assert(start.words + words == start.words);
    } else {
        let rest = words.drop_first();
        let first = words[0];
        assert forall|i: int| 0 <= i < rest.len() implies {
            let c = (#[trigger] rest[i]).mnemonic;
            'A' <= c && c <= 'Z' && c != 'N'
        } by {
            assert(rest[i] == words[i + 1]);
        }
        assert(first.mnemonic != 'N');
        let next = with_word(start, first.mnemonic, first.value);
        lemma_assemble_printed(rest, next);
        assert(tokens[0] == Token::Letter(first.mnemonic));
        assert(tokens[1] == Token::Number(first.value));
        assert(tokens.skip(2) == words_tokens(rest));
        assert(start.words.push(first) + rest == start.words + words);
    }
}

/// Where the written words begin and end, if there are any.
proof fn lemma_spaced_words_ends(words: Seq<Word>)
    requires
        words.len() > 0,
    ensures
        spaced_words(words).len() >= 4,
        spaced_words(words)[0] == ' ',
        spaced_words(words)[1] == words[0].mnemonic,
        is_digit(spaced_words(words).last()),
    decreases words.len(),
{
    let first = spaced_word(words[0].mnemonic, words[0].value);
    let rest = spaced_words(words.drop_first());
    lemma_number_text_chars(words[0].value);
    assert(first.last() == number_text(words[0].value).last());
    if words.len() == 1 {
        assert(words.drop_first().len() == 0);
        assert(first + rest == first);
    } else {
        lemma_spaced_words_ends(words.drop_first());
        assert((first + rest).last() == rest.last());
    }
    assert((first + rest)[0] == first[0]);
    assert((first + rest)[1] == first[1]);
}

/// A block as the lexer reads it: the mark of a deleted block, the
/// line number as a word `N`, and the words.
pub open spec fn block_stream(content: Content) -> Seq<char> {
    let mark = if content.deleted {
        seq!['/']
    } else {
        Seq::<char>::empty()
    };
    let number = match content.line_number {
        Some(value) => word_stream('N', value),
        None => Seq::<char>::empty(),
    };
    mark + (number + words_stream(content.words))
}

/// The text of a block neither begins nor ends with whitespace.
proof fn lemma_block_text_is_trimmed(content: Content)
    requires
        is_printable(content),
    ensures
        is_trimmed(block_text(content)),
{
    let words = content.words;
    let mark = if content.deleted {
        seq![' ', '/']
    } else {
        Seq::<char>::empty()
    };
    let number = match content.line_number {
        Some(value) => spaced_word('N', value),
        None => Seq::<char>::empty(),
    };
    let rest = spaced_words(words);
    let spaced = spaced_block(content);
    let text = block_text(content);
    assert(spaced == mark + number + rest);
    if words.len() > 0 {
        lemma_spaced_words_ends(words);
        assert('A' <= words[0].mnemonic && words[0].mnemonic <= 'Z');
    } else {
        assert(rest.len() == 0);
    }
    if let Some(value) = content.line_number {
        lemma_number_text_chars(value);
        assert(number.last() == number_text(value).last());
        assert(number[0] == ' ' && number[1] == 'N');
    }
    if spaced.len() > 0 {
        let first: char = if content.deleted {
            '/'
        } else if content.line_number is Some {
            'N'
        } else {
            words[0].mnemonic
        };
        assert(spaced[0] == ' ');
        assert(spaced[1] == first);
        let last: char = if rest.len() > 0 {
            rest.last()
        } else if number.len() > 0 {
            number.last()
        } else {
            '/'
        };
        assert(spaced.last() == last);
        assert(text[0] == spaced[1]);
        assert(text.last() == spaced.last());
        assert(!is_whitespace(first));
        assert(!is_whitespace(last));
    }
}

/// Without its blanks the text of a block is the block as the lexer
/// reads it.
proof fn lemma_block_text_stream(content: Content)
    requires
        is_printable(content),
    ensures
        strip_blanks(block_text(content)) == block_stream(content),
{
    let keep = |c: char| !is_blank(c);
    let words = content.words;
    let mark = if content.deleted {
        seq![' ', '/']
    } else {
        Seq::<char>::empty()
    };
    let number = match content.line_number {
        Some(value) => spaced_word('N', value),
        None => Seq::<char>::empty(),
    };
    let spaced = spaced_block(content);
    lemma_strip_blanks_step(spaced);
    lemma_strip_blanks_step(Seq::<char>::empty());
    if spaced.len() > 0 {
        if content.deleted {
            assert(spaced[0] == mark[0]);
        } else if content.line_number is Some {
            assert(spaced[0] == number[0]);
        } else {
            lemma_spaced_words_ends(words);
            assert(spaced[0] == spaced_words(words)[0]);
        }
        assert(is_blank(spaced[0]));
    }
    assert(strip_blanks(block_text(content)) == strip_blanks(spaced));
    Seq::filter_distributes_over_add(mark + number, spaced_words(words), keep);
    Seq::filter_distributes_over_add(mark, number, keep);
    lemma_strip_spaced_words(words);
    if content.deleted {
        lemma_strip_mark();
    }
    if let Some(value) = content.line_number {
        lemma_strip_spaced_word('N', value);
    }
    let plain_mark = strip_blanks(mark);
    let plain_number = strip_blanks(number);
    assert(plain_mark + plain_number + words_stream(words) == plain_mark + (plain_number
        + words_stream(words)));
}

/// Stripping the mark of a deleted block leaves the `/`.
proof fn lemma_strip_mark()
    ensures
        strip_blanks(seq![' ', '/']) == seq!['/'],
{
    let mark = seq![' ', '/'];
    lemma_strip_blanks_step(mark);
    lemma_strip_blanks_step(mark.drop_first());
    lemma_strip_blanks_step(mark.drop_first().drop_first());
    assert(strip_blanks(mark.drop_first()) == seq!['/'] + Seq::<char>::empty());
}

/// The lexer reads the line number and the words of a written block as
/// their tokens, and the state machine takes those as the block.
proof fn lemma_block_tail_parses(content: Content)
    requires
        is_printable(content),
    ensures
        ({
            let number = match content.line_number {
                Some(value) => word_stream('N', value),
                None => Seq::<char>::empty(),
            };
            let tail = number + words_stream(content.words);
            let start = Content { deleted: content.deleted, ..empty_content() };
            &&& assemble_words(scan(tail).tokens, scan(tail).failure, start) == Ok::<
                Content,
                ParserErrorView,
            >(content)
            &&& scan(tail).tokens.len() > 0 ==> scan(tail).tokens[0] is Letter
            &&& tail.len() > 0 ==> tail[0] != '/' && tail[0] != '(' && tail[0] != ';'
        }),
{
    let words = content.words;
    let number = match content.line_number {
        Some(value) => word_stream('N', value),
        None => Seq::<char>::empty(),
    };
    let tail = number + words_stream(words);
    let start = Content { deleted: content.deleted, ..empty_content() };
    lemma_scan_words(words);
    if words.len() > 0 {
        assert(words_stream(words)[0] == words[0].mnemonic);
        assert('A' <= words[0].mnemonic && words[0].mnemonic <= 'Z');
        assert(words_tokens(words)[0] == Token::Letter(words[0].mnemonic));
    } else {
        assert(words_stream(words).len() == 0);
        assert(words_tokens(words).len() == 0);
    }
    if let Some(value) = content.line_number {
        lemma_scan_word('N', value, words_stream(words));
        assert(tail[0] == 'N');
        let tokens = scan(tail).tokens;
        let lifted = with_word(start, 'N', value);
        lemma_assemble_printed(words, lifted);
        assert(tokens[0] == Token::Letter('N'));
        assert(tokens[1] == Token::Number(value));
        assert(tokens.skip(2) == words_tokens(words));
        assert(lifted.words + words == words);
    } else {
        assert(tail == words_stream(words));
        lemma_assemble_printed(words, start);
        assert(start.words + words == words);
    }
}

/// The block as the lexer reads it parses to the block.
proof fn lemma_block_stream_parses(content: Content)
    requires
        is_printable(content),
    ensures
        parse_stream(block_stream(content)) == Ok::<Content, ParserErrorView>(content),
{
    let number = match content.line_number {
        Some(value) => word_stream('N', value),
        None => Seq::<char>::empty(),
    };
    let tail = number + words_stream(content.words);
    let stream = block_stream(content);
    lemma_block_tail_parses(content);
    if content.deleted {
        assert(stream == seq!['/'] + tail);
        assert(stream[0] == '/');
        assert(after_comments(stream) == stream);
        assert(stream.drop_first() == tail);
        lemma_lex_progress(stream);
        assert(scan(stream).tokens == seq![Token::BlockDelete] + scan(tail).tokens);
        assert(scan(stream).tokens.drop_first() == scan(tail).tokens);
        assert(scan(stream).tokens[0] == Token::BlockDelete);
    } else {
        assert(stream == tail);
    }
}

/// A block that is written out and parsed is the block again: every
/// printable block is what its text parses to, and the text is kept as
/// the line of the block.
pub proof fn lemma_block_text_parses(content: Content)
    requires
        is_printable(content),
    ensures
        parse_line(block_text(content)) == Ok::<BlockView, ParserErrorView>(
            BlockView { content, line: block_text(content) },
        ),
{
    lemma_block_text_is_trimmed(content);
    lemma_trimmed_keeps(block_text(content));
    lemma_block_text_stream(content);
    lemma_block_stream_parses(content);
}

/// Holds where every number among the tokens fits.
pub open spec fn tokens_fit(tokens: Seq<Token>) -> bool {
    forall|i: int|
        0 <= i < tokens.len() ==> (#[trigger] tokens[i] matches Token::Number(value) ==> fits(value))
}

/// Every number that the lexer yields fits: it is written with no more
/// characters than the literal it was read from.
pub proof fn lemma_scanned_numbers_fit(stream: Seq<char>)
    ensures
        tokens_fit(scan(stream).tokens),
    decreases stream.len(),
{
    lemma_lex_progress(stream);
    let step = lex(stream);
    if let Ok(Some(token)) = step.result {
        lemma_scanned_numbers_fit(step.rest);
        let tail = scan(step.rest).tokens;
        if let Token::Number(value) = token {
            let run = number_run(after_comments(stream));
            assert(is_literal(run));
            lemma_literal_value_fits(run);
        }
        assert forall|i: int| 0 <= i < scan(stream).tokens.len() implies (
        #[trigger] scan(stream).tokens[i] matches Token::Number(value) ==> fits(value)) by {
            if i > 0 {
                assert(scan(stream).tokens[i] == tail[i - 1]);
            }
        }
    }
}

/// The state machine puts only numbers of its tokens into a block.
proof fn lemma_assemble_fits(
    tokens: Seq<Token>,
    failure: Option<LexerErrorView>,
    start: Content,
)
    requires
        tokens_fit(tokens),
        words_fit(start.words),
        start.line_number matches Some(value) ==> fits(value),
    ensures
        assemble_words(tokens, failure, start) matches Ok(content) ==> {
            &&& words_fit(content.words)
            &&& content.line_number matches Some(value) ==> fits(value)
        },
    decreases tokens.len(),
{
    if let Ok(content) = assemble_words(tokens, failure, start) {
        if tokens.len() > 0 {
            let letter = tokens[0]->Letter_0;
            let value = tokens[1]->Number_0;
            let next = with_word(start, letter, value);
            let rest = tokens.skip(2);
            assert(tokens[1] matches Token::Number(v) ==> fits(v));
            assert forall|i: int| 0 <= i < rest.len() implies (#[trigger] rest[i] matches Token::Number(
                v,
            ) ==> fits(v)) by {
                assert(rest[i] == tokens[i + 2]);
            }
            assert forall|i: int| 0 <= i < next.words.len() implies fits(
                (#[trigger] next.words[i]).value,
            ) by {
                if i < start.words.len() {
                    assert(next.words[i] == start.words[i]);
                }
            }
            lemma_assemble_fits(rest, failure, next);
        }
    }
}

/// Every block that a line parses to is printable.
pub proof fn lemma_parsed_is_printable(stream: Seq<char>)
    ensures
        parse_stream(stream) matches Ok(content) ==> is_printable(content),
{
    lemma_line_number_is_lifted(stream);
    lemma_scanned_numbers_fit(stream);
    let all = scan(stream);
    if all.tokens.len() > 0 && all.tokens[0] == Token::BlockDelete {
        let rest = all.tokens.drop_first();
        assert forall|i: int| 0 <= i < rest.len() implies (#[trigger] rest[i] matches Token::Number(
            v,
        ) ==> fits(v)) by {
            assert(rest[i] == all.tokens[i + 1]);
        }
        lemma_assemble_fits(rest, all.failure, Content { deleted: true, ..empty_content() });
    } else {
        lemma_assemble_fits(all.tokens, all.failure, empty_content());
    }
}

/// Words and values come round: the block of a line, written out and
/// parsed again, is the same block, with what was written as its line.
pub proof fn lemma_round_trip(line: Seq<char>)
    ensures
        parse_line(line) matches Ok(block) ==> parse_line(block_text(block.content)) == Ok::<
            BlockView,
            ParserErrorView,
        >(BlockView { content: block.content, line: block_text(block.content) }),
{
    let stream = strip_blanks(trimmed(line));
    lemma_parsed_is_printable(stream);
    if let Ok(content) = parse_stream(stream) {
        lemma_block_text_parses(content);
    }
}

/// What a line parses to apart from its text.
pub open spec fn content_of(r: Result<BlockView, ParserErrorView>) -> Result<
    Content,
    ParserErrorView,
> {
    match r {
        Ok(block) => Ok(block.content),
        Err(e) => Err(e),
    }
}

/// Among whitespace stripping leaves whitespace.
proof fn lemma_strip_whitespace(text: Seq<char>)
    requires
        all_whitespace(text),
    ensures
        all_whitespace(strip_blanks(text)),
    decreases text.len(),
{
    lemma_strip_blanks_step(text);
    if text.len() > 0 {
        let rest = text.drop_first();
        assert forall|i: int| 0 <= i < rest.len() implies is_whitespace(
            #[trigger] rest[i],
        ) by {
            assert(rest[i] == text[i + 1]);
        }
        lemma_strip_whitespace(rest);
        let stripped = strip_blanks(text);
        assert forall|i: int| 0 <= i < stripped.len() implies is_whitespace(
            #[trigger] stripped[i],
        ) by {
            if !is_blank(text[0]) && i > 0 {
                assert(stripped[i] == strip_blanks(rest)[i - 1]);
            }
        }
    }
}

/// Stripping a trimmed text leaves a trimmed text.
proof fn lemma_strip_is_trimmed(text: Seq<char>)
    requires
        is_trimmed(text),
    ensures
        is_trimmed(strip_blanks(text)),
{
    if text.len() > 0 {
        lemma_strip_blanks_step(text);
        let keep = |c: char| !is_blank(c);
        assert(strip_blanks(text).last() == text.last()) by {
            reveal(Seq::filter);
            assert(keep(text.last()));
            assert(text.filter(keep) == text.drop_last().filter(keep).push(text.last()));
        }
    } else {
        lemma_strip_blanks_step(text);
    }
}

/// Trimming and stripping can be done in either order.
proof fn lemma_strip_trimmed(line: Seq<char>)
    ensures
        strip_blanks(trimmed(line)) == trimmed(strip_blanks(line)),
{
    let keep = |c: char| !is_blank(c);
    let parts = lemma_trim_parts(line);
    let text = trimmed(line);
    Seq::filter_distributes_over_add(parts.0 + text, parts.1, keep);
    Seq::filter_distributes_over_add(parts.0, text, keep);
    lemma_strip_whitespace(parts.0);
    lemma_strip_whitespace(parts.1);
    lemma_strip_is_trimmed(text);
    lemma_trimmed_of(strip_blanks(parts.0), strip_blanks(text), strip_blanks(parts.1));
}

/// Blanks do not change the block: a line with blanks put in at any
/// place parses to the same content or fails with the same error.
pub proof fn lemma_blanks_do_not_change_the_block(
    before: Seq<char>,
    blanks: Seq<char>,
    after: Seq<char>,
)
    requires
        all_blank(blanks),
    ensures
        content_of(parse_line(before + blanks + after)) == content_of(
            parse_line(before + after),
        ),
{
    lemma_blanks_are_invisible(before, blanks, after);
    lemma_strip_trimmed(before + blanks + after);
    lemma_strip_trimmed(before + after);
}

/// Stripping does not tell a letter from its upper-case form.
proof fn lemma_strip_upper(text: Seq<char>)
    ensures
        strip_blanks(upper_case(text)) == upper_case(strip_blanks(text)),
    decreases text.len(),
{
    let upper = upper_case(text);
    lemma_strip_blanks_step(text);
    lemma_strip_blanks_step(upper);
    if text.len() > 0 {
        let rest = text.drop_first();
        lemma_strip_upper(rest);
        lemma_to_upper(text[0]);
        assert(upper.drop_first() == upper_case(rest));
        assert(upper[0] == to_upper(text[0]));
        if !is_blank(text[0]) {
            assert(upper_case(seq![text[0]] + strip_blanks(rest)) == seq![upper[0]] + upper_case(
                strip_blanks(rest),
            ));
        }
    } else {
        assert(upper_case(Seq::<char>::empty()) == Seq::<char>::empty());
    }
}

/// Trimming does not tell a letter from its upper-case form.
proof fn lemma_trimmed_upper(line: Seq<char>)
    ensures
        trimmed(upper_case(line)) == upper_case(trimmed(line)),
{
    let parts = lemma_trim_parts(line);
    let text = trimmed(line);
    let before = upper_case(parts.0);
    let after = upper_case(parts.1);
    let upper = upper_case(text);
    assert(upper_case(line) == before + upper + after);
    assert forall|i: int| 0 <= i < before.len() implies is_whitespace(
        #[trigger] before[i],
    ) by {
        assert(is_whitespace(parts.0[i]));
        lemma_to_upper(parts.0[i]);
    }
    assert forall|i: int| 0 <= i < after.len() implies is_whitespace(
        #[trigger] after[i],
    ) by {
        assert(is_whitespace(parts.1[i]));
        lemma_to_upper(parts.1[i]);
    }
    if text.len() > 0 {
        lemma_to_upper(text[0]);
        lemma_to_upper(text.last());
        assert(upper[0] == to_upper(text[0]));
        assert(upper.last() == to_upper(text.last()));
    }
    lemma_trimmed_of(before, upper, after);
}

/// The case of letters does not change the block: a line and the same
/// line with its letters in upper case parse to the same content or fail
/// with the same error.
pub proof fn lemma_case_does_not_change_the_block(line: Seq<char>)
    ensures
        content_of(parse_line(upper_case(line))) == content_of(parse_line(line)),
{
    lemma_trimmed_upper(line);
    lemma_strip_upper(trimmed(line));
    lemma_case_is_ignored(strip_blanks(trimmed(line)));
}

/// What stripping leaves of a text stood in the text.
proof fn lemma_stripped_chars(text: Seq<char>)
    ensures
        forall|c: char| strip_blanks(text).contains(c) ==> text.contains(c),
{
    assert forall|c: char| strip_blanks(text).contains(c) implies text.contains(c) by {
        text.lemma_filter_contains_rev(|c: char| !is_blank(c), c);
    }
}

/// Stripping leaves a text without comments without comments.
proof fn lemma_strip_comment_free(text: Seq<char>)
    requires
        is_comment_free(text),
    ensures
        is_comment_free(strip_blanks(text)),
    decreases text.len(),
{
    lemma_strip_blanks_step(text);
    if text.len() > 0 {
        let rest = text.drop_first();
        assert forall|i: int| 0 <= i < rest.len() implies !opens_comment(#[trigger] rest[i]) by {
            assert(rest[i] == text[i + 1]);
        }
        lemma_strip_comment_free(rest);
        let stripped = strip_blanks(text);
        assert(!opens_comment(text[0]));
        assert forall|i: int| 0 <= i < stripped.len() implies !opens_comment(
            #[trigger] stripped[i],
        ) by {
            if !is_blank(text[0]) && i > 0 {
                assert(stripped[i] == strip_blanks(rest)[i - 1]);
            }
        }
    }
}

/// Block comments do not change the block: a line without comments
/// parses to the same content, or fails with the same error, with a
/// block comment put in between two of its tokens, at its start or at its
/// end.  The line may begin and end with blanks, but with no other
/// whitespace: a comment put before such whitespace would keep it from
/// being trimmed away.
pub proof fn lemma_block_comment_does_not_change_the_block(
    before: Seq<char>,
    body: Seq<char>,
    after: Seq<char>,
)
    requires
        is_trimmed(strip_blanks(before + after)),
        is_comment_free(before + after),
        is_between_tokens(strip_blanks(before), strip_blanks(after)),
        !body.contains(')'),
    ensures
        content_of(parse_line(before + block_comment(body) + after)) == content_of(
            parse_line(before + after),
        ),
{
    let keep = |c: char| !is_blank(c);
    let plain = before + after;
    let comment = block_comment(body);
    let line = before + comment + after;
    let a = strip_blanks(before);
    let b = strip_blanks(after);
    let inner = block_comment(strip_blanks(body));
    Seq::filter_distributes_over_add(before, after, keep);
    Seq::filter_distributes_over_add(before + comment, after, keep);
    Seq::filter_distributes_over_add(before, comment, keep);
    lemma_strip_block_comment(body);
    assert(strip_blanks(plain) == a + b);
    assert(strip_blanks(line) == a + inner + b);
    lemma_strip_trimmed(plain);
    lemma_trimmed_keeps(a + b);
    lemma_strip_trimmed(line);
    assert((a + inner + b)[0] == if a.len() > 0 {
        (a + b)[0]
    } else {
        '('
    });
    assert((a + inner + b).last() == if b.len() > 0 {
        (a + b).last()
    } else {
        ')'
    });
    lemma_trimmed_keeps(a + inner + b);
    lemma_stripped_chars(body);
    lemma_strip_comment_free(plain);
    lemma_block_comment_is_invisible(a, strip_blanks(body), b);
}

/// Stripping a block comment leaves a block comment.
proof fn lemma_strip_block_comment(body: Seq<char>)
    ensures
        strip_blanks(block_comment(body)) == block_comment(strip_blanks(body)),
{
    let keep = |c: char| !is_blank(c);
    Seq::filter_distributes_over_add(seq!['('] + body, seq![')'], keep);
    Seq::filter_distributes_over_add(seq!['('], body, keep);
    lemma_strip_keeps(seq!['(']);
    lemma_strip_keeps(seq![')']);
}

/// Trimming a line that ends in a line comment takes whitespace off the
/// comment at most.
proof fn lemma_trimmed_line_comment(before: Seq<char>, body: Seq<char>) -> (kept: Seq<char>)
    requires
        is_trimmed(before),
    ensures
        trimmed(before + line_comment(body)) == before + line_comment(kept),
        forall|c: char| kept.contains(c) ==> body.contains(c),
{
    let line = before + line_comment(body);
    let mark = before.len() as int;
    let parts = lemma_trim_parts(line);
    let text = trimmed(line);
    assert(line[mark] == ';');
    assert(line[0] == if before.len() > 0 {
        before[0]
    } else {
        ';'
    });
    assert(parts.0.len() == 0) by {
        if parts.0.len() > 0 {
            assert(parts.0[0] == line[0]);
        }
    }
    assert(line == text + parts.1);
    assert(text.len() > mark) by {
        if text.len() <= mark {
            assert(parts.1[mark - text.len()] == line[mark]);
        }
    }
    let kept = body.take(text.len() - mark - 1);
    assert(text == line.take(text.len() as int));
    assert(text == before + line_comment(kept));
    assert forall|c: char| kept.contains(c) implies body.contains(c) by {
        let j = choose|j: int| 0 <= j < kept.len() && kept[j] == c;
        assert(body[j] == c);
    }
    kept
}

/// Stripping a line comment leaves a line comment.
proof fn lemma_strip_line_comment(body: Seq<char>)
    ensures
        strip_blanks(line_comment(body)) == line_comment(strip_blanks(body)),
{
    Seq::filter_distributes_over_add(seq![';'], body, |c: char| !is_blank(c));
    lemma_strip_keeps(seq![';']);
}

/// Line comments do not change the block: a line without comments
/// parses to the same content, or fails with the same error, with a line
/// comment behind it.  The line may begin and end with blanks, but with
/// no other whitespace.
pub proof fn lemma_line_comment_does_not_change_the_block(before: Seq<char>, body: Seq<char>)
    requires
        is_trimmed(strip_blanks(before)),
        is_comment_free(before),
        !body.contains('\n'),
    ensures
        content_of(parse_line(before + line_comment(body))) == content_of(parse_line(before)),
{
    let a = strip_blanks(before);
    let line = before + line_comment(body);
    lemma_strip_trimmed(before);
    lemma_trimmed_keeps(a);
    lemma_strip_trimmed(line);
    Seq::filter_distributes_over_add(before, line_comment(body), |c: char| !is_blank(c));
    lemma_strip_line_comment(body);
    let kept = lemma_trimmed_line_comment(a, strip_blanks(body));
    lemma_stripped_chars(body);
    lemma_strip_comment_free(before);
    lemma_line_comment_is_invisible(a, kept);
}

/// A run of digits, signs and points that is longer than a literal may
/// be is an invalid number, given with its first characters.
pub proof fn lemma_long_run_is_invalid(stream: Seq<char>)
    requires
        after_comments(stream).len() > 0,
        is_number_char(after_comments(stream)[0]),
        number_run(after_comments(stream)).len() > MAX_LITERAL_LEN,
    ensures
        lex(stream).result == Err::<Option<Token>, LexerErrorView>(
            LexerErrorView::InvalidNumber {
                text: number_run(after_comments(stream)).take(MAX_LITERAL_LEN as int),
            },
        ),
        lex(stream).rest == after_comments(stream).skip(
            number_run(after_comments(stream)).len() as int,
        ),
{
}

/// A word spelled out: a blank, its letter, a blank, and `text` for its
/// number.
pub open spec fn spelled_word(letter: char, text: Seq<char>) -> Seq<char> {
    seq![' ', letter, ' '] + text
}

/// The words spelled out one after the other, the number of each
/// written as the text that stands at its place in `texts`.
pub open spec fn spelled_words(words: Seq<Word>, texts: Seq<Seq<char>>) -> Seq<char>
    decreases words.len(),
{
    if words.len() == 0 || texts.len() == 0 {
        Seq::empty()
    } else {
        spelled_word(words[0].mnemonic, texts[0]) + spelled_words(
            words.drop_first(),
            texts.drop_first(),
        )
    }
}

/// The spelled words as the lexer reads them.
pub open spec fn spelled_stream(words: Seq<Word>, texts: Seq<Seq<char>>) -> Seq<char>
    decreases words.len(),
{
    if words.len() == 0 || texts.len() == 0 {
        Seq::empty()
    } else {
        seq![words[0].mnemonic] + texts[0] + spelled_stream(
            words.drop_first(),
            texts.drop_first(),
        )
    }
}

/// Holds where each text is a literal that denotes the number of the
/// word at its place.
pub open spec fn spells(words: Seq<Word>, texts: Seq<Seq<char>>) -> bool {
    &&& texts.len() == words.len()
    &&& forall|i: int|
        0 <= i < words.len() ==> is_literal(#[trigger] texts[i]) && literal_value(texts[i])
            == words[i].value
}

/// What holds of words and their spellings holds of all but the first.
proof fn lemma_spelled_rest(words: Seq<Word>, texts: Seq<Seq<char>>)
    requires
        words.len() > 0,
        words_are_lifted(words),
        spells(words, texts),
    ensures
        words_are_lifted(words.drop_first()),
        spells(words.drop_first(), texts.drop_first()),
        'A' <= words[0].mnemonic && words[0].mnemonic <= 'Z',
        is_literal(texts[0]),
        literal_value(texts[0]) == words[0].value,
{
    let rest = words.drop_first();
    let others = texts.drop_first();
    assert forall|i: int| 0 <= i < rest.len() implies {
        let c = (#[trigger] rest[i]).mnemonic;
        'A' <= c && c <= 'Z' && c != 'N'
    } by {
        assert(rest[i] == words[i + 1]);
    }
    assert forall|i: int| 0 <= i < rest.len() implies is_literal(#[trigger] others[i])
        && literal_value(others[i]) == rest[i].value by {
        assert(others[i] == texts[i + 1]);
        assert(rest[i] == words[i + 1]);
    }
}

/// The lexer reads spelled words as their tokens.
proof fn lemma_scan_spelled(words: Seq<Word>, texts: Seq<Seq<char>>)
    requires
        words_are_lifted(words),
        spells(words, texts),
    ensures
        scan(spelled_stream(words, texts)).tokens == words_tokens(words),
        scan(spelled_stream(words, texts)).failure is None,
        spelled_stream(words, texts).len() > 0 ==> !is_number_char(
            spelled_stream(words, texts)[0],
        ),
    decreases words.len(),
{
    if words.len() == 0 {
        assert(after_comments(Seq::<char>::empty()) == Seq::<char>::empty());
    } else {
        lemma_spelled_rest(words, texts);
        let rest = spelled_stream(words.drop_first(), texts.drop_first());
        lemma_scan_spelled(words.drop_first(), texts.drop_first());
        let letter = words[0].mnemonic;
        let t = texts[0] + rest;
        let s = spelled_stream(words, texts);
        assert(s == seq![letter] + t);
        lemma_lex_letter(letter, t);
        lemma_lex_literal(texts[0], rest);
        assert(scan(t).tokens == seq![Token::Number(words[0].value)] + scan(rest).tokens);
        assert(scan(s).tokens == seq![Token::Letter(letter)] + scan(t).tokens);
        assert(seq![Token::Letter(letter)] + (seq![Token::Number(words[0].value)] + scan(
            rest,
        ).tokens) == seq![Token::Letter(letter), Token::Number(words[0].value)] + scan(
            rest,
        ).tokens);
        assert(s[0] == letter);
    }
}

/// Stripping spelled words leaves their letters and literals.
proof fn lemma_strip_spelled(words: Seq<Word>, texts: Seq<Seq<char>>)
    requires
        words_are_lifted(words),
        spells(words, texts),
    ensures
        strip_blanks(spelled_words(words, texts)) == spelled_stream(words, texts),
    decreases words.len(),
{
    let keep = |c: char| !is_blank(c);
    if words.len() == 0 {
        lemma_strip_blanks_step(Seq::<char>::empty());
    } else {
        lemma_spelled_rest(words, texts);
        lemma_strip_spelled(words.drop_first(), texts.drop_first());
        let letter = words[0].mnemonic;
        let text = texts[0];
        lemma_literal_chars(text);
        assert forall|i: int| 0 <= i < text.len() implies !is_blank(#[trigger] text[i]) by {
            assert(is_number_char(text[i]));
        }
        lemma_strip_keeps(text);
        lemma_strip_spaced_letter(letter);
        Seq::filter_distributes_over_add(seq![' ', letter, ' '], text, keep);
        Seq::filter_distributes_over_add(
            spelled_word(letter, text),
            spelled_words(words.drop_first(), texts.drop_first()),
            keep,
        );
    }
}

/// Where spelled words begin and end, if there are any.
proof fn lemma_spelled_ends(words: Seq<Word>, texts: Seq<Seq<char>>)
    requires
        words.len() > 0,
        spells(words, texts),
    ensures
        spelled_words(words, texts).len() >= 4,
        spelled_words(words, texts)[0] == ' ',
        spelled_words(words, texts)[1] == words[0].mnemonic,
        is_number_char(spelled_words(words, texts).last()),
    decreases words.len(),
{
    let first = spelled_word(words[0].mnemonic, texts[0]);
    let rest = spelled_words(words.drop_first(), texts.drop_first());
    assert(is_literal(texts[0]));
    lemma_literal_chars(texts[0]);
    assert(first.last() == texts[0].last());
    if words.len() == 1 {
        assert(words.drop_first().len() == 0);
        assert(first + rest == first);
    } else {
        let others = texts.drop_first();
        assert forall|i: int| 0 <= i < words.len() - 1 implies is_literal(#[trigger] others[i])
            && literal_value(others[i]) == words.drop_first()[i].value by {
            assert(others[i] == texts[i + 1]);
            assert(words.drop_first()[i] == words[i + 1]);
        }
        lemma_spelled_ends(words.drop_first(), others);
        assert((first + rest).last() == rest.last());
    }
    assert((first + rest)[0] == first[0]);
    assert((first + rest)[1] == first[1]);
}

/// Words come round however their numbers are spelled: a line of the
/// words of a block, each number written as any literal that denotes it,
/// parses to a block with the same words, no line number and no mark.
pub proof fn lemma_spelled_words_parse(words: Seq<Word>, texts: Seq<Seq<char>>)
    requires
        words_are_lifted(words),
        spells(words, texts),
    ensures
        parse_line(unspaced(spelled_words(words, texts))) == Ok::<BlockView, ParserErrorView>(
            BlockView {
                content: Content { line_number: None, deleted: false, words },
                line: unspaced(spelled_words(words, texts)),
            },
        ),
{
    let spaced = spelled_words(words, texts);
    let line = unspaced(spaced);
    lemma_strip_blanks_step(spaced);
    lemma_strip_blanks_step(Seq::<char>::empty());
    if words.len() > 0 {
        lemma_spelled_ends(words, texts);
        assert('A' <= words[0].mnemonic && words[0].mnemonic <= 'Z');
        assert(line[0] == spaced[1]);
        assert(line.last() == spaced.last());
        assert(!is_whitespace(line[0]));
        assert(!is_whitespace(line.last()));
    } else {
        assert(spaced.len() == 0);
    }
    lemma_trimmed_keeps(line);
    lemma_strip_spelled(words, texts);
    lemma_scan_spelled(words, texts);
    lemma_assemble_printed(words, empty_content());
    assert(empty_content().words + words == words);
    let tokens = words_tokens(words);
    if words.len() > 0 {
        assert(tokens[0] == Token::Letter(words[0].mnemonic));
    } else {
        assert(tokens.len() == 0);
    }
}

/// Words and values come round: the words of the block of a line,
/// written out with each number as any literal that denotes it, parse to
/// a block with the same words.
pub proof fn lemma_words_come_round(line: Seq<char>, texts: Seq<Seq<char>>)
    requires
        parse_line(line) matches Ok(block) && spells(block.content.words, texts),
    ensures
        parse_line(line) matches Ok(block) && parse_line(
            unspaced(spelled_words(block.content.words, texts)),
        ) matches Ok(again) && again.content.words == block.content.words
            && again.content.line_number is None && !again.content.deleted,
{
    lemma_line_number_is_lifted(strip_blanks(trimmed(line)));
    let words = parse_line(line)->Ok_0.content.words;
    lemma_spelled_words_parse(words, texts);
}

} // verus!
