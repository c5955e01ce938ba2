//! Lines without the whitespace around them.

use vstd::prelude::*;
use vstd::string::StrSliceExecFns;
use crate::chars::is_whitespace;
use crate::prefix::{
    lemma_prefix_len, lemma_prefix_len_is, lemma_suffix_len, lemma_suffix_len_is, prefix_len,
    suffix_len,
};

verus! {

/// Accepts whitespace.
pub open spec fn whitespace() -> spec_fn(char) -> bool {
    |c: char| is_whitespace(c)
}

/// The text from its first character that is no whitespace through its
/// last; empty where it holds nothing else.
pub open spec fn trimmed(text: Seq<char>) -> Seq<char> {
    let rest = text.skip(prefix_len(text, whitespace()) as int);
    rest.take(rest.len() - suffix_len(rest, whitespace()))
}

/// Holds where every character of `text` is whitespace.
pub open spec fn all_whitespace(text: Seq<char>) -> bool {
    forall|i: int| 0 <= i < text.len() ==> is_whitespace(#[trigger] text[i])
}

/// Holds where `text` neither begins nor ends with whitespace.
pub open spec fn is_trimmed(text: Seq<char>) -> bool {
    text.len() > 0 ==> !is_whitespace(text[0]) && !is_whitespace(text.last())
}

/// Trimming takes the whitespace off a trimmed text and no more.
pub proof fn lemma_trimmed_of(before: Seq<char>, text: Seq<char>, after: Seq<char>)
    requires
        all_whitespace(before),
        all_whitespace(after),
        is_trimmed(text),
    ensures
        trimmed(before + text + after) == text,
{
    let ws = whitespace();
    let all = before + text + after;
    if text.len() == 0 {
        assert forall|i: int| 0 <= i < all.len() implies ws(#[trigger] all[i]) by {
            if i < before.len() {
                assert(all[i] == before[i]);
            } else {
                assert(all[i] == after[i - before.len()]);
            }
        }
        lemma_prefix_len_is(all, ws, all.len() as int);
        let rest = all.skip(all.len() as int);
        assert(rest == Seq::<char>::empty());
        assert(rest.take(rest.len() - suffix_len(rest, ws)) == text);
    } else {
        assert forall|i: int| 0 <= i < before.len() implies ws(#[trigger] all[i]) by {
            assert(all[i] == before[i]);
        }
        assert(all[before.len() as int] == text[0]);
        lemma_prefix_len_is(all, ws, before.len() as int);
        let rest = all.skip(before.len() as int);
        assert(rest == text + after);
        assert forall|i: int| rest.len() - after.len() <= i < rest.len() implies ws(
            #[trigger] rest[i],
        ) by {
            assert(rest[i] == after[i - text.len()]);
        }
        assert(rest[rest.len() - after.len() - 1] == text.last());
        lemma_suffix_len_is(rest, ws, after.len() as int);
        assert(rest.take(rest.len() - after.len()) == text);
    }
}

/// Trimming leaves a trimmed text as it is.
pub proof fn lemma_trimmed_keeps(text: Seq<char>)
    requires
        is_trimmed(text),
    ensures
        trimmed(text) == text,
{
    let nothing = Seq::<char>::empty();
    assert(nothing + text + nothing == text);
    lemma_trimmed_of(nothing, text, nothing);
}

/// The three parts of a line: the whitespace it begins with, what
/// trimming leaves of it, and the whitespace it ends with.
pub proof fn lemma_trim_parts(line: Seq<char>) -> (parts: (Seq<char>, Seq<char>))
    ensures
        line == parts.0 + trimmed(line) + parts.1,
        all_whitespace(parts.0),
        all_whitespace(parts.1),
        is_trimmed(trimmed(line)),
{
    let ws = whitespace();
    lemma_prefix_len(line, ws);
    let lead = prefix_len(line, ws) as int;
    let rest = line.skip(lead);
    lemma_suffix_len(rest, ws);
    let keep = rest.len() - suffix_len(rest, ws);
    let before = line.take(lead);
    let after = rest.skip(keep);
    let text = trimmed(line);
    assert(text == rest.take(keep));
    assert(line == before + text + after);
    assert forall|i: int| 0 <= i < before.len() implies is_whitespace(
        #[trigger] before[i],
    ) by {
        assert(ws(line[i]));
    }
    assert forall|i: int| 0 <= i < after.len() implies is_whitespace(
        #[trigger] after[i],
    ) by {
        assert(ws(rest[i + keep]));
    }
    if text.len() > 0 {
        assert(text[0] == line[lead]);
        assert(text.last() == rest[keep - 1]);
    }
    (before, after)
}

/// The part of `line` between the whitespace at its two ends.
pub fn trim(line: &str) -> (text: &str)
    ensures
        text@ == trimmed(line@),
        is_trimmed(text@),
{
    broadcast use vstd::string::group_string_axioms;

    let len = line.unicode_len();
    let mut start: usize = 0;
    let mut end: usize = 0;
    let mut at: usize = 0;
    for c in iter: line.chars()
        invariant
            iter.seq() == line@,
            len == line@.len(),
            at == iter.index(),
            at <= len,
            start <= at,
            end <= at,
            forall|i: int| 0 <= i < start ==> is_whitespace(#[trigger] line@[i]),
            forall|i: int| end <= i < at ==> is_whitespace(#[trigger] line@[i]),
            if end == 0 {
                start == at
            } else {
                &&& start < end
                &&& !is_whitespace(line@[start as int])
                &&& !is_whitespace(line@[end - 1])
            },
    {
        assert(c == line@[at as int]);
        if !is_whitespace(c) {
            end = at + 1;
        } else if end == 0 {
            start = at + 1;
        }
        at = at + 1;
    }
    proof {
        let parts = lemma_trim_parts(line@);
        let ws = whitespace();
        assert forall|i: int| 0 <= i < start implies ws(#[trigger] line@[i]) by {
            assert(is_whitespace(line@[i]));
        }
        lemma_prefix_len_is(line@, ws, start as int);
        let rest = line@.skip(start as int);
        let tail = if end == 0 {
            0
        } else {
            len - end
        };
        assert forall|i: int| rest.len() - tail <= i < rest.len() implies ws(#[trigger] rest[i]) by {
            assert(rest[i] == line@[i + start]);
            assert(is_whitespace(line@[i + start]));
        }
        if tail < rest.len() {
            assert(rest[rest.len() - tail - 1] == line@[end - 1]);
        }
        lemma_suffix_len_is(rest, ws, tail as int);
        if end == 0 {
            assert(rest.take(0) == line@.subrange(0, 0));
        } else {
            assert(rest.take(rest.len() - tail) == line@.subrange(start as int, end as int));
        }
    }
    if end == 0 {
        line.substring_char(0, 0)
    } else {
        line.substring_char(start, end)
    }
}

} // verus!
