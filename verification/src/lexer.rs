//! From characters to tokens.
//!
//! The [`Reader`] hands out the characters of its input with the blanks
//! left out.  The [`Lexer`] groups what the reader hands out into tokens
//! and drops comments.
//!
//! What both do is stated over the *pending* characters: the blank-free
//! sequence that is still to be read.  One step of the lexer is the
//! function [`lex`] on that sequence.  How far the input has been read is
//! stated beside it: a reader stands at the first character that is no
//! blank behind what it has handed out, and has read no further.

use vstd::prelude::*;
use vstd::std_specs::iter::IteratorSpec;
use vstd::utf8::is_ascii_chars;
use vstd::utf8::is_ascii_chars_encode_utf8;
use crate::buffer::{buffer_text, NumberBuffer, BUFFER_CAPACITY};
use crate::chars::{is_blank, is_letter, is_number_char, to_upper};
use crate::number::{is_literal, literal_value, Number, MAX_LITERAL_LEN};
use crate::prefix::{lemma_prefix_len, lemma_prefix_len_is, prefix_len};

verus! {

/// What the lexer cannot read.
#[derive(Debug)]
pub enum LexerError {
    /// A character that begins no token.
    IllegalSymbol { symbol: char },
    /// A run of digits, signs and points that is no literal.  `text` is
    /// the run, cut off after `MAX_LITERAL_LEN` characters.
    InvalidNumber { text: String },
}

/// A `LexerError` with its text as a sequence.
pub enum LexerErrorView {
    IllegalSymbol { symbol: char },
    InvalidNumber { text: Seq<char> },
}

impl View for LexerError {
    type V = LexerErrorView;

    open spec fn view(&self) -> LexerErrorView {
        match self {
            LexerError::IllegalSymbol { symbol } => LexerErrorView::IllegalSymbol {
                symbol: *symbol,
            },
            LexerError::InvalidNumber { text } => LexerErrorView::InvalidNumber { text: text@ },
        }
    }
}

/// The tokens of a line.
#[derive(Debug, Clone, Copy, PartialEq, Eq, Structural)]
pub enum Token {
    /// `/`, which marks a block as deleted.
    BlockDelete,
    /// A letter, in upper case.
    Letter(char),
    /// A literal, by its value.
    Number(Number),
    /// `%`, which brackets a program.
    Demarcation,
}

/// The text without its blanks.
pub open spec fn strip_blanks(text: Seq<char>) -> Seq<char> {
    text.filter(|c: char| !is_blank(c))
}

/// What a reader has still to hand out: the character it holds, then the
/// characters that its input will yield, less the blanks.  A reader that
/// holds no character has reached the end.
pub open spec fn pending(current: Option<char>, upcoming: Seq<char>) -> Seq<char> {
    match current {
        Some(c) => seq![c] + strip_blanks(upcoming),
        None => Seq::empty(),
    }
}

/// Accepts blanks.
pub open spec fn blank() -> spec_fn(char) -> bool {
    |c: char| is_blank(c)
}

/// The first of the characters to come that is no blank, if there is
/// one.
pub open spec fn first_unblank(upcoming: Seq<char>) -> Option<char> {
    let blanks = prefix_len(upcoming, blank()) as int;
    if blanks < upcoming.len() {
        Some(upcoming[blanks])
    } else {
        None
    }
}

/// The characters to come behind the first that is no blank; none where
/// all are blanks.
pub open spec fn behind_unblank(upcoming: Seq<char>) -> Seq<char> {
    let blanks = prefix_len(upcoming, blank()) as int;
    if blanks < upcoming.len() {
        upcoming.skip(blanks + 1)
    } else {
        upcoming.skip(blanks)
    }
}

/// Accepts what a line comment may hold: everything but a line feed.
pub open spec fn in_line_comment() -> spec_fn(char) -> bool {
    |c: char| c != '\n'
}

/// Accepts what a block comment may hold: everything but its closing
/// parenthesis.
pub open spec fn in_block_comment() -> spec_fn(char) -> bool {
    |c: char| c != ')'
}

/// Accepts what the number scanner gathers.
pub open spec fn in_number() -> spec_fn(char) -> bool {
    |c: char| is_number_char(c)
}

/// The stream behind a line comment, if the stream begins with one.  The
/// comment runs from its `;` up to the next line feed, which stays.
pub open spec fn after_line_comment(stream: Seq<char>) -> Seq<char> {
    if stream.len() > 0 && stream[0] == ';' {
        stream.skip(prefix_len(stream, in_line_comment()) as int)
    } else {
        stream
    }
}

/// The stream behind a block comment, if the stream begins with one.  The
/// comment runs from its `(` through the next `)`; one that is never
/// closed runs to the end.
pub open spec fn after_block_comment(stream: Seq<char>) -> Seq<char> {
    if stream.len() > 0 && stream[0] == '(' {
        let body = prefix_len(stream, in_block_comment()) as int;
        if body < stream.len() {
            stream.skip(body + 1)
        } else {
            stream.skip(body)
        }
    } else {
        stream
    }
}

/// The stream behind the comments that one step drops: a line comment,
/// then a block comment.
pub open spec fn after_comments(stream: Seq<char>) -> Seq<char> {
    after_block_comment(after_line_comment(stream))
}

/// The longest run of digits, signs and points that `stream` begins
/// with.
pub open spec fn number_run(stream: Seq<char>) -> Seq<char> {
    stream.take(prefix_len(stream, in_number()) as int)
}

/// The text that the scanner keeps of a run.
pub open spec fn kept_text(run: Seq<char>) -> Seq<char> {
    if run.len() <= MAX_LITERAL_LEN {
        run
    } else {
        run.take(MAX_LITERAL_LEN as int)
    }
}

/// One step of the lexer: what it returns and what is pending after it.
pub struct Lexed {
    pub result: Result<Option<Token>, LexerErrorView>,
    pub rest: Seq<char>,
}

/// One step of the lexer on the pending characters `stream`.
///
/// Comments at the front are dropped.  Then `/`, `%` and a letter are
/// tokens of one character; a digit, sign or point begins a number, which
/// takes the whole run of such characters and must be a literal; the end
/// gives no token; and any other character is illegal and stays.
pub open spec fn lex(stream: Seq<char>) -> Lexed {
    let s = after_comments(stream);
    if s.len() == 0 {
        Lexed { result: Ok(None), rest: s }
    } else if s[0] == '/' {
        Lexed { result: Ok(Some(Token::BlockDelete)), rest: s.drop_first() }
    } else if s[0] == '%' {
        Lexed { result: Ok(Some(Token::Demarcation)), rest: s.drop_first() }
    } else if is_letter(s[0]) {
        Lexed { result: Ok(Some(Token::Letter(to_upper(s[0])))), rest: s.drop_first() }
    } else if is_number_char(s[0]) {
        let run = number_run(s);
        Lexed {
            result: if is_literal(run) {
                Ok(Some(Token::Number(literal_value(run))))
            } else {
                Err(LexerErrorView::InvalidNumber { text: kept_text(run) })
            },
            rest: s.skip(run.len() as int),
        }
    } else {
        Lexed { result: Err(LexerErrorView::IllegalSymbol { symbol: s[0] }), rest: s }
    }
}

/// The result of a step with its error text as a sequence.
pub open spec fn lex_result_view(r: Result<Option<Token>, LexerError>) -> Result<
    Option<Token>,
    LexerErrorView,
> {
    match r {
        Ok(token) => Ok(token),
        Err(e) => Err(e@),
    }
}

/// Stripping works character by character from the front.
pub proof fn lemma_strip_blanks_step(text: Seq<char>)
    ensures
        strip_blanks(text) == if text.len() == 0 {
            Seq::<char>::empty()
        } else if is_blank(text[0]) {
            strip_blanks(text.drop_first())
        } else {
            seq![text[0]] + strip_blanks(text.drop_first())
        },
{
    let keep = |c: char| !is_blank(c);
    if text.len() == 0 {
        reveal_with_fuel(Seq::filter, 1);
    } else {
        let first = seq![text[0]];
        assert(text == first + text.drop_first());
        Seq::filter_distributes_over_add(first, text.drop_first(), keep);
        assert(first.filter(keep) == if is_blank(text[0]) {
            Seq::<char>::empty()
        } else {
            first
        }) by {
            reveal_with_fuel(Seq::filter, 2);
            assert(first.drop_last() == Seq::<char>::empty());
        }
        assert(Seq::<char>::empty() + strip_blanks(text.drop_first()) == strip_blanks(
            text.drop_first(),
        ));
    }
}

/// A reader that has moved on over the characters to come holds the
/// first of them that is no blank, and has all of them but the blanks
/// pending.
pub proof fn lemma_pending_unblank(upcoming: Seq<char>)
    ensures
        pending(first_unblank(upcoming), behind_unblank(upcoming)) == strip_blanks(upcoming),
        first_unblank(upcoming) matches Some(c) ==> !is_blank(c),
    decreases upcoming.len(),
{
    lemma_strip_blanks_step(upcoming);
    lemma_prefix_len(upcoming, blank());
    if upcoming.len() > 0 {
        let rest = upcoming.drop_first();
        if is_blank(upcoming[0]) {
            lemma_pending_unblank(rest);
            lemma_prefix_len(rest, blank());
            let blanks = prefix_len(rest, blank()) as int;
            assert(prefix_len(upcoming, blank()) == blanks + 1);
            if blanks < rest.len() {
                assert(rest[blanks] == upcoming[blanks + 1]);
                assert(rest.skip(blanks + 1) == upcoming.skip(blanks + 2));
            } else {
                assert(rest.skip(blanks) == upcoming.skip(blanks + 1));
            }
        } else {
            assert(prefix_len(upcoming, blank()) == 0);
            assert(upcoming.skip(1) == rest);
        }
    } else {
        assert(upcoming.skip(0) == upcoming);
    }
}

/// Where a reader stands that has handed out `count` characters since it
/// held `current` with `upcoming` to come: each time it moved on to the
/// next character that is no blank, and no further.
pub open spec fn place_after(current: Option<char>, upcoming: Seq<char>, count: nat) -> (
    Option<char>,
    Seq<char>,
)
    decreases count,
{
    if count == 0 {
        (current, upcoming)
    } else {
        let before = place_after(current, upcoming, (count - 1) as nat);
        (first_unblank(before.1), behind_unblank(before.1))
    }
}

/// Holds where a reader that held `current` with `upcoming` to come has
/// come to hold `then` with `rest` to come by handing out what is no
/// longer pending, one character at a time.
pub open spec fn moved_on(
    current: Option<char>,
    upcoming: Seq<char>,
    then: Option<char>,
    rest: Seq<char>,
) -> bool {
    let count = pending(current, upcoming).len() - pending(then, rest).len();
    &&& count >= 0
    &&& (then, rest) == place_after(current, upcoming, count as nat)
}

/// Handing out characters in two goes is handing them out in one.
pub proof fn lemma_place_after_add(
    current: Option<char>,
    upcoming: Seq<char>,
    first: nat,
    second: nat,
)
    ensures
        place_after(current, upcoming, first + second) == ({
            let between = place_after(current, upcoming, first);
            place_after(between.0, between.1, second)
        }),
    decreases second,
{
    if second > 0 {
        lemma_place_after_add(current, upcoming, first, (second - 1) as nat);
        assert(first + second - 1 == first + (second - 1));
    }
}

/// A reader that has moved on twice has moved on.
pub proof fn lemma_moved_on_again(
    current: Option<char>,
    upcoming: Seq<char>,
    then: Option<char>,
    rest: Seq<char>,
    last: Option<char>,
    left: Seq<char>,
)
    requires
        moved_on(current, upcoming, then, rest),
        moved_on(then, rest, last, left),
    ensures
        moved_on(current, upcoming, last, left),
{
    let first = (pending(current, upcoming).len() - pending(then, rest).len()) as nat;
    let second = (pending(then, rest).len() - pending(last, left).len()) as nat;
    lemma_place_after_add(current, upcoming, first, second);
}

/// A reader that hands out the character it holds has moved on.
pub proof fn lemma_moved_on_once(current: Option<char>, upcoming: Seq<char>)
    requires
        current is Some,
    ensures
        moved_on(current, upcoming, first_unblank(upcoming), behind_unblank(upcoming)),
{
    lemma_pending_unblank(upcoming);
    assert(place_after(current, upcoming, 0) == (current, upcoming));
    assert(place_after(current, upcoming, 1) == (
        first_unblank(upcoming),
        behind_unblank(upcoming),
    ));
}

/// A step that yields a token takes at least one character, and no step
/// adds any.
pub proof fn lemma_lex_progress(stream: Seq<char>)
    ensures
        lex(stream).rest.len() <= stream.len(),
        lex(stream).result matches Ok(Some(_)) ==> lex(stream).rest.len() < stream.len(),
{
    lemma_prefix_len(stream, in_line_comment());
    let a = after_line_comment(stream);
    lemma_prefix_len(a, in_block_comment());
    let s = after_comments(stream);
    lemma_prefix_len(s, in_number());
}

/// All that the lexer yields on a stream: the tokens up to the first step
/// that gives none, and the error of that step if it failed.
pub struct Scan {
    pub tokens: Seq<Token>,
    pub failure: Option<LexerErrorView>,
}

/// The steps of the lexer on `stream`, one after the other, until one
/// gives no token.
pub open spec fn scan(stream: Seq<char>) -> Scan
    decreases stream.len(),
    via scan_decreases
{
    let step = lex(stream);
    match step.result {
        Ok(Some(token)) => {
            let tail = scan(step.rest);
            Scan { tokens: seq![token] + tail.tokens, failure: tail.failure }
        },
        Ok(None) => Scan { tokens: Seq::empty(), failure: None },
        Err(e) => Scan { tokens: Seq::empty(), failure: Some(e) },
    }
}

#[via_fn]
proof fn scan_decreases(stream: Seq<char>) {
    lemma_lex_progress(stream);
}

/// Whether a line comment goes on over `c`.
fn continues_line_comment(c: char) -> (b: bool)
    ensures
        b == in_line_comment()(c),
{
    c != '\n'
}

/// Whether `c` closes a block comment.
fn closes_block_comment(c: char) -> (b: bool)
    ensures
        b == !in_block_comment()(c),
{
    c == ')'
}

/// A cursor over the characters of an input that passes over blanks.
///
/// The reader always holds the next character that is no blank, or
/// nothing once the input has ended.  Line feeds are no blanks.
pub struct Reader<I> {
    input: I,
    current: Option<char>,
}

impl<I: Iterator<Item = char>> Reader<I> {
    /// The input behind the character that the reader holds.
    pub closed spec fn source(&self) -> I {
        self.input
    }

    pub closed spec fn spec_current(&self) -> Option<char> {
        self.current
    }

    /// The input keeps to the laws of iterators and ends, and the
    /// character held is no blank.
    pub open spec fn wf(&self) -> bool {
        &&& self.source().obeys_prophetic_iter_laws()
        &&& self.source().decrease() is Some
        &&& self.current() matches Some(c) ==> !is_blank(c)
    }

    /// A bound on how many more characters the reader can hand out.
    pub closed spec fn budget(&self) -> nat {
        match self.current {
            Some(_) => 1 + self.input.decrease()->0,
            None => 0,
        }
    }

    /// A reader at the first character of `input` that is no blank.  The
    /// input is read up to that character and no further.
    pub fn new(input: I) -> (reader: Self)
        requires
            input.obeys_prophetic_iter_laws(),
            input.decrease() is Some,
        ensures
            reader.wf(),
            reader.current() == first_unblank(input.remaining()),
            reader.source().remaining() == behind_unblank(input.remaining()),
            pending(reader.current(), reader.source().remaining()) == strip_blanks(
                input.remaining(),
            ),
    {
        let mut input = input;
        let current = Self::next(&mut input);
        Self { input, current }
    }

    /// Pulls characters from `input` up to the first that is no blank, and
    /// no further.
    fn next(input: &mut I) -> (found: Option<char>)
        requires
            (*old(input)).obeys_prophetic_iter_laws(),
            (*old(input)).decrease() is Some,
        ensures
            (*final(input)).obeys_prophetic_iter_laws(),
            (*final(input)).decrease() is Some,
            found == first_unblank((*old(input)).remaining()),
            (*final(input)).remaining() == behind_unblank((*old(input)).remaining()),
            found matches Some(c) ==> !is_blank(c),
            pending(found, (*final(input)).remaining()) == strip_blanks((*old(input)).remaining()),
            found is Some ==> (*final(input)).decrease()->0 < (*old(input)).decrease()->0,
    {
        let ghost all = (*input).remaining();
        let ghost start = (*input).decrease()->0;
        assert(pending(first_unblank(all), behind_unblank(all)) == strip_blanks(all)) by {
            lemma_pending_unblank(all);
        }
        assert(all.skip(0) == all);
        let mut next = input.next();
        let ghost mut pulled: int = if next is Some {
            1
        } else {
            0
        };
        assert((*input).remaining() == all.skip(pulled));
        loop
            invariant
                all == (*old(input)).remaining(),
                start == (*old(input)).decrease()->0,
                pending(first_unblank(all), behind_unblank(all)) == strip_blanks(all),
                (*input).obeys_prophetic_iter_laws(),
                (*input).decrease() is Some,
                next is Some ==> (*input).decrease()->0 < start,
                0 <= pulled <= all.len(),
                (*input).remaining() == all.skip(pulled),
                match next {
                    Some(c) => {
                        &&& pulled >= 1
                        &&& c == all[pulled - 1]
                        &&& forall|i: int| 0 <= i < pulled - 1 ==> is_blank(#[trigger] all[i])
                    },
                    None => {
                        &&& pulled == all.len()
                        &&& forall|i: int| 0 <= i < pulled ==> is_blank(#[trigger] all[i])
                    },
                },
            decreases (if next is Some { 1nat } else { 0nat }), (*input).decrease()->0,
        {
            match next {
                Some(c) => {
                    if c == ' ' || c == '\t' {
                        let ghost left = (*input).remaining();
                        assert(left.len() > 0 ==> left[0] == all[pulled] && left.drop_first()
                            == all.skip(pulled + 1));
                        next = input.next();
                        proof {
                            if next is Some {
                                pulled = pulled + 1;
                            }
                        }
                    } else {
                        assert(prefix_len(all, blank()) == pulled - 1) by {
                            assert forall|i: int| 0 <= i < pulled - 1 implies blank()(
                                #[trigger] all[i],
                            ) by {
                                assert(is_blank(all[i]));
                            }
                            lemma_prefix_len_is(all, blank(), pulled - 1);
                        }
                        return Some(c);
                    }
                },
                None => {
                    assert(prefix_len(all, blank()) == all.len()) by {
                        assert forall|i: int| 0 <= i < all.len() implies blank()(
                            #[trigger] all[i],
                        ) by {
                            assert(is_blank(all[i]));
                        }
                        lemma_prefix_len_is(all, blank(), all.len() as int);
                    }
                    return None;
                },
            }
        }
    }

    /// The character that the reader holds, or nothing at the end.
    #[verifier::when_used_as_spec(spec_current)]
    pub fn current(&self) -> (c: Option<char>)
        ensures
            c == self.spec_current(),
    {
        self.current
    }

    /// Hands out the character that the reader holds and moves on to the
    /// next that is no blank.
    pub fn enhance(&mut self) -> (c: char)
        requires
            old(self).wf(),
            old(self).current() is Some,
        ensures
            final(self).wf(),
            Some(c) == old(self).current(),
            final(self).current() == first_unblank(old(self).source().remaining()),
            final(self).source().remaining() == behind_unblank(old(self).source().remaining()),
            pending(final(self).current(), final(self).source().remaining()) == pending(
                old(self).current(),
                old(self).source().remaining(),
            ).drop_first(),
            final(self).budget() < old(self).budget(),
    {
        let current = self.current.unwrap();
        let ghost upcoming = strip_blanks(self.input.remaining());
        self.current = Self::next(&mut self.input);
        assert((seq![current] + upcoming).drop_first() == upcoming);
        current
    }
}

/// Groups the characters of an input into tokens.
pub struct Lexer<I> {
    reader: Reader<I>,
}

impl<I: Iterator<Item = char>> Lexer<I> {
    /// The reader that the lexer pulls from.
    pub closed spec fn reader(&self) -> Reader<I> {
        self.reader
    }

    pub open spec fn wf(&self) -> bool {
        self.reader().wf()
    }

    /// The character at which the lexer stands, or nothing at the end.
    pub open spec fn current(&self) -> Option<char> {
        self.reader().current()
    }

    /// The input behind that character.
    pub open spec fn source(&self) -> I {
        self.reader().source()
    }

    /// A bound on how many more tokens the lexer can yield.
    pub open spec fn budget(&self) -> nat {
        self.reader().budget()
    }

    /// A lexer at the start of `input`.  The input is read up to its first
    /// character that is no blank and no further; no token is made before
    /// `next` is called.
    pub fn new(input: I) -> (lexer: Self)
        requires
            input.obeys_prophetic_iter_laws(),
            input.decrease() is Some,
        ensures
            lexer.wf(),
            lexer.current() == first_unblank(input.remaining()),
            lexer.source().remaining() == behind_unblank(input.remaining()),
            pending(lexer.current(), lexer.source().remaining()) == strip_blanks(
                input.remaining(),
            ),
    {
        Self { reader: Reader::new(input) }
    }

    /// Hands out the character at which the lexer stands.
    fn take(&mut self) -> (c: char)
        requires
            old(self).wf(),
            old(self).current() is Some,
        ensures
            final(self).wf(),
            Some(c) == old(self).current(),
            pending(final(self).current(), final(self).source().remaining()) == pending(
                old(self).current(),
                old(self).source().remaining(),
            ).drop_first(),
            moved_on(
                old(self).current(),
                old(self).source().remaining(),
                final(self).current(),
                final(self).source().remaining(),
            ),
            final(self).budget() < old(self).budget(),
    {
        assert(moved_on(
            self.current(),
            self.source().remaining(),
            first_unblank(self.source().remaining()),
            behind_unblank(self.source().remaining()),
        )) by {
            lemma_moved_on_once(self.current(), self.source().remaining());
        }
        self.reader.enhance()
    }

    /// Passes over the characters that `predicate` accepts, and stops at
    /// the first that it refuses.
    fn accept_while<P: Fn(char) -> bool>(
        &mut self,
        predicate: P,
        Ghost(accepts): Ghost<spec_fn(char) -> bool>,
    )
        requires
            old(self).wf(),
            forall|c: char| predicate.requires((c,)),
            forall|c: char, b: bool| predicate.ensures((c,), b) ==> b == accepts(c),
        ensures
            final(self).wf(),
            moved_on(
                old(self).current(),
                old(self).source().remaining(),
                final(self).current(),
                final(self).source().remaining(),
            ),
            final(self).budget() <= old(self).budget(),
            ({
                let before = pending(old(self).current(), old(self).source().remaining());
                pending(final(self).current(), final(self).source().remaining()) == before.skip(
                    prefix_len(before, accepts) as int,
                )
            }),
    {
        let ghost before = pending(self.current(), self.source().remaining());
        let ghost passed: int = 0;
        assert(before.skip(0) == before);
        assert(moved_on(
            self.current(),
            self.source().remaining(),
            self.current(),
            self.source().remaining(),
        ));
        loop
            invariant
                self.wf(),
                moved_on(
                    old(self).current(),
                    old(self).source().remaining(),
                    self.current(),
                    self.source().remaining(),
                ),
                self.budget() <= old(self).budget(),
                forall|c: char| predicate.requires((c,)),
                forall|c: char, b: bool| predicate.ensures((c,), b) ==> b == accepts(c),
                0 <= passed <= before.len(),
                pending(self.current(), self.source().remaining()) == before.skip(passed),
                prefix_len(before, accepts) == passed + prefix_len(before.skip(passed), accepts),
            ensures
                self.wf(),
                moved_on(
                    old(self).current(),
                    old(self).source().remaining(),
                    self.current(),
                    self.source().remaining(),
                ),
                self.budget() <= old(self).budget(),
                pending(self.current(), self.source().remaining()) == before.skip(
                    prefix_len(before, accepts) as int,
                ),
            decreases self.budget(),
        {
            let ghost here = before.skip(passed);
            match self.reader.current() {
                Some(c) => {
                    assert(here[0] == c);
                    if predicate(c) {
let ghost held = self.current();
                        let ghost coming = self.source().remaining();
                        self.take();
                        assert(moved_on(
                            old(self).current(),
                            old(self).source().remaining(),
                            self.current(),
                            self.source().remaining(),
                        )) by {
                            lemma_moved_on_again(
                                old(self).current(),
                                old(self).source().remaining(),
                                held,
                                coming,
                                self.current(),
                                self.source().remaining(),
                            );
                        }
                        proof {
                            assert(here.drop_first() == before.skip(passed + 1));
                            passed = passed + 1;
                        }
                    } else {
                        break ;
                    }
                },
                None => {
                    break ;
                },
            }
        }
    }

    /// Passes over the characters that `predicate` refuses, and over the
    /// first that it accepts.
    fn accept_until<P: Fn(char) -> bool>(
        &mut self,
        predicate: P,
        Ghost(passes): Ghost<spec_fn(char) -> bool>,
    )
        requires
            old(self).wf(),
            forall|c: char| predicate.requires((c,)),
            forall|c: char, b: bool| predicate.ensures((c,), b) ==> b == !passes(c),
        ensures
            final(self).wf(),
            moved_on(
                old(self).current(),
                old(self).source().remaining(),
                final(self).current(),
                final(self).source().remaining(),
            ),
            final(self).budget() <= old(self).budget(),
            ({
                let before = pending(old(self).current(), old(self).source().remaining());
                let passed = prefix_len(before, passes) as int;
                pending(final(self).current(), final(self).source().remaining()) == if passed
                    < before.len() {
                    before.skip(passed + 1)
                } else {
                    before.skip(passed)
                }
            }),
    {
        let ghost before = pending(self.current(), self.source().remaining());
        let ghost passed: int = 0;
        assert(before.skip(0) == before);
        assert(moved_on(
            self.current(),
            self.source().remaining(),
            self.current(),
            self.source().remaining(),
        ));
        loop
            invariant_except_break
                pending(self.current(), self.source().remaining()) == before.skip(passed),
                prefix_len(before, passes) == passed + prefix_len(before.skip(passed), passes),
            invariant
                self.wf(),
                moved_on(
                    old(self).current(),
                    old(self).source().remaining(),
                    self.current(),
                    self.source().remaining(),
                ),
                self.budget() <= old(self).budget(),
                forall|c: char| predicate.requires((c,)),
                forall|c: char, b: bool| predicate.ensures((c,), b) ==> b == !passes(c),
                0 <= passed <= before.len(),
            ensures
                self.wf(),
                moved_on(
                    old(self).current(),
                    old(self).source().remaining(),
                    self.current(),
                    self.source().remaining(),
                ),
                self.budget() <= old(self).budget(),
                pending(self.current(), self.source().remaining()) == if prefix_len(
                    before,
                    passes,
                ) < before.len() {
                    before.skip(prefix_len(before, passes) as int + 1)
                } else {
                    before.skip(prefix_len(before, passes) as int)
                },
            decreases self.budget(),
        {
            let ghost here = before.skip(passed);
            match self.reader.current() {
                Some(c) => {
                    assert(here[0] == c);
                    assert(here.drop_first() == before.skip(passed + 1));
                    if !predicate(c) {
let ghost held = self.current();
                        let ghost coming = self.source().remaining();
                        self.take();
                        assert(moved_on(
                            old(self).current(),
                            old(self).source().remaining(),
                            self.current(),
                            self.source().remaining(),
                        )) by {
                            lemma_moved_on_again(
                                old(self).current(),
                                old(self).source().remaining(),
                                held,
                                coming,
                                self.current(),
                                self.source().remaining(),
                            );
                        }
                        proof {
                            passed = passed + 1;
                        }
                    } else {
let ghost held = self.current();
                        let ghost coming = self.source().remaining();
                        self.take();
                        assert(moved_on(
                            old(self).current(),
                            old(self).source().remaining(),
                            self.current(),
                            self.source().remaining(),
                        )) by {
                            lemma_moved_on_again(
                                old(self).current(),
                                old(self).source().remaining(),
                                held,
                                coming,
                                self.current(),
                                self.source().remaining(),
                            );
                        }
                        break ;
                    }
                },
                None => {
                    break ;
                },
            }
        }
    }

    /// The next token, or nothing at the end of the input.
    ///
    /// The result and what is pending afterwards are those of `lex` on
    /// what was pending before, and the input is read no further than to
    /// the first character behind the token that is no blank.  Every call
    /// returns, and one that yields a token lowers the budget.
    pub fn next(&mut self) -> (r: Result<Option<Token>, LexerError>)
        requires
            old(self).wf(),
        ensures
            final(self).wf(),
            moved_on(
                old(self).current(),
                old(self).source().remaining(),
                final(self).current(),
                final(self).source().remaining(),
            ),
            ({
                let step = lex(pending(old(self).current(), old(self).source().remaining()));
                &&& lex_result_view(r) == step.result
                &&& pending(final(self).current(), final(self).source().remaining()) == step.rest
            }),
            final(self).budget() <= old(self).budget(),
            r matches Ok(Some(_)) ==> final(self).budget() < old(self).budget(),
    {
        assert(moved_on(
            self.current(),
            self.source().remaining(),
            self.current(),
            self.source().remaining(),
        ));
        if let Some(c) = self.reader.current() {
            if c == ';' {
                self.accept_while(continues_line_comment, Ghost(in_line_comment()));
            }
        }
        let ghost held = self.current();
        let ghost coming = self.source().remaining();
        assert(moved_on(held, coming, held, coming));
        if let Some(c) = self.reader.current() {
            if c == '(' {
                self.accept_until(closes_block_comment, Ghost(in_block_comment()));
            }
        }
        assert(moved_on(
            old(self).current(),
            old(self).source().remaining(),
            self.current(),
            self.source().remaining(),
        )) by {
            lemma_moved_on_again(
                old(self).current(),
                old(self).source().remaining(),
                held,
                coming,
                self.current(),
                self.source().remaining(),
            );
        }
        let ghost held = self.current();
        let ghost coming = self.source().remaining();
        assert(moved_on(held, coming, held, coming));
        let r = match self.reader.current() {
            Some(c) => {
                if c == '/' {
                    self.tok_block_delete()
                } else if c == '%' {
                    self.tok_demarcation()
                } else if is_letter(c) {
                    self.tok_letter()
                } else if is_number_char(c) {
                    self.tok_number()
                } else {
                    Err(LexerError::IllegalSymbol { symbol: c })
                }
            },
            None => Ok(None),
        };
        assert(moved_on(
            old(self).current(),
            old(self).source().remaining(),
            self.current(),
            self.source().remaining(),
        )) by {
            lemma_moved_on_again(
                old(self).current(),
                old(self).source().remaining(),
                held,
                coming,
                self.current(),
                self.source().remaining(),
            );
        }
        r
    }

    fn tok_block_delete(&mut self) -> (r: Result<Option<Token>, LexerError>)
        requires
            old(self).wf(),
            old(self).current() == Some('/'),
        ensures
            final(self).wf(),
            moved_on(
                old(self).current(),
                old(self).source().remaining(),
                final(self).current(),
                final(self).source().remaining(),
            ),
            r == Ok::<Option<Token>, LexerError>(Some(Token::BlockDelete)),
            pending(final(self).current(), final(self).source().remaining()) == pending(
                old(self).current(),
                old(self).source().remaining(),
            ).drop_first(),
            final(self).budget() < old(self).budget(),
    {
        self.take();
        Ok(Some(Token::BlockDelete))
    }

    fn tok_demarcation(&mut self) -> (r: Result<Option<Token>, LexerError>)
        requires
            old(self).wf(),
            old(self).current() == Some('%'),
        ensures
            final(self).wf(),
            moved_on(
                old(self).current(),
                old(self).source().remaining(),
                final(self).current(),
                final(self).source().remaining(),
            ),
            r == Ok::<Option<Token>, LexerError>(Some(Token::Demarcation)),
            pending(final(self).current(), final(self).source().remaining()) == pending(
                old(self).current(),
                old(self).source().remaining(),
            ).drop_first(),
            final(self).budget() < old(self).budget(),
    {
        self.take();
        Ok(Some(Token::Demarcation))
    }

    fn tok_letter(&mut self) -> (r: Result<Option<Token>, LexerError>)
        requires
            old(self).wf(),
            old(self).current() matches Some(c) && is_letter(c),
        ensures
            final(self).wf(),
            moved_on(
                old(self).current(),
                old(self).source().remaining(),
                final(self).current(),
                final(self).source().remaining(),
            ),
            r == Ok::<Option<Token>, LexerError>(
                Some(Token::Letter(to_upper(old(self).current()->0))),
            ),
            pending(final(self).current(), final(self).source().remaining()) == pending(
                old(self).current(),
                old(self).source().remaining(),
            ).drop_first(),
            final(self).budget() < old(self).budget(),
    {
        let c = self.take();
        Ok(Some(Token::Letter(to_upper(c))))
    }

    /// Gathers the run of digits, signs and points at which the lexer
    /// stands, as far as it fits the buffer, and reads it as a literal.
    fn tok_number(&mut self) -> (r: Result<Option<Token>, LexerError>)
        requires
            old(self).wf(),
            old(self).current() matches Some(c) && is_number_char(c),
        ensures
            final(self).wf(),
            moved_on(
                old(self).current(),
                old(self).source().remaining(),
                final(self).current(),
                final(self).source().remaining(),
            ),
            ({
                let before = pending(old(self).current(), old(self).source().remaining());
                let run = number_run(before);
                &&& lex_result_view(r) == if is_literal(run) {
                    Ok::<Option<Token>, LexerErrorView>(
                        Some(Token::Number(literal_value(run))),
                    )
                } else {
                    Err(LexerErrorView::InvalidNumber { text: kept_text(run) })
                }
                &&& pending(final(self).current(), final(self).source().remaining())
                    == before.skip(run.len() as int)
            }),
            final(self).budget() < old(self).budget(),
    {
        let mut buffer = NumberBuffer::new();
        let mut overflow = false;
        let ghost before = pending(self.current(), self.source().remaining());
        let ghost passed: int = 0;
        assert(before.skip(0) == before);
        assert(moved_on(
            self.current(),
            self.source().remaining(),
            self.current(),
            self.source().remaining(),
        ));
        assert(before.take(0) == Seq::<char>::empty());
        loop
            invariant
                self.wf(),
                moved_on(
                    old(self).current(),
                    old(self).source().remaining(),
                    self.current(),
                    self.source().remaining(),
                ),
                self.budget() <= old(self).budget(),
                passed > 0 ==> self.budget() < old(self).budget(),
                0 <= passed <= before.len(),
                pending(self.current(), self.source().remaining()) == before.skip(passed),
                prefix_len(before, in_number()) == passed + prefix_len(
                    before.skip(passed),
                    in_number(),
                ),
                overflow <==> passed > BUFFER_CAPACITY,
                buffer_text(buffer) == kept_text(before.take(passed)),
                is_ascii_chars(before.take(passed)),
            ensures
                self.wf(),
                moved_on(
                    old(self).current(),
                    old(self).source().remaining(),
                    self.current(),
                    self.source().remaining(),
                ),
                self.budget() <= old(self).budget(),
                passed > 0 ==> self.budget() < old(self).budget(),
                passed == prefix_len(before, in_number()),
                pending(self.current(), self.source().remaining()) == before.skip(passed),
                overflow <==> passed > BUFFER_CAPACITY,
                buffer_text(buffer) == kept_text(before.take(passed)),
            decreases self.budget(),
        {
            let ghost here = before.skip(passed);
            match self.reader.current() {
                Some(c) => {
                    assert(here[0] == c);
                    if is_number_char(c) {
                        proof {
                            let seen = before.take(passed);
                            let more = before.take(passed + 1);
                            assert(more == seen.push(c));
                            assert(here.drop_first() == before.skip(passed + 1));
                            assert(is_ascii_chars(more));
                            if passed < BUFFER_CAPACITY {
                                is_ascii_chars_encode_utf8(more);
                            } else if passed == BUFFER_CAPACITY {
                                is_ascii_chars_encode_utf8(more);
                                assert(more.take(MAX_LITERAL_LEN as int) == seen);
                            } else {
                                assert(more.take(MAX_LITERAL_LEN as int) == seen.take(
                                    MAX_LITERAL_LEN as int,
                                ));
                            }
                        }
                        if !overflow {
                            let pushed = buffer.try_push(c);
                            if !pushed {
                                overflow = true;
                            }
                        }
let ghost held = self.current();
                        let ghost coming = self.source().remaining();
                        self.take();
                        assert(moved_on(
                            old(self).current(),
                            old(self).source().remaining(),
                            self.current(),
                            self.source().remaining(),
                        )) by {
                            lemma_moved_on_again(
                                old(self).current(),
                                old(self).source().remaining(),
                                held,
                                coming,
                                self.current(),
                                self.source().remaining(),
                            );
                        }
                        proof {
                            passed = passed + 1;
                        }
                    } else {
                        break ;
                    }
                },
                None => {
                    break ;
                },
            }
        }
        let text = buffer.as_str();
        assert(passed > 0) by {
            assert(in_number()(before[0]));
        }
        if overflow {
            Err(LexerError::InvalidNumber { text: text.to_owned() })
        } else {
            match Number::parse(text) {
                Some(value) => Ok(Some(Token::Number(value))),
                None => Err(LexerError::InvalidNumber { text: text.to_owned() }),
            }
        }
    }
}

} // verus!
