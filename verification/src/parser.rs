//! From tokens to blocks.
//!
//! A line of a program is one block: an optional `/` that marks it as
//! deleted, then words, each a letter and a number.  The word `N` gives the
//! block its line number; the others are kept in their order.
//!
//! What a line parses to is the function [`parse_line`]; it runs the state
//! machine [`assemble`] over the tokens that the lexer yields.

use vstd::prelude::*;
use vstd::std_specs::iter::IteratorSpec;
use crate::lexer::{
    pending, scan, strip_blanks, Lexer, LexerError, LexerErrorView, Scan, Token,
};
use crate::number::Number;
use crate::prefix::{lemma_prefix_len_is, prefix_len};
use crate::trim::{is_trimmed, trim, trimmed};

verus! {

/// Why a line is no block.
#[derive(Debug)]
pub enum ParserError {
    /// The lexer could not read the line.
    SyntaxError(LexerError),
    /// A token stands where the grammar has no place for it.
    UnexpectedToken { token: Token },
    /// The line ends behind a letter.
    MissingValue,
}

/// A `ParserError` with its text as a sequence.
pub enum ParserErrorView {
    SyntaxError(LexerErrorView),
    UnexpectedToken { token: Token },
    MissingValue,
}

impl View for ParserError {
    type V = ParserErrorView;

    open spec fn view(&self) -> ParserErrorView {
        match self {
            ParserError::SyntaxError(e) => ParserErrorView::SyntaxError(e@),
            ParserError::UnexpectedToken { token } => ParserErrorView::UnexpectedToken {
                token: *token,
            },
            ParserError::MissingValue => ParserErrorView::MissingValue,
        }
    }
}

impl From<LexerError> for ParserError {
    fn from(err: LexerError) -> (e: ParserError) {
        ParserError::SyntaxError(err)
    }
}

impl vstd::std_specs::convert::FromSpecImpl<LexerError> for ParserError {
    open spec fn obeys_from_spec() -> bool {
        true
    }

    open spec fn from_spec(err: LexerError) -> ParserError {
        ParserError::SyntaxError(err)
    }
}

/// A letter with its number.
#[derive(Debug, Clone, Copy, PartialEq, Eq, Structural)]
pub struct Word {
    pub mnemonic: char,
    pub value: Number,
}

/// One line of a program.
#[derive(Debug, Clone, PartialEq)]
pub struct Block {
    /// The number of the last `N` word of the line, if it has one.
    pub line_number: Option<Number>,
    /// Whether the line begins with `/`.
    pub deleted: bool,
    /// The words of the line but for `N`, in their order.
    pub words: Vec<Word>,
    /// The text of the line without the whitespace around it.
    pub line: String,
}

/// What a block holds apart from its text.
pub struct Content {
    pub line_number: Option<Number>,
    pub deleted: bool,
    pub words: Seq<Word>,
}

/// A `Block` with its words and its text as sequences.
pub struct BlockView {
    pub content: Content,
    pub line: Seq<char>,
}

impl View for Block {
    type V = BlockView;

    open spec fn view(&self) -> BlockView {
        BlockView {
            content: Content {
                line_number: self.line_number,
                deleted: self.deleted,
                words: self.words@,
            },
            line: self.line@,
        }
    }
}

/// The block that holds nothing.
pub open spec fn empty_content() -> Content {
    Content { line_number: None, deleted: false, words: Seq::empty() }
}

/// The content with one more word: `N` sets the line number, any other
/// letter is appended to the words.
pub open spec fn with_word(content: Content, letter: char, value: Number) -> Content {
    if letter == 'N' {
        Content { line_number: Some(value), ..content }
    } else {
        Content { words: content.words.push(Word { mnemonic: letter, value }), ..content }
    }
}

/// What the end of the tokens means: the lexer's error if it failed,
/// else `otherwise`.
pub open spec fn at_end(
    failure: Option<LexerErrorView>,
    otherwise: Result<Content, ParserErrorView>,
) -> Result<Content, ParserErrorView> {
    match failure {
        Some(e) => Err(ParserErrorView::SyntaxError(e)),
        None => otherwise,
    }
}

/// The words of a block: letters and numbers in turn, up to the end of
/// the tokens.  A token out of turn is unexpected, and so is the end
/// behind a letter.
pub open spec fn assemble_words(
    tokens: Seq<Token>,
    failure: Option<LexerErrorView>,
    content: Content,
) -> Result<Content, ParserErrorView>
    decreases tokens.len(),
{
    if tokens.len() == 0 {
        at_end(failure, Ok(content))
    } else {
        match tokens[0] {
            Token::Letter(letter) => {
                if tokens.len() == 1 {
                    at_end(failure, Err(ParserErrorView::MissingValue))
                } else {
                    match tokens[1] {
                        Token::Number(value) => assemble_words(
                            tokens.skip(2),
                            failure,
                            with_word(content, letter, value),
                        ),
                        token => Err(ParserErrorView::UnexpectedToken { token }),
                    }
                }
            },
            token => Err(ParserErrorView::UnexpectedToken { token }),
        }
    }
}

/// The block that the tokens of a line make: a leading `/` marks it as
/// deleted, and the words follow.
pub open spec fn assemble(scan: Scan) -> Result<Content, ParserErrorView> {
    if scan.tokens.len() > 0 && scan.tokens[0] == Token::BlockDelete {
        assemble_words(
            scan.tokens.drop_first(),
            scan.failure,
            Content { deleted: true, ..empty_content() },
        )
    } else {
        assemble_words(scan.tokens, scan.failure, empty_content())
    }
}

/// What the characters that the lexer reads parse to.
pub open spec fn parse_stream(stream: Seq<char>) -> Result<Content, ParserErrorView> {
    assemble(scan(stream))
}

/// What a line parses to: the content that its characters give, less
/// the whitespace around them and the blanks among them, together with
/// its trimmed text.
pub open spec fn parse_line(line: Seq<char>) -> Result<BlockView, ParserErrorView> {
    match parse_stream(strip_blanks(trimmed(line))) {
        Ok(content) => Ok(BlockView { content, line: trimmed(line) }),
        Err(e) => Err(e),
    }
}

/// The result of parsing a line, with sequences for texts and words.
pub open spec fn parse_result_view(r: Result<Block, ParserError>) -> Result<
    BlockView,
    ParserErrorView,
> {
    match r {
        Ok(block) => Ok(block@),
        Err(e) => Err(e@),
    }
}

/// The tokens that are still to come when the parser holds `current` and
/// the lexer has `stream` pending.
pub open spec fn upcoming(current: Option<Token>, stream: Seq<char>) -> Scan {
    match current {
        Some(token) => Scan {
            tokens: seq![token] + scan(stream).tokens,
            failure: scan(stream).failure,
        },
        None => Scan { tokens: Seq::empty(), failure: None },
    }
}

/// Pulls the next token for the parser, with the lexer's error wrapped.
///
/// The token pulled and the tokens behind it are the tokens that were
/// still to come; an error means that none was.
fn pull<I: Iterator<Item = char>>(lexer: &mut Lexer<I>) -> (r: Result<Option<Token>, ParserError>)
    requires
        old(lexer).wf(),
    ensures
        final(lexer).wf(),
        final(lexer).budget() <= old(lexer).budget(),
        r matches Ok(Some(_)) ==> final(lexer).budget() < old(lexer).budget(),
        ({
            let before = scan(pending(old(lexer).current(), old(lexer).source().remaining()));
            let after = pending(final(lexer).current(), final(lexer).source().remaining());
            match r {
                Ok(current) => {
                    &&& upcoming(current, after).tokens == before.tokens
                    &&& upcoming(current, after).failure == before.failure
                },
                Err(e) => {
                    &&& before.tokens == Seq::<Token>::empty()
                    &&& before.failure matches Some(f) && e@ == ParserErrorView::SyntaxError(f)
                },
            }
        }),
{
    match lexer.next() {
        Ok(token) => Ok(token),
        Err(e) => Err(ParserError::from(e)),
    }
}

/// Parses one line.
///
/// The whitespace around the line is dropped first.  A line that holds
/// nothing but blanks and a comment is the empty block.
pub fn parse(line: &str) -> (r: Result<Block, ParserError>)
    ensures
        parse_result_view(r) == parse_line(line@),
{
    broadcast use vstd::string::group_string_axioms;

    let text = trim(line);
    let mut lexer = Lexer::new(text.chars());
    let mut block = Block {
        line_number: None,
        deleted: false,
        words: Vec::new(),
        line: text.to_owned(),
    };
    let ghost stream = strip_blanks(text@);
    assert(pending(lexer.current(), lexer.source().remaining()) == stream);
    assert(block@.content == empty_content());

    let mut current = match pull(&mut lexer) {
        Ok(token) => token,
        Err(e) => {
            return Err(e);
        },
    };
    if let Some(Token::BlockDelete) = current {
        let ghost rest = scan(pending(lexer.current(), lexer.source().remaining()));
        assert(scan(stream).tokens.drop_first() == rest.tokens);
        block.deleted = true;
        current = match pull(&mut lexer) {
            Ok(token) => token,
            Err(e) => {
                return Err(e);
            },
        };
    }
    loop
        invariant
            lexer.wf(),
            block.line@ == text@,
            stream == strip_blanks(trimmed(line@)),
            text@ == trimmed(line@),
            parse_stream(stream) == assemble_words(
                upcoming(current, pending(lexer.current(), lexer.source().remaining())).tokens,
                upcoming(current, pending(lexer.current(), lexer.source().remaining())).failure,
                block@.content,
            ),
        ensures
            parse_stream(stream) == Ok::<Content, ParserErrorView>(block@.content),
            block.line@ == text@,
        decreases lexer.budget() + (if current is Some { 1nat } else { 0nat }),
    {
        let ghost ahead = upcoming(current, pending(lexer.current(), lexer.source().remaining()));
        let ghost content = block@.content;
        match current {
            None => {
                break ;
            },
            Some(Token::Letter(letter)) => {
                let ghost behind_letter = scan(
                    pending(lexer.current(), lexer.source().remaining()),
                );
                assert(ahead.tokens[0] == Token::Letter(letter));
                assert(ahead.tokens.len() == 1 + behind_letter.tokens.len());
                current = match pull(&mut lexer) {
                    Ok(token) => token,
                    Err(e) => {
                        return Err(e);
                    },
                };
                match current {
                    Some(Token::Number(value)) => {
                        let ghost behind_number = scan(
                            pending(lexer.current(), lexer.source().remaining()),
                        );
                        assert(ahead.tokens[1] == behind_letter.tokens[0]);
                        assert(ahead.tokens.skip(2) == behind_number.tokens);
                        current = match pull(&mut lexer) {
                            Ok(token) => token,
                            Err(e) => {
                                assert(assemble_words(
                                    ahead.tokens.skip(2),
                                    ahead.failure,
                                    with_word(content, letter, value),
                                ) == Err::<Content, ParserErrorView>(e@));
                                return Err(e);
                            },
                        };
                        if letter == 'N' {
                            block.line_number = Some(value);
                        } else {
                            block.words.push(Word { mnemonic: letter, value });
                        }
                        assert(block@.content == with_word(content, letter, value));
                    },
                    Some(token) => {
                        assert(ahead.tokens[1] == behind_letter.tokens[0]);
                        return Err(ParserError::UnexpectedToken { token });
                    },
                    None => {
                        return Err(ParserError::MissingValue);
                    },
                }
            },
            Some(token) => {
                assert(ahead.tokens[0] == token);
                return Err(ParserError::UnexpectedToken { token });
            },
        }
    }
    Ok(block)
}

/// The result of a pull for a block, with sequences for texts and words.
pub open spec fn next_result_view(r: Result<Option<Block>, ParserError>) -> Result<
    Option<BlockView>,
    ParserErrorView,
> {
    match r {
        Ok(Some(block)) => Ok(Some(block@)),
        Ok(None) => Ok(None),
        Err(e) => Err(e@),
    }
}

/// The lines as character sequences.
pub open spec fn line_texts(lines: Seq<&str>) -> Seq<Seq<char>> {
    lines.map_values(|line: &str| line@)
}

/// The blocks with sequences for texts and words.
pub open spec fn block_views(blocks: Seq<Block>) -> Seq<BlockView> {
    blocks.map_values(|block: Block| block@)
}

/// What a program parses to: the blocks of its lines in their order, or
/// the error of the first line that is no block.
pub open spec fn parse_lines(lines: Seq<Seq<char>>) -> Result<Seq<BlockView>, ParserErrorView>
    decreases lines.len(),
{
    if lines.len() == 0 {
        Ok(Seq::empty())
    } else {
        match parse_lines(lines.drop_last()) {
            Ok(blocks) => match parse_line(lines.last()) {
                Ok(block) => Ok(blocks.push(block)),
                Err(e) => Err(e),
            },
            Err(e) => Err(e),
        }
    }
}

/// The result of parsing a program, with sequences for texts and words.
pub open spec fn parse_all_view(r: Result<Vec<Block>, ParserError>) -> Result<
    Seq<BlockView>,
    ParserErrorView,
> {
    match r {
        Ok(blocks) => Ok(block_views(blocks@)),
        Err(e) => Err(e@),
    }
}

/// Accepts a line that holds something.
pub open spec fn is_substantial() -> spec_fn(Seq<char>) -> bool {
    |line: Seq<char>| line.len() > 0
}

/// The lines trimmed, less those that are empty then.
pub open spec fn substantial(lines: Seq<Seq<char>>) -> Seq<Seq<char>> {
    lines.map_values(|line: Seq<char>| trimmed(line)).filter(is_substantial())
}

/// What a line reader has still to hand out: the line it holds, then the
/// lines that its input will yield, trimmed, less those that are empty
/// then.  A reader that holds no line has reached the end.
pub open spec fn pending_lines(current: Option<&str>, upcoming: Seq<&str>) -> Seq<Seq<char>> {
    match current {
        Some(line) => seq![line@] + substantial(line_texts(upcoming)),
        None => Seq::empty(),
    }
}

/// Accepts a line that is empty once it is trimmed.
pub open spec fn hollow() -> spec_fn(Seq<char>) -> bool {
    |line: Seq<char>| trimmed(line).len() == 0
}

/// How many of the lines to come are passed over before one holds
/// something.
pub open spec fn hollow_lines(upcoming: Seq<&str>) -> int {
    prefix_len(line_texts(upcoming), hollow()) as int
}

/// The first of the lines to come that holds something, trimmed, if
/// there is one.
pub open spec fn first_substantial(upcoming: Seq<&str>) -> Option<Seq<char>> {
    if hollow_lines(upcoming) < upcoming.len() {
        Some(trimmed(upcoming[hollow_lines(upcoming)]@))
    } else {
        None
    }
}

/// The lines to come behind the first that holds something; none where
/// none does.
pub open spec fn behind_substantial(upcoming: Seq<&str>) -> Seq<&str> {
    if hollow_lines(upcoming) < upcoming.len() {
        upcoming.skip(hollow_lines(upcoming) + 1)
    } else {
        upcoming.skip(hollow_lines(upcoming))
    }
}

/// The text of the line that a reader holds.
pub open spec fn held_text(current: Option<&str>) -> Option<Seq<char>> {
    match current {
        Some(line) => Some(line@),
        None => None,
    }
}

/// Trimming and sifting work line by line from the front.
pub proof fn lemma_substantial_step(lines: Seq<Seq<char>>)
    ensures
        substantial(lines) == if lines.len() == 0 {
            Seq::<Seq<char>>::empty()
        } else if trimmed(lines[0]).len() == 0 {
            substantial(lines.drop_first())
        } else {
            seq![trimmed(lines[0])] + substantial(lines.drop_first())
        },
{
    let trim_line = |line: Seq<char>| trimmed(line);
    if lines.len() == 0 {
        reveal_with_fuel(Seq::filter, 1);
        assert(lines.map_values(trim_line) == Seq::<Seq<char>>::empty());
    } else {
        let first = seq![trimmed(lines[0])];
        let rest = lines.drop_first().map_values(trim_line);
        assert(lines.map_values(trim_line) == first + rest);
        Seq::filter_distributes_over_add(first, rest, is_substantial());
        assert(first.filter(is_substantial()) == if trimmed(lines[0]).len() == 0 {
            Seq::<Seq<char>>::empty()
        } else {
            first
        }) by {
            reveal_with_fuel(Seq::filter, 2);
            assert(first.drop_last() == Seq::<Seq<char>>::empty());
        }
        assert(Seq::<Seq<char>>::empty() + substantial(lines.drop_first()) == substantial(
            lines.drop_first(),
        ));
    }
}

/// A cursor over the lines of an input that trims each line and passes
/// over those that are empty then.
pub struct Reader<'i, I> {
    input: I,
    current: Option<&'i str>,
}

impl<'i, I: Iterator<Item = &'i str>> Reader<'i, I> {
    /// The input behind the line that the reader holds.
    pub closed spec fn source(&self) -> I {
        self.input
    }

    pub closed spec fn spec_current(&self) -> Option<&'i str> {
        self.current
    }

    /// The input keeps to the laws of iterators and ends, and the line
    /// held is trimmed and not empty.
    pub open spec fn wf(&self) -> bool {
        &&& self.source().obeys_prophetic_iter_laws()
        &&& self.source().decrease() is Some
        &&& self.current() matches Some(line) ==> line@.len() > 0 && is_trimmed(line@)
    }

    /// A bound on how many more lines the reader can hand out.
    pub closed spec fn budget(&self) -> nat {
        match self.current {
            Some(_) => 1 + self.input.decrease()->0,
            None => 0,
        }
    }

    /// A reader at the first line of `input` that holds something.  The
    /// input is read up to that line and no further.
    pub fn new(input: I) -> (reader: Self)
        requires
            input.obeys_prophetic_iter_laws(),
            input.decrease() is Some,
        ensures
            reader.wf(),
            held_text(reader.current()) == first_substantial(input.remaining()),
            reader.source().remaining() == behind_substantial(input.remaining()),
            pending_lines(reader.current(), reader.source().remaining()) == substantial(
                line_texts(input.remaining()),
            ),
    {
        let mut input = input;
        let current = Self::next(&mut input);
        Self { input, current }
    }

    /// Pulls lines from `input` up to the first that holds something and no
    /// further, and gives that line trimmed.
    fn next(input: &mut I) -> (found: Option<&'i str>)
        requires
            (*old(input)).obeys_prophetic_iter_laws(),
            (*old(input)).decrease() is Some,
        ensures
            (*final(input)).obeys_prophetic_iter_laws(),
            (*final(input)).decrease() is Some,
            held_text(found) == first_substantial((*old(input)).remaining()),
            (*final(input)).remaining() == behind_substantial((*old(input)).remaining()),
            found matches Some(line) ==> line@.len() > 0 && is_trimmed(line@),
            pending_lines(found, (*final(input)).remaining()) == substantial(
                line_texts((*old(input)).remaining()),
            ),
            found is Some ==> (*final(input)).decrease()->0 < (*old(input)).decrease()->0,
    {
        let ghost lines = (*input).remaining();
        let ghost all = line_texts((*input).remaining());
        let ghost start = (*input).decrease()->0;
        assert(substantial(all) == if all.len() == 0 {
            Seq::<Seq<char>>::empty()
        } else if trimmed(all[0]).len() == 0 {
            substantial(all.drop_first())
        } else {
            seq![trimmed(all[0])] + substantial(all.drop_first())
        }) by {
            lemma_substantial_step(all);
        }
        assert((*input).remaining().len() > 0 ==> all.drop_first() == line_texts(
            (*input).remaining().drop_first(),
        ));
        assert(lines.skip(0) == lines);
        let mut next = input.next();
        let ghost mut pulled: int = if next is Some {
            1
        } else {
            0
        };
        assert((*input).remaining() == lines.skip(pulled));
        loop
            invariant
                lines == (*old(input)).remaining(),
                all == line_texts(lines),
                start == (*old(input)).decrease()->0,
                (*input).obeys_prophetic_iter_laws(),
                (*input).decrease() is Some,
                next is Some ==> (*input).decrease()->0 < start,
                0 <= pulled <= lines.len(),
                (*input).remaining() == lines.skip(pulled),
                match next {
                    Some(line) => {
                        &&& pulled >= 1
                        &&& line == lines[pulled - 1]
                        &&& forall|i: int| 0 <= i < pulled - 1 ==> hollow()(#[trigger] all[i])
                    },
                    None => {
                        &&& pulled == lines.len()
                        &&& forall|i: int| 0 <= i < pulled ==> hollow()(#[trigger] all[i])
                    },
                },
                match next {
                    Some(line) => substantial(all) == if trimmed(line@).len() == 0 {
                        substantial(line_texts((*input).remaining()))
                    } else {
                        seq![trimmed(line@)] + substantial(line_texts((*input).remaining()))
                    },
                    None => substantial(all) == Seq::<Seq<char>>::empty(),
                },
            decreases (if next is Some { 1nat } else { 0nat }), (*input).decrease()->0,
        {
            match next {
                Some(line) => {
                    let text = trim(line);
                    if text.is_empty() {
                        let ghost upcoming = line_texts((*input).remaining());
                        assert(substantial(upcoming) == if upcoming.len() == 0 {
                            Seq::<Seq<char>>::empty()
                        } else if trimmed(upcoming[0]).len() == 0 {
                            substantial(upcoming.drop_first())
                        } else {
                            seq![trimmed(upcoming[0])] + substantial(upcoming.drop_first())
                        }) by {
                            lemma_substantial_step(upcoming);
                        }
                        assert((*input).remaining().len() > 0 ==> upcoming.drop_first()
                            == line_texts((*input).remaining().drop_first()));
                        let ghost left = (*input).remaining();
                        assert(left.len() > 0 ==> left[0] == lines[pulled] && left.drop_first()
                            == lines.skip(pulled + 1));
                        assert(hollow()(all[pulled - 1]));
                        next = input.next();
                        proof {
                            if next is Some {
                                pulled = pulled + 1;
                            }
                        }
                    } else {
                        assert(hollow_lines(lines) == pulled - 1) by {
                            assert(!hollow()(all[pulled - 1]));
                            lemma_prefix_len_is(all, hollow(), pulled - 1);
                        }
                        return Some(text);
                    }
                },
                None => {
                    assert(hollow_lines(lines) == lines.len()) by {
                        lemma_prefix_len_is(all, hollow(), all.len() as int);
                    }
                    return None;
                },
            }
        }
    }

    /// The line that the reader holds, or nothing at the end.
    #[verifier::when_used_as_spec(spec_current)]
    pub fn current(&self) -> (line: Option<&'i str>)
        ensures
            line == self.spec_current(),
    {
        self.current
    }

    /// Hands out the line that the reader holds and moves on to the next
    /// that holds something.
    pub fn enhance(&mut self) -> (line: &'i str)
        requires
            old(self).wf(),
            old(self).current() is Some,
        ensures
            final(self).wf(),
            Some(line) == old(self).current(),
            held_text(final(self).current()) == first_substantial(
                old(self).source().remaining(),
            ),
            final(self).source().remaining() == behind_substantial(
                old(self).source().remaining(),
            ),
            pending_lines(final(self).current(), final(self).source().remaining())
                == pending_lines(old(self).current(), old(self).source().remaining()).drop_first(),
            final(self).budget() < old(self).budget(),
    {
        let current = self.current.unwrap();
        let ghost upcoming = substantial(line_texts(self.input.remaining()));
        self.current = Self::next(&mut self.input);
        assert((seq![current@] + upcoming).drop_first() == upcoming);
        current
    }
}

/// Parses the lines of an input one by one, as they are asked for.
pub struct Parser<I> {
    input: I,
}

impl<'i, I: Iterator<Item = &'i str>> Parser<I> {
    /// The lines that the parser has not pulled yet.
    pub closed spec fn source(&self) -> I {
        self.input
    }

    /// A parser at the first line of `input`.
    pub fn new(input: I) -> (parser: Self)
        ensures
            parser.source() == input,
    {
        Self { input }
    }

    /// Pulls one line and parses it; gives nothing once the input has
    /// ended.
    ///
    /// On an input that keeps to the laws of iterators, the line pulled
    /// is the first that was left, and the result is what `parse_line`
    /// says of it.
    pub fn next(&mut self) -> (r: Result<Option<Block>, ParserError>)
        ensures
            ({
                let before = old(self).source();
                let after = final(self).source();
                let lines = before.remaining();
                &&& after.obeys_prophetic_iter_laws() == before.obeys_prophetic_iter_laws()
                &&& before.obeys_prophetic_iter_laws() ==> {
                    &&& before.decrease() is Some <==> after.decrease() is Some
                    &&& if lines.len() == 0 {
                        &&& r matches Ok(None)
                        &&& after.remaining() == lines
                    } else {
                        &&& after.remaining() == lines.drop_first()
                        &&& next_result_view(r) == match parse_line(lines[0]@) {
                            Ok(block) => Ok::<Option<BlockView>, ParserErrorView>(Some(block)),
                            Err(e) => Err(e),
                        }
                        &&& after.decrease() is Some ==> after.decrease()->0
                            < before.decrease()->0
                    }
                }
            }),
    {
        let line = match self.input.next() {
            Some(line) => line,
            None => {
                return Ok(None);
            },
        };
        match parse(line) {
            Ok(block) => Ok(Some(block)),
            Err(e) => Err(e),
        }
    }
}

/// Parses every line of `lines`, and stops at the first that is no
/// block.
pub fn parse_all<'i, I: Iterator<Item = &'i str>>(lines: I) -> (r: Result<Vec<Block>, ParserError>)
    requires
        lines.obeys_prophetic_iter_laws(),
        lines.decrease() is Some,
    ensures
        parse_all_view(r) == parse_lines(line_texts(lines.remaining())),
{
    let ghost all = line_texts(lines.remaining());
    let ghost done: int = 0;
    let mut parser = Parser::new(lines);
    let mut blocks: Vec<Block> = Vec::new();
    assert(all.take(0) == Seq::<Seq<char>>::empty());
    assert(block_views(blocks@) == Seq::<BlockView>::empty());
    assert(all.skip(0) == all);
    loop
        invariant
            all == line_texts(lines.remaining()),
            parser.source().obeys_prophetic_iter_laws(),
            parser.source().decrease() is Some,
            0 <= done <= all.len(),
            line_texts(parser.source().remaining()) == all.skip(done),
            parse_lines(all.take(done)) == Ok::<Seq<BlockView>, ParserErrorView>(
                block_views(blocks@),
            ),
        ensures
            parse_lines(all) == Ok::<Seq<BlockView>, ParserErrorView>(block_views(blocks@)),
        decreases parser.source().decrease()->0,
    {
        let ghost left = parser.source().remaining();
        let ghost before = block_views(blocks@);
        assert(left.len() == all.skip(done).len());
        match parser.next() {
            Ok(Some(block)) => {
                assert(all.take(done + 1).drop_last() == all.take(done));
                assert(all.take(done + 1).last() == left[0]@) by {
                    assert(all.skip(done)[0] == left[0]@);
                }
                assert(line_texts(left.drop_first()) =~= all.skip(done + 1)) by {
                    assert forall|i: int| 0 <= i < left.len() - 1 implies line_texts(
                        left.drop_first(),
                    )[i] == all.skip(done + 1)[i] by {
                        assert(all.skip(done)[i + 1] == line_texts(left)[i + 1]);
                    }
                }
                blocks.push(block);
                assert(block_views(blocks@) == before.push(block@));
                proof {
                    done = done + 1;
                }
            },
            Ok(None) => {
                assert(all.take(done) == all);
                break ;
            },
            Err(e) => {
                assert(all.take(done + 1).drop_last() == all.take(done));
                assert(all.take(done + 1).last() == left[0]@) by {
                    assert(all.skip(done)[0] == left[0]@);
                }
                proof {
                    lemma_parse_lines_fails(all, done + 1);
                }
                return Err(e);
            },
        }
    }
    Ok(blocks)
}

/// A program fails with the error of its first lines as soon as those
/// fail.
pub proof fn lemma_parse_lines_fails(lines: Seq<Seq<char>>, n: int)
    requires
        0 <= n <= lines.len(),
        parse_lines(lines.take(n)) is Err,
    ensures
        parse_lines(lines) == parse_lines(lines.take(n)),
    decreases lines.len(),
{
    if n < lines.len() {
        assert(lines.drop_last().take(n) == lines.take(n));
        lemma_parse_lines_fails(lines.drop_last(), n);
    } else {
        assert(lines.take(n) == lines);
    }
}

} // verus!
