//! Errors and tokens as sentences for the user.

use vstd::prelude::*;
use vstd::string::StringExecFns;
use crate::lexer::{LexerError, LexerErrorView, Token};
use crate::parser::{ParserError, ParserErrorView};
use crate::render::number_text;

verus! {

/// A token by its name and what it holds: `Letter('G')`, `Number(12.5)`.
pub open spec fn token_text(token: Token) -> Seq<char> {
    match token {
        Token::BlockDelete => "BlockDelete"@,
        Token::Letter(c) => "Letter('"@.push(c) + "')"@,
        Token::Number(value) => "Number("@ + number_text(value) + ")"@,
        Token::Demarcation => "Demarcation"@,
    }
}

/// What the lexer could not read, with the symbol or the text at fault.
pub open spec fn lexer_error_text(e: LexerErrorView) -> Seq<char> {
    match e {
        LexerErrorView::IllegalSymbol { symbol } => "illegal symbol: "@.push(symbol),
        LexerErrorView::InvalidNumber { text } => "invalid number: "@ + text,
    }
}

/// Why a line is no block, with the token or the lexer's error at fault.
pub open spec fn parser_error_text(e: ParserErrorView) -> Seq<char> {
    match e {
        ParserErrorView::SyntaxError(inner) => "syntax error: "@ + lexer_error_text(inner),
        ParserErrorView::UnexpectedToken { token } => "unexpected token: "@ + token_text(token),
        ParserErrorView::MissingValue => "missing value"@,
    }
}

impl Token {
    /// The token by its name and what it holds.
    pub fn to_text(&self) -> (text: String)
        ensures
            text@ == token_text(*self),
    {
        match self {
            Token::BlockDelete => "BlockDelete".to_owned(),
            Token::Letter(c) => {
                let mut text = "Letter('".to_owned();
                text.push(*c);
                text.append("')");
                text
            },
            Token::Number(value) => {
                let mut text = "Number(".to_owned();
                let number = value.to_text();
                text.append(number.as_str());
                text.append(")");
                text
            },
            Token::Demarcation => "Demarcation".to_owned(),
        }
    }
}

impl LexerError {
    /// The error as a sentence.
    pub fn message(&self) -> (text: String)
        ensures
            text@ == lexer_error_text(self@),
    {
        match self {
            LexerError::IllegalSymbol { symbol } => {
                let mut text = "illegal symbol: ".to_owned();
                text.push(*symbol);
                text
            },
            LexerError::InvalidNumber { text: run } => {
                let mut text = "invalid number: ".to_owned();
                text.append(run.as_str());
                text
            },
        }
    }
}

impl ParserError {
    /// The error as a sentence.
    pub fn message(&self) -> (text: String)
        ensures
            text@ == parser_error_text(self@),
    {
        match self {
            ParserError::SyntaxError(inner) => {
                let mut text = "syntax error: ".to_owned();
                let cause = inner.message();
                text.append(cause.as_str());
                text
            },
            ParserError::UnexpectedToken { token } => {
                let mut text = "unexpected token: ".to_owned();
                let name = token.to_text();
                text.append(name.as_str());
                text
            },
            ParserError::MissingValue => "missing value".to_owned(),
        }
    }
}

} // verus!
