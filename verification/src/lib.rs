//! A parser for G-code, the RS-274 family of numerical-control languages.
//!
//! A program is read one line at a time.  Each line goes through two
//! stages: the [`lexer`] filters blanks and comments out of the characters
//! and groups the rest into tokens, and the [`parser`] assembles the tokens
//! of the line into a [`parser::Block`] of words.
//!
//! Numbers are kept as exact decimals (see [`number::Number`]); nothing in
//! this crate rounds.

pub mod chars;
pub mod prefix;
pub mod number;
pub mod buffer;
pub mod lexer;
pub mod trim;
pub mod parser;
pub mod render;
pub mod message;
pub mod laws;
