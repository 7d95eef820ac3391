//! A verified lexer and precedence-climbing parser for simple arithmetic
//! expressions over numbers, `+ - * /`, parentheses and unary minus.
//!
//! Characters flow one way through the crate: the [`lexer`] turns a string
//! into a stream of [`token::Token`] values, and the [`parser`] folds that
//! stream into an expression tree, honouring operator precedence and
//! grouping. Every step is specified against mathematical models of the
//! input (`Seq<char>`) and proved to follow them.
//!
//! A number token carries the literal text it was read from, so its value
//! stays exact; turning the text into a machine float is left to unverified
//! callers at the crate's edge.

pub mod lexer;
pub mod parser;
pub mod token;
