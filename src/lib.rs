//! Front end for untyped lambda-calculus expressions: a lexer that turns
//! text into tokens and a recursive-descent parser that turns tokens into
//! expression trees.

pub mod error;
pub mod lexer;
pub mod parser;
mod stream;
