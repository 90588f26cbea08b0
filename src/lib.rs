//! Front end of a small expression language: a tokenizer that turns source
//! text into tokens, and a precedence-climbing parser that turns tokens into
//! a syntax tree.

pub mod chars;
pub mod compiler;
pub mod lexer;
pub mod parser;
pub mod relex;
pub mod types;
