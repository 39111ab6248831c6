//! Tokenizing and parsing of the textual lambda syntax.

pub mod lexer;
pub mod parser;
pub mod token;
