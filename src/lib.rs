//! Front end of a small configuration language: a tokenizer that turns source
//! text into tokens, and a recursive-descent parser that turns tokens into a
//! table of typed values.

pub mod text;
pub mod lexer;
pub mod value;
pub mod parser;
