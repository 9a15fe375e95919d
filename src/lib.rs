//! Lexical analysis and arithmetic expressions for OpenQASM source text.
//!
//! The tokenizer is specified by a mathematical model in [`scan`]; every
//! executable step is proved to agree with that model.

pub mod chars;
pub mod tokens;
pub mod errors;
pub mod scan;
pub mod lexer;
pub mod parser;
pub mod sources;
