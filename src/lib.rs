//! Symbolic arithmetic expressions: a recursive-descent parser over a token
//! stream, a rewriting simplifier, and a symbolic differentiator.
pub mod number;
pub mod tokens;
pub mod ast;
pub mod differentiator;
pub mod simplifier;
pub mod parser;
pub mod lexer;
pub mod render;
