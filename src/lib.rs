//! Lexical scanner for a small scripting language: source text in, a
//! sequence of line-annotated tokens out (or the first error met).
pub mod error;
pub mod lexer;
pub mod model;
pub mod laws;
