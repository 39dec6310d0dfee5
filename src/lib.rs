//! A front end for a small C-like scripting language: a lexer that turns
//! source text into tokens, and a recursive-descent parser that turns the
//! tokens into a program of statements together with a list of diagnostics.

pub mod ast;
pub mod token;
pub mod lexer;
pub mod parser;
