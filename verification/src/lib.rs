//! Lexical-analysis front end for a small C-like language: a scanner that
//! turns source text into a sequence of classified tokens, or reports the
//! position of the first malformed piece of input.

pub mod laws;
pub mod lexer;
pub mod model;
