//! A tokenizer for a small C-like language: integer literals, identifiers,
//! a closed set of reserved words, four arithmetic operators and five
//! punctuation marks, with whitespace discarded between tokens.
pub mod grammar;
pub mod lexer;
pub mod theorems;
