//! Lexical front end for a small scripting language: a forward-only,
//! single-pass scanner that turns one in-memory byte buffer into a
//! sequence of classified tokens, or the first line-tagged error.

pub mod laws;
pub mod lox;
pub mod model;
pub mod scanner;
pub mod token;
