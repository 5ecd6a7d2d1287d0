//! Language front end: an error-tolerant tokenizer, a diagnostic model, and a
//! concrete-syntax-tree builder over an append-only node arena.
//!
//! Source text goes in; a token sequence with parallel byte spans, a tree of
//! syntax nodes addressed by stable indices, and an ordered list of
//! diagnostics come out. Malformed input never aborts a pass: unrecognized
//! lexemes become `Error` tokens and unexpected tokens are recovered from at
//! synchronization points, each surfaced as a diagnostic record.

pub mod span;
pub mod diagnostics;
pub mod lexer;
pub mod arena;
pub mod parser;
