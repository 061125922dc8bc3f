//! A streaming lexical analyzer for the JSON token grammar.
//!
//! The lexer consumes a sequence of input bytes and produces the sequence of
//! lexical tokens it encodes: structural punctuation, string literals,
//! boolean literals and decimal number literals.  Every byte is consumed by
//! exactly one classification step; a byte that matches no rule becomes an
//! `Invalid` token and scanning continues, while a malformed multi-byte
//! construct (a broken keyword, a bad escape, a second decimal point) aborts
//! the whole pass with an error.
//!
//! The behaviour of the lexer is pinned down by the specification functions
//! in [`model`]: `tokenize` is proved to return exactly what
//! [`model::spec_tokenize`] says for its input.

pub mod lexer;
pub mod model;
pub mod render;
pub mod token;

pub use lexer::JsonLexer;
pub use token::{JsonError, JsonNumber, JsonToken};
