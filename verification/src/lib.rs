//! A small JSON reader: a whitespace-stripping pre-pass that knows about
//! string literals, and a parser from a character stream to a value tree.
//!
//! [`utils`] holds the pre-pass and the reader of string literals,
//! [`parser`] the value tree and the parser, [`stream`] what the library
//! takes on trust of the character stream. [`grammar`] and [`number`] state
//! what the parser computes, and [`render`] the law that a value written out
//! is read back.

pub mod grammar;
pub mod number;
pub mod parser;
pub mod render;
pub mod stream;
pub mod utils;
