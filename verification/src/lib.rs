//! A verified lexical analyzer for a small dynamic scripting language.
//!
//! The `lexer` module turns a source buffer into a flat sequence of tokens;
//! the `model` module holds the mathematical description of that
//! transformation, which the scanner's contracts are stated against.

pub mod lexer;
pub mod model;
pub mod token;
