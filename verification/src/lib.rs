//! A small textual markup language: nested tagged nodes carrying typed
//! attribute literals (numbers, strings, lists, numeric ranges) and string
//! content.  Source bytes are tokenized by the [`lexer`], turned into an
//! ordered forest of [`ast`] nodes by the recursive-descent [`parser`], and
//! rendered to an output format by a [`plugin`] transformer.
//!
//! Text is held as owned byte vectors copied out of the source buffer, so
//! every stage is a pure function from bytes to values.

pub mod ast;
pub(crate) mod bytes;
pub mod html;
pub mod lexer;
pub mod parser;
pub mod plugin;
