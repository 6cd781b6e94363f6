//! A parser for an indentation-sensitive, YAML-like configuration syntax.
//!
//! The input is a byte buffer; the output is a tree of objects, arrays and
//! strings. Every function is specified against a mathematical model of the
//! grammar over `Seq<u8>` and proved to compute exactly what the model says.
//!
//! - [`value`]: the value tree and its model.
//! - [`grammar`]: the model of the grammar, production by production.
//! - [`lexical`], [`scalar`], [`block`]: the parser, layer by layer.
//! - [`parser`]: the entry point and its error.
//! - [`laws`], [`locality`], [`text`], [`written`]: what is proved of the
//!   grammar as a whole.

pub mod block;
pub mod grammar;
pub mod laws;
pub mod lexical;
pub mod locality;
pub mod parser;
pub mod scalar;
pub mod text;
pub mod value;
pub mod written;
