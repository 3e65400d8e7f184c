//! A small language for describing the layout of binary files, and an
//! interpreter that decodes a byte stream against such a description.
//!
//! Pattern text is turned into tokens by [`lexer`], into a tree of
//! declarations by [`parser`], and evaluated against a forward-only
//! [`source::ByteSource`] by [`interpreter`], which keeps its bindings in a
//! scoped [`stack::Stack`] and produces a tree of [`values::Data`].
pub mod interpreter;
pub mod lexer;
pub mod parser;
pub mod semantics;
pub mod source;
pub mod stack;
pub mod values;
