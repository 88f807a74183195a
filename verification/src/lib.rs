//! A parser for a small markup language of nested elements, quoted attributes and text,
//! and the document tree that it builds.
//!
//! - [`dom`]: the tree, and what `id` and `classes` read from an element.
//! - [`html_parser`]: the parser, a cursor over the source text.
//! - [`error`]: how a parse fails.
//! - [`grammar`]: what the parser computes, rule by rule, as functions of the unread text.
//! - [`syntax`], [`written`]: well-formed documents and the text that they are written as.
//! - [`roundtrip`], [`recognition`], [`laws`]: what is proved of the grammar. The
//!   well-formed texts are those that the parse reads to their end; each parses to the
//!   tree that was written, whatever its layout.
//! - [`scan`], [`encoding`], [`strings`]: characters, byte offsets, and strings.

pub mod dom;
pub mod encoding;
pub mod error;
pub mod grammar;
pub mod html_parser;
pub mod laws;
pub mod recognition;
pub mod roundtrip;
pub mod scan;
pub mod strings;
pub mod syntax;
pub mod written;
