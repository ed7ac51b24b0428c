//! A small in-process text indexing and ranking engine.
//!
//! - `lexer`: turns text into normalized tokens (stemmed words, digit runs,
//!   single symbols).
//! - `counts`: a table from terms to counts.
//! - `model`: the index, with per-document term counts, corpus-wide document
//!   frequencies, staleness checks and query matching.
//! - `snapshot`: the stored form of an index, and its validation on load.
//! - `tree`: a file tree keyed by node id, with its root check.

pub mod counts;
pub mod lexer;
pub mod model;
pub mod snapshot;
pub mod tree;
