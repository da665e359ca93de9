//! In-memory inverted index over documents described by lists of
//! slash-delimited paths: building it, ranked lookup, and a binary snapshot.
pub mod codec;
pub mod index;
pub mod search;
pub mod tokenize;
