//! Ranking of text documents by TF-IDF, with exact scores.
//!
//! A text is split into tokens, its maximal runs of ASCII letters. A
//! document is a text reduced to how often each token stands in it, and an
//! index is a set of documents together with the number of documents in
//! which each token stands. For a token, the index ranks its documents by
//! the product of the token's term frequency in the document and its
//! inverse document frequency in the corpus, the most relevant first.
//!
//! Nothing here computes with floating-point numbers. A term frequency is
//! kept as the fraction that it is, and an inverse document frequency as the
//! fraction under its logarithm, so that scores are compared exactly; to
//! turn a score into a number is left to the caller.

pub mod document;
pub mod error;
pub mod frequency;
pub mod index;
pub mod ranking;
pub mod score;
pub mod table;
pub mod text;
pub mod tokenizer;
