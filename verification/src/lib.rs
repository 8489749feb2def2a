//! An in-memory document store with an inverted index for relevance ranking.
//!
//! Text is split into normalized tokens, every stored document is indexed by
//! the tokens it contains, and a query is answered by scoring the documents
//! that share a token with it and ranking them.
//!
//! - [`tokenizer`]: from text to tokens.
//! - [`terms`]: how often each token occurs in a token sequence.
//! - [`string_map`]: the insertion-ordered map that the index and the store
//!   are built from.
//! - [`index`]: posting lists and corpus-wide counts.
//! - [`corpus`]: what a set of documents determines; specification and proof.
//! - [`documents`]: documents and the store that keeps them and their index
//!   consistent.
//! - [`query`]: the candidates for a query, and search.
//! - [`ranking`]: the order of scored documents.
//! - [`service`]: the outcome of each request.
//!
//! Scores are integers here. A caller that scores in another number type
//! hands `query::search` a function that returns an order-preserving integer,
//! such as `ranking::score_key` of the bits of a double-precision number.

pub mod corpus;
pub mod documents;
pub mod index;
pub mod query;
pub mod ranking;
pub mod service;
pub mod string_map;
pub mod terms;
pub mod tokenizer;
