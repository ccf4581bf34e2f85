//! An in-memory full-text index: documents are stored under external ids,
//! their configured fields are tokenized into an inverted index of weighted
//! postings, and queries are scored by token overlap, pruned, and reranked by
//! fuzzy alignment.

pub mod document;
pub mod index;
pub mod laws;
pub mod ranking;
pub mod text;
