//! Full-text retrieval over a fixed corpus of short records: character n-gram
//! tokens, an inverted index with BM25 statistics, ranking, and a compact
//! binary form of the index that can be compressed and stored.

pub mod builder;
pub mod codec;
pub mod compress;
pub mod corpus;
pub mod engine;
pub mod error;
pub mod index;
pub mod ingest;
pub mod layout;
pub mod model;
pub mod query;
pub mod ranking;
pub mod search;
pub mod tokenizer;
