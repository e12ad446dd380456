//! A small ranked-retrieval library: an inverted index over short text
//! documents, answering top-k queries under the Okapi BM25 ranking scheme.
//!
//! The crate has three parts: a Unicode-aware tokenizer that normalizes text
//! into terms, a delta + varint codec that compresses sorted document-id
//! lists, and an inverted index that accumulates per-term statistics and
//! produces the inputs and the ranking of a BM25 search. The BM25 weighting
//! itself is floating-point arithmetic and is left to the caller: the index
//! hands out exact integer scoring inputs and ranks candidates by an
//! order-preserving integer key.

pub mod bm25;
pub mod tokenizer;
pub mod varint;

pub use bm25::BM25Index;
pub use tokenizer::Tokenizer;
