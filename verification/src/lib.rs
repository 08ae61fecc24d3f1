//! Near-duplicate detection and removal over a corpus of text documents:
//! deterministic token-level MinHash signatures, band-wise locality-sensitive
//! hashing, externally sorted run files of packed bucket records, duplicate
//! group discovery over the merged stream, and per-input content-hash filters.

pub mod codec;
pub mod compress;
pub mod context;
pub mod error;
pub mod filters;
pub mod groups;
pub mod hashes;
pub mod lsh;
pub mod merge;
pub mod minhash;
pub mod operations;
pub mod sort;
pub mod text;
pub mod writer;
