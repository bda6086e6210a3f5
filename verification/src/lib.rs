//! Training of word and subword embeddings from tokenized corpora.
//!
//! The crate holds the discrete core of a skip-gram style embedding
//! trainer: vocabulary construction with frequency cutoffs, subword
//! n-gram indexing (hashed buckets or an explicit n-gram dictionary),
//! fixed-point subsampling probabilities, rank-weighted negative
//! sampling, context extraction for the skip-gram model family, and
//! projectivization of dependency trees.

pub mod config;
pub mod deps;
pub mod sampling;
pub mod skipgram;
pub mod subword;
pub mod train_info;
pub mod util;
pub mod vocab;
