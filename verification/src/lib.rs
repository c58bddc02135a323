//! A byte pair encoding (BPE) tokenizer over raw bytes.
//!
//! Training repeatedly merges the most frequent adjacent token pair of a
//! corpus into a fresh token, encoding replays the learned rules in order,
//! decoding expands tokens back to text (stitching across UTF-8 boundaries),
//! and the vocabulary round-trips through a compact binary form.

pub mod codec;
pub mod counter;
pub mod decode;
pub mod error;
pub mod laws;
pub mod merges;
pub mod serial;
pub mod train;
pub mod vocab;

pub use counter::TokenPairCounter;
pub use error::TokenizerError;
pub use merges::Token;
pub use serial::take_u32_le;
pub use train::train_step;
pub use vocab::BytePairEncodingTokenizer;
