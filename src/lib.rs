//! A byte-pair-encoding tokenizer with verified training, encoding and decoding.
pub mod pairs;
pub mod model;
pub mod tokenizer;
pub mod laws;

pub use pairs::{get_stats, merge};
pub use tokenizer::{BasicTokenizer, TokenizerError};
