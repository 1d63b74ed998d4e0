//! Tokenizers, datasets and batches.

pub mod bpe;
pub mod dataset;
pub mod loader;
pub mod tokenizer;
