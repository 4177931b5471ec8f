//! A byte-pair-encoding text tokenizer for CLIP-style vision-language models.
pub mod alphabet;
pub mod merge;
pub mod tables;
pub mod text;
pub mod tokenizer;
pub mod vocab;

pub use tokenizer::{Token, Tokenizer, TokenizerError};
