//! From source text to tokens.

pub mod grammar;
pub mod laws;
pub mod stream;
pub mod token;
pub mod tokenizer;
