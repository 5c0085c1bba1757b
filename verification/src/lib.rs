//! A subword tokenization pipeline: normalization, pre-tokenization,
//! model tokenization (WordPiece, BPE, WordLevel) and post-processing,
//! with byte-offset tracking from the normalized text back to the
//! original input.
#![verifier::loop_isolation(false)]

pub mod added;
pub mod encoding;
pub mod error;
pub mod models;
pub mod normalized;
pub mod outside;
pub mod normalizer;
pub mod padding;
pub mod pre_tokenizers;
pub mod truncation;
pub mod text;
pub mod token;
pub mod tokenizer;

use vstd::prelude::*;

pub use encoding::Encoding;
pub use error::TokenizerError;
pub use token::Token;

verus! {

/// Byte offsets `(start, end)` into a piece of text, half-open.
pub type Offsets = (usize, usize);

} // verus!
