//! Errors surfaced by the tokenization pipeline.

use vstd::prelude::*;

verus! {

/// An error raised by the pipeline.
///
/// - `MissingUnkToken`: a model needed its unknown token but it is not in
///   the vocabulary.
/// - `InvalidInput`: an input value is outside what the operation accepts.
/// - `VocabLoad`: malformed vocabulary or merges data (missing header,
///   non-integer id, duplicate mapping, or a vocabulary file path left
///   unread).
/// - `TruncationError`: truncation cannot reach the requested length
///   (one side of a pair alone exceeds the budget).
#[derive(Clone, Copy, Debug, PartialEq, Eq, Structural)]
pub enum TokenizerError {
    MissingUnkToken,
    InvalidInput,
    VocabLoad,
    TruncationError,
}

impl TokenizerError {
    /// A human-readable description of the error.
    pub fn message(&self) -> (r: String)
        ensures
            self is MissingUnkToken ==> r@ == "Missing [UNK] token from the vocabulary"@,
    {
        match self {
            TokenizerError::MissingUnkToken => String::from_str(
                "Missing [UNK] token from the vocabulary",
            ),
            TokenizerError::InvalidInput => String::from_str("Invalid input"),
            TokenizerError::VocabLoad => String::from_str("Malformed vocabulary data"),
            TokenizerError::TruncationError => String::from_str(
                "Truncation cannot reach the requested length",
            ),
        }
    }
}

} // verus!
