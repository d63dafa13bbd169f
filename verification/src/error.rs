//! Errors reported by vocabulary construction and by truncation.
use vstd::prelude::*;

verus! {

/// What can go wrong while a vocabulary is built or a sequence is truncated.
#[derive(Debug)]
pub enum TokenizerError {
    /// The vocabulary source could not be parsed.
    VocabularyParsingError(String),
    /// A configured special token is absent from the loaded vocabulary.
    TokenNotFound(String),
    /// A truncation strategy cannot be applied to the given sequences.
    ValueError(String),
}

impl TokenizerError {
    /// The text carried by the error.
    pub fn message(&self) -> (r: &str)
        ensures
            r@ == match *self {
                TokenizerError::VocabularyParsingError(m) => m@,
                TokenizerError::TokenNotFound(m) => m@,
                TokenizerError::ValueError(m) => m@,
            },
    {
        match self {
            TokenizerError::VocabularyParsingError(m) => m.as_str(),
            TokenizerError::TokenNotFound(m) => m.as_str(),
            TokenizerError::ValueError(m) => m.as_str(),
        }
    }
}

} // verus!
