//! Vocabularies: the token and id maps with their special-token overlay, and
//! the ranked table of merges.
pub mod base_vocab;
pub mod bpe_vocab;
pub mod gpt2_vocab;

pub use base_vocab::{BaseVocab, SpecialTokenMap, Vocab};
pub use bpe_vocab::{BpePairRef, BpePairVocab};
pub use gpt2_vocab::Gpt2Vocab;
