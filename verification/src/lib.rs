//! A GPT2-style byte-pair-encoding tokenizer whose behaviour is stated in
//! contracts and proved.
//!
//! Text is cut at the special tokens and segmented into pre-tokens; every
//! pre-token is projected byte by byte onto printable code points and merged
//! by rank; and each resulting token keeps the positions of the original
//! characters that it came from.
pub mod error;
pub mod text;
pub mod token_ids;
pub mod tokenizer;
pub mod vocab;

pub use tokenizer::base_tokenizer::{
    ConsolidatableTokens, ConsolidatedTokenIterator, Mask, Offset, OffsetSize, Token,
    TokenIdsWithOffsets, TokenIdsWithSpecialTokens, TokenRef, TokenTrait, TokenView,
    TokenizedInput, TokensWithOffsets,
};
