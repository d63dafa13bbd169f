//! Token model, pre-tokenization, merging, truncation and the tokenizer itself.
pub mod base_tokenizer;
pub mod cache;
pub mod constants;
pub mod encoding;
pub mod gpt2_tokenizer;
pub mod laws;
pub mod merging;
pub mod pattern;
pub mod positions;
pub mod pre_tokenization;
pub mod session;
pub mod truncation;

pub use base_tokenizer::TruncationStrategy;
pub use cache::{BpeCache, LockState};
pub use encoding::Tokenizer;
pub use gpt2_tokenizer::Gpt2Tokenizer;
pub use merging::{bpe, fix_mask, get_pairs, group_common_pairs, split_on_bpe_pairs};
pub use pre_tokenization::{
    lowercase, split_on_regex_with_lookahead, split_on_special_tokens, split_on_substr,
};
pub use truncation::{truncate_sequences, truncate_with_overflow};
