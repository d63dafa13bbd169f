//! A tokenizer from staged bytes. The sources of the vocabulary and of the
//! merge table arrive as bytes, chunk by chunk; each is committed as text;
//! and the two texts are turned into a tokenizer. Until then a session
//! tokenizes every text to nothing.
use vstd::prelude::*;
use vstd::string::StringExecFns;
use vstd::utf8::{decode_utf8, valid_utf8};
use core::str::Utf8Error;
use crate::error::TokenizerError;
use crate::text::{chars_of, is_prefix_of, replace_all, replaced, string_of, views_of};
use crate::tokenizer::base_tokenizer::{
    columns_of, TokenizedInputView, TokenView, TruncationStrategy,
};
use crate::tokenizer::encoding::{
    decoded_tokens, texts_encoding, Tokenizer, unless_blank, whole_text,
};
use crate::tokenizer::gpt2_tokenizer::{
    Gpt2Tokenizer, PATTERN_LOOKAHEAD, PATTERN_TOKENIZATION, TokenizerView,
};
use crate::tokenizer::pattern::pattern_accepted;
use crate::vocab::base_vocab::{
    built_vocab, entries_map, json_token_ids, token_ids, Vocab, VocabView,
};
use crate::vocab::bpe_vocab::{
    BpePairVocab, max_merge_pairs, merge_lines_of, merge_pairs_of, merge_table_of,
};
use crate::vocab::gpt2_vocab::{default_special_tokens, DEFAULT_UNK_TOKEN, Gpt2Vocab};

verus! {

#[verifier::external_type_specification]
#[verifier::external_body]
pub struct ExUtf8Error(Utf8Error);

/// Calls `std::str::from_utf8` and copies the text. Bytes are accepted
/// exactly when they are valid UTF-8, and then give the text that they
/// encode.
#[verifier::external_body]
fn text_of_utf8(bytes: &Vec<u8>) -> (r: Result<String, Utf8Error>)
    ensures
        r is Ok <==> valid_utf8(bytes@),
        r matches Ok(text) ==> text@ == decode_utf8(bytes@),
{
    std::str::from_utf8(bytes.as_slice()).map(|text| text.to_owned())
}

/// Calls `to_string` on an error of `std::str::from_utf8` for its message.
#[verifier::external_body]
fn utf8_error_message(error: &Utf8Error) -> (r: String) {
    error.to_string()
}

/// Longest sequence of tokens that a session hands out.
pub const MAX_LEN: usize = 128;

/// A text as it is shown: the mark of a leading space is a space again.
pub open spec fn shown(token: Seq<char>) -> Seq<char> {
    replaced(token, "\u{120}"@, " "@)
}

/// How an initialization went.
#[derive(Debug, PartialEq, Eq, Clone, Copy, Structural)]
pub enum Initialization {
    /// The session holds a new tokenizer.
    Ready,
    /// No source of the vocabulary was committed.
    VocabMissing,
    /// No source of the merge table was committed.
    MergesMissing,
    /// The source of the vocabulary does not give a vocabulary.
    VocabRefused,
    /// The source of the merge table does not give a merge table.
    MergesRefused,
    /// A pattern of the pre-tokenizer was refused.
    PatternRefused,
}

impl Initialization {
    /// What is reported of the initialization.
    pub fn message(&self) -> (r: String)
        ensures
            r@ == match *self {
                Initialization::Ready => "Tokenizer initialized successfully."@,
                Initialization::VocabMissing => "Vocab string not found."@,
                Initialization::MergesMissing => "Merges string not found."@,
                Initialization::VocabRefused => "Failed to load vocab from cache."@,
                Initialization::MergesRefused => "Failed to load merges from cache."@,
                Initialization::PatternRefused => "Failed to prepare the pre-tokenizer."@,
            },
    {
        match self {
            Initialization::Ready => "Tokenizer initialized successfully.".to_owned(),
            Initialization::VocabMissing => "Vocab string not found.".to_owned(),
            Initialization::MergesMissing => "Merges string not found.".to_owned(),
            Initialization::VocabRefused => "Failed to load vocab from cache.".to_owned(),
            Initialization::MergesRefused => "Failed to load merges from cache.".to_owned(),
            Initialization::PatternRefused => "Failed to prepare the pre-tokenizer.".to_owned(),
        }
    }
}

/// Whether a text gives a vocabulary: it is a JSON object of token ids
/// that holds the end-of-text marker.
pub open spec fn accepted_vocab(text: Seq<char>) -> bool {
    json_token_ids(text) is Some && entries_map(json_token_ids(text)->0).contains_key(
        DEFAULT_UNK_TOKEN@,
    )
}

/// The state of a session.
pub struct TokenizerSession {
    /// The bytes that were uploaded and not yet committed.
    pub staged: Vec<u8>,
    /// The source of the vocabulary, once committed.
    pub vocab_text: Option<String>,
    /// The source of the merge table, once committed.
    pub merges_text: Option<String>,
    /// The tokenizer, once initialized.
    pub tokenizer: Option<Gpt2Tokenizer>,
}

impl TokenizerSession {
    /// A tokenizer that the session holds is in a state to encode.
    pub open spec fn wf(&self) -> bool {
        self.tokenizer matches Some(tokenizer) ==> tokenizer.ready()
            && tokenizer.vocab_spec().has_unknown()
    }

    /// A session in which nothing is staged and nothing is initialized.
    pub fn new() -> (r: TokenizerSession)
        ensures
            r.wf(),
            r.staged@.len() == 0,
            r.vocab_text is None,
            r.merges_text is None,
            r.tokenizer is None,
    {
        TokenizerSession {
            staged: Vec::new(),
            vocab_text: None,
            merges_text: None,
            tokenizer: None,
        }
    }

    /// Number of bytes that are staged.
    pub fn staged_len(&self) -> (r: usize)
        ensures
            r == self.staged@.len(),
    {
        self.staged.len()
    }

    /// Drops the bytes that are staged.
    pub fn clear_staged(&mut self)
        ensures
            final(self).staged@.len() == 0,
            final(self).vocab_text == old(self).vocab_text,
            final(self).merges_text == old(self).merges_text,
            final(self).tokenizer == old(self).tokenizer,
    {
        self.staged.clear();
    }

    /// Stages a chunk of bytes behind those that are staged already.
    pub fn upload_data_chunks(&mut self, bytes: Vec<u8>)
        ensures
            final(self).staged@ == old(self).staged@ + bytes@,
            final(self).vocab_text == old(self).vocab_text,
            final(self).merges_text == old(self).merges_text,
            final(self).tokenizer == old(self).tokenizer,
    {
        let mut bytes = bytes;
        self.staged.append(&mut bytes);
    }

    /// Takes the staged bytes and commits them as text. Returns the text, or
    /// the message of the failure where the bytes are not valid UTF-8; the
    /// staging is empty afterwards either way.
    fn take_staged_text(&mut self) -> (r: Result<String, String>)
        ensures
            final(self).staged@.len() == 0,
            final(self).vocab_text == old(self).vocab_text,
            final(self).merges_text == old(self).merges_text,
            final(self).tokenizer == old(self).tokenizer,
            r is Ok <==> valid_utf8(old(self).staged@),
            r matches Ok(text) ==> text@ == decode_utf8(old(self).staged@),
    {
        let mut bytes: Vec<u8> = Vec::new();
        core::mem::swap(&mut bytes, &mut self.staged);
        match text_of_utf8(&bytes) {
            Ok(text) => Ok(text),
            Err(e) => Err(utf8_error_message(&e)),
        }
    }

    /// Commits the staged bytes as the source of the vocabulary and says
    /// how it went. Bytes that are not valid UTF-8 are dropped and leave
    /// the source as it was.
    pub fn bytes_to_vocab(&mut self) -> (r: String)
        ensures
            final(self).staged@.len() == 0,
            final(self).merges_text == old(self).merges_text,
            final(self).tokenizer == old(self).tokenizer,
            valid_utf8(old(self).staged@) ==> r@ == "vocab.json loaded successfully."@ && (
            final(self).vocab_text matches Some(text) && text@ == decode_utf8(old(self).staged@)),
            !valid_utf8(old(self).staged@) ==> final(self).vocab_text == old(self).vocab_text
                && is_prefix_of("Failed to load vocab.json: "@, r@),
    {
        match self.take_staged_text() {
            Ok(text) => {
                self.vocab_text = Some(text);
                "vocab.json loaded successfully.".to_owned()
            },
            Err(message) => {
                let mut status = "Failed to load vocab.json: ".to_owned();
                status.append(message.as_str());
                assert(status@.take("Failed to load vocab.json: "@.len() as int)
                    =~= "Failed to load vocab.json: "@);
                status
            },
        }
    }

    /// Commits the staged bytes as the source of the merge table and says
    /// how it went. Bytes that are not valid UTF-8 are dropped and leave
    /// the source as it was.
    pub fn bytes_to_merges(&mut self) -> (r: String)
        ensures
            final(self).staged@.len() == 0,
            final(self).vocab_text == old(self).vocab_text,
            final(self).tokenizer == old(self).tokenizer,
            valid_utf8(old(self).staged@) ==> r@ == "merges.txt loaded successfully."@ && (
            final(self).merges_text matches Some(text) && text@ == decode_utf8(
                old(self).staged@,
            )),
            !valid_utf8(old(self).staged@) ==> final(self).merges_text == old(self).merges_text
                && is_prefix_of("Failed to load merges.txt: "@, r@),
    {
        match self.take_staged_text() {
            Ok(text) => {
                self.merges_text = Some(text);
                "merges.txt loaded successfully.".to_owned()
            },
            Err(message) => {
                let mut status = "Failed to load merges.txt: ".to_owned();
                status.append(message.as_str());
                assert(status@.take("Failed to load merges.txt: "@.len() as int)
                    =~= "Failed to load merges.txt: "@);
                status
            },
        }
    }

    /// Turns the committed sources into a tokenizer and says how it went.
    /// The source of the vocabulary is used up in any case, and that of the
    /// merge table whenever there was a source of the vocabulary: a failed
    /// initialization begins again with staging. A tokenizer that the
    /// session holds stays until another one takes its place.
    pub fn initialize_tokenizer(&mut self) -> (r: Initialization)
        requires
            old(self).wf(),
        ensures
            final(self).wf(),
            final(self).staged == old(self).staged,
            final(self).vocab_text is None,
            r is VocabMissing <==> old(self).vocab_text is None,
            r is MergesMissing <==> old(self).vocab_text is Some && old(self).merges_text is None,
            r is VocabMissing ==> final(self).merges_text == old(self).merges_text,
            !(r is VocabMissing) ==> final(self).merges_text is None,
            r is VocabRefused <==> old(self).vocab_text is Some && old(self).merges_text is Some
                && !accepted_vocab(old(self).vocab_text->0@),
            r is MergesRefused <==> old(self).vocab_text is Some && old(self).merges_text is Some
                && accepted_vocab(old(self).vocab_text->0@) && merge_pairs_of(
                merge_lines_of(old(self).merges_text->0@),
            ).len() > max_merge_pairs(),
            r is Ready <==> old(self).vocab_text is Some && old(self).merges_text is Some
                && accepted_vocab(old(self).vocab_text->0@) && merge_pairs_of(
                merge_lines_of(old(self).merges_text->0@),
            ).len() <= max_merge_pairs() && pattern_accepted(PATTERN_LOOKAHEAD@)
                && pattern_accepted(PATTERN_TOKENIZATION@),
            r is PatternRefused <==> old(self).vocab_text is Some && old(self).merges_text is Some
                && accepted_vocab(old(self).vocab_text->0@) && merge_pairs_of(
                merge_lines_of(old(self).merges_text->0@),
            ).len() <= max_merge_pairs() && !(pattern_accepted(PATTERN_LOOKAHEAD@)
                && pattern_accepted(PATTERN_TOKENIZATION@)),
            r is Ready ==> (final(self).tokenizer matches Some(tokenizer) && tokenizer@
                == (TokenizerView {
                vocab: built_vocab(
                    json_token_ids(old(self).vocab_text->0@)->0,
                    default_special_tokens(),
                    DEFAULT_UNK_TOKEN@,
                ),
                ranks: merge_table_of(old(self).merges_text->0@),
                lower_case: false,
                lookahead: PATTERN_LOOKAHEAD@,
                tokenization: PATTERN_TOKENIZATION@,
            })),
            !(r is Ready) ==> final(self).tokenizer == old(self).tokenizer,
    {
        let vocab_str = match self.vocab_text.take() {
            Some(text) => text,
            None => {
                return Initialization::VocabMissing;
            },
        };
        let merges_str = match self.merges_text.take() {
            Some(text) => text,
            None => {
                return Initialization::MergesMissing;
            },
        };
        match Gpt2Vocab::from_cache(vocab_str.as_str()) {
            Ok(vocab) => match BpePairVocab::from_cache(merges_str.as_str()) {
                Ok(merges) => match Gpt2Tokenizer::from_existing_vocab_and_merges(
                    vocab,
                    merges,
                    false,
                ) {
                    Ok(tokenizer) => {
                        self.tokenizer = Some(tokenizer);
                        Initialization::Ready
                    },
                    Err(_) => Initialization::PatternRefused,
                },
                Err(_) => Initialization::MergesRefused,
            },
            Err(_) => Initialization::VocabRefused,
        }
    }

    /// Tokenizes a text: encodes it to at most 128 ids, and shows the token
    /// of each id that is not special, with a space for the mark of a leading
    /// space. A session without a tokenizer gives nothing, and so does a
    /// text too long to count its characters.
    pub fn tokenize_text(&mut self, text: String) -> (r: (Vec<i64>, Vec<String>))
        requires
            old(self).wf(),
        ensures
            final(self).wf(),
            final(self).staged == old(self).staged,
            final(self).vocab_text == old(self).vocab_text,
            final(self).merges_text == old(self).merges_text,
            old(self).tokenizer is None ==>
                r.0@.len() == 0 && r.1@.len() == 0 && final(self).tokenizer is None,
            old(self).tokenizer matches Some(tokenizer) ==> {
                let shown_tokens = decoded_tokens(tokenizer.vocab_spec(), r.0@, true);
                &&& final(self).tokenizer matches Some(kept) && kept.vocab_spec()
                    == tokenizer.vocab_spec() && forall|other: TokenView|
                    #[trigger] kept.tokens_of(other) == tokenizer.tokens_of(other)
                &&& r.0@ == if text@.len() < u32::MAX {
                    first_ids(
                        tokenizer.vocab_spec(),
                        unless_blank(text@, tokenizer.tokens_of(whole_text(text@))),
                    )
                } else {
                    Seq::empty()
                }
                &&& r.0@.len() <= MAX_LEN
                &&& views_of(r.1@) == Seq::new(
                    shown_tokens.len(),
                    |i: int| shown(shown_tokens[i]),
                )
            },
    {
        let mut none: Option<Gpt2Tokenizer> = None;
        core::mem::swap(&mut none, &mut self.tokenizer);
        match none {
            Some(held) => {
                let mut tokenizer = held;
                let ghost vocab = tokenizer.vocab_spec();
                let short_enough = text.as_str().unicode_len() < u32::MAX as usize;
                let encoded = if short_enough {
                    tokenizer.encode(
                        text.as_str(),
                        None,
                        MAX_LEN,
                        &TruncationStrategy::LongestFirst,
                        0,
                    )
                } else {
                    Err(TokenizerError::ValueError(String::new()))
                };
                proof {
                    if short_enough {
                        lemma_first_ids(
                            encoded->Ok_0@,
                            vocab,
                            unless_blank(text@, held.tokens_of(whole_text(text@))),
                        );
                    }
                }
                let token_ids = match encoded {
                    Ok(input) => input.token_ids,
                    Err(_) => Vec::new(),
                };
                let tokens_list = tokenizer.decode_to_vec(token_ids.as_slice(), true);
                let ghost tokens = decoded_tokens(vocab, token_ids@, true);
                let mut tokens_cleaned: Vec<String> = Vec::new();
                let mut i: usize = 0;
                while i < tokens_list.len()
                    invariant
                        i <= tokens_list@.len(),
                        views_of(tokens_list@) == tokens,
                        tokens_cleaned@.len() == i,
                        forall|j: int| 0 <= j < i ==>
                            #[trigger] views_of(tokens_cleaned@)[j] == shown(tokens[j]),
                    decreases tokens_list@.len() - i,
                {
                    let ghost before = views_of(tokens_cleaned@);
                    let chars = chars_of(tokens_list[i].as_str());
                    assert(views_of(tokens_list@)[i as int] == tokens_list@[i as int]@);
                    let cleaned = replace_all(&chars, "\u{120}", " ");
                    tokens_cleaned.push(string_of(&cleaned));
                    assert forall|j: int| 0 <= j < i + 1 implies
                        #[trigger] views_of(tokens_cleaned@)[j] == shown(tokens[j]) by {
                        if j < i {
                            assert(views_of(tokens_cleaned@)[j] == before[j]);
                        }
                    }
                    i += 1;
                }
                assert(views_of(tokens_list@).len() == tokens_list@.len());
                assert(views_of(tokens_cleaned@) =~= Seq::new(tokens.len(),
                    |i: int| shown(tokens[i])));
                self.tokenizer = Some(tokenizer);
                (token_ids, tokens_cleaned)
            },
            None => (Vec::new(), Vec::new()),
        }
    }
}

/// The ids that a session hands out for the tokens of a text: the ids of
/// the tokens, of the first 128 of them where there are more.
pub open spec fn first_ids(vocab: VocabView, tokens: Seq<TokenView>) -> Seq<i64> {
    let ids = token_ids(vocab, columns_of(tokens).tokens);
    if ids.len() > MAX_LEN {
        ids.take(MAX_LEN as int)
    } else {
        ids
    }
}

/// The encoding of a single text that is truncated longest-first to 128
/// tokens without a stride holds the first ids of its tokens.
pub proof fn lemma_first_ids(input: TokenizedInputView, vocab: VocabView, tokens: Seq<TokenView>)
    requires
        Some(input) == texts_encoding(
            vocab,
            tokens,
            None,
            MAX_LEN as nat,
            TruncationStrategy::LongestFirst,
            0,
        ),
    ensures
        input.token_ids == first_ids(vocab, tokens),
{
    let ids = token_ids(vocab, columns_of(tokens).tokens);
    if ids.len() <= MAX_LEN {
        assert(ids.take(ids.len() as int) =~= ids);
    }
}

} // verus!
