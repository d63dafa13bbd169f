//! The vocabulary of the GPT2 tokenizer, read from a JSON object. One
//! token, `<|endoftext|>`, serves as unknown, begin and end marker.
use vstd::hash_map::StringHashMap;
use vstd::prelude::*;
use std::collections::HashMap;
use crate::error::TokenizerError;
use crate::vocab::base_vocab::{
    add_tokens_to, all_known, build_vocab, built_vocab, entries_map, entry_views, index_view,
    json_token_ids, lemma_built_has_unknown, read_json_string, SpecialTokenMap,
    SpecialTokenMapView, Vocab, VocabParts, VocabView,
};

verus! {

pub const DEFAULT_UNK_TOKEN: &'static str = "<|endoftext|>";

pub const DEFAULT_BOS_TOKEN: &'static str = DEFAULT_UNK_TOKEN;

pub const DEFAULT_EOS_TOKEN: &'static str = DEFAULT_UNK_TOKEN;

/// Vocabulary of the GPT2 tokenizer.
pub struct Gpt2Vocab {
    /// Id of each token.
    pub values: StringHashMap<i64>,
    /// Token of each id.
    pub indices: HashMap<i64, String>,
    /// The special tokens by role.
    pub special_token_map: SpecialTokenMap,
    /// The special tokens with their ids, in the order of their registration.
    pub special_values: Vec<(String, i64)>,
    /// Special token of each special id.
    pub special_indices: HashMap<i64, String>,
}

/// The roles that a vocabulary read from a text is given: the end-of-text
/// marker is its unknown, begin and end token.
pub open spec fn default_roles() -> SpecialTokenMapView {
    SpecialTokenMapView {
        unk_token: DEFAULT_UNK_TOKEN@,
        pad_token: None,
        bos_token: Some(DEFAULT_BOS_TOKEN@),
        sep_token: None,
        cls_token: None,
        eos_token: Some(DEFAULT_EOS_TOKEN@),
        mask_token: None,
        additional_special_tokens: None,
    }
}

/// The special tokens that a vocabulary read from a text is given.
pub open spec fn default_special_tokens() -> Seq<Seq<char>> {
    seq![DEFAULT_UNK_TOKEN@, DEFAULT_BOS_TOKEN@, DEFAULT_EOS_TOKEN@]
}

impl Gpt2Vocab {
    /// The token that marks the beginning of a text.
    pub fn get_bos_value(&self) -> (r: &str)
        ensures
            r@ == match self.roles().bos_token {
                Some(token) => token,
                None => DEFAULT_BOS_TOKEN@,
            },
    {
        match &self.special_token_map.bos_token {
            Some(token) => token.as_str(),
            None => DEFAULT_BOS_TOKEN,
        }
    }

    /// The token that marks the end of a text.
    pub fn get_eos_value(&self) -> (r: &str)
        ensures
            r@ == match self.roles().eos_token {
                Some(token) => token,
                None => DEFAULT_EOS_TOKEN@,
            },
    {
        match &self.special_token_map.eos_token {
            Some(token) => token.as_str(),
            None => DEFAULT_EOS_TOKEN,
        }
    }
}

impl Vocab for Gpt2Vocab {
    open spec fn roles(&self) -> SpecialTokenMapView {
        self.special_token_map@
    }

    open spec fn vocab_view(&self) -> VocabView {
        VocabView {
            values: self.values@,
            indices: index_view(self.indices@),
            special_values: entry_views(self.special_values@),
            special_indices: index_view(self.special_indices@),
            unknown: self.special_token_map.unk_token@,
        }
    }

    fn get_unknown_value(&self) -> (r: &str) {
        self.special_token_map.unk_token.as_str()
    }

    fn values(&self) -> (r: &StringHashMap<i64>) {
        &self.values
    }

    fn indices(&self) -> (r: &HashMap<i64, String>) {
        &self.indices
    }

    fn special_values(&self) -> (r: &Vec<(String, i64)>) {
        &self.special_values
    }

    fn special_indices(&self) -> (r: &HashMap<i64, String>) {
        &self.special_indices
    }

    fn values_mut(&mut self) -> (r: &mut StringHashMap<i64>) {
        &mut self.values
    }

    fn indices_mut(&mut self) -> (r: &mut HashMap<i64, String>) {
        &mut self.indices
    }

    fn special_values_mut(&mut self) -> (r: &mut Vec<(String, i64)>) {
        &mut self.special_values
    }

    fn special_indices_mut(&mut self) -> (r: &mut HashMap<i64, String>) {
        &mut self.special_indices
    }

    /// Reads a vocabulary from a JSON object that maps each token to its
    /// id, and registers `<|endoftext|>` as its unknown, begin and end token.
    /// Fails where the text is not such an object, and where the object
    /// does not hold `<|endoftext|>`.
    fn from_cache(text: &str) -> (r: Result<Gpt2Vocab, TokenizerError>)
        ensures
            r is Ok <==> json_token_ids(text@) is Some && entries_map(
                json_token_ids(text@)->0,
            ).contains_key(DEFAULT_UNK_TOKEN@),
            r matches Ok(vocab) ==> vocab.vocab_view() == built_vocab(
                json_token_ids(text@)->0,
                default_special_tokens(),
                DEFAULT_UNK_TOKEN@,
            ),
            r matches Ok(vocab) ==> vocab.roles() == default_roles(),
            r matches Err(e) ==> if json_token_ids(text@) is None {
                e is VocabularyParsingError
            } else {
                e is TokenNotFound
            },
    {
        let values = match read_json_string(text) {
            Ok(values) => values,
            Err(e) => {
                return Err(e);
            },
        };
        let special_token_map = SpecialTokenMap {
            unk_token: DEFAULT_UNK_TOKEN.to_owned(),
            pad_token: None,
            bos_token: Some(DEFAULT_BOS_TOKEN.to_owned()),
            sep_token: None,
            cls_token: None,
            eos_token: Some(DEFAULT_EOS_TOKEN.to_owned()),
            mask_token: None,
            additional_special_tokens: None,
        };
        proof {
            let tokens = default_special_tokens();
            assert(special_token_map.configured_tokens() =~= tokens);
            let map = entries_map(entry_views(values@));
            assert(all_known(tokens, map) <==> map.contains_key(tokens[0]));
        }
        let built = Self::from_values_and_special_token_map(values, special_token_map);
        proof {
            if built is Ok {
                lemma_built_has_unknown(
                    json_token_ids(text@)->0,
                    default_special_tokens(),
                    DEFAULT_UNK_TOKEN@,
                );
            }
        }
        built
    }

    fn from_values_and_special_token_map(
        values: Vec<(String, i64)>,
        special_token_map: SpecialTokenMap,
    ) -> (r: Result<Self, TokenizerError>) {
        match build_vocab(&values, &special_token_map) {
            Ok(parts) => Ok(
                Gpt2Vocab {
                    values: parts.values,
                    indices: parts.indices,
                    special_token_map,
                    special_values: parts.special_values,
                    special_indices: parts.special_indices,
                },
            ),
            Err(e) => Err(e),
        }
    }

    fn token_to_id(&self, token: &str) -> (r: i64) {
        self._token_to_id(token, &self.values, &self.special_values, self.get_unknown_value())
    }

    fn id_to_token(&self, id: &i64) -> (r: String) {
        self._id_to_token(id, &self.indices, &self.special_indices, self.get_unknown_value())
    }

    fn add_tokens(&mut self, tokens: &[&str]) {
        let mut parts = VocabParts {
            values: StringHashMap::new(),
            indices: HashMap::new(),
            special_values: Vec::new(),
            special_indices: HashMap::new(),
        };
        core::mem::swap(&mut parts.values, &mut self.values);
        core::mem::swap(&mut parts.indices, &mut self.indices);
        core::mem::swap(&mut parts.special_values, &mut self.special_values);
        core::mem::swap(&mut parts.special_indices, &mut self.special_indices);
        add_tokens_to(&mut parts, tokens);
        self.values = parts.values;
        self.indices = parts.indices;
        self.special_values = parts.special_values;
        self.special_indices = parts.special_indices;
        assert(self.vocab_view() == parts.view_with(self.special_token_map.unk_token@));
    }
}

} // verus!
