//! From tokens to the input of a model: ids, truncation, joining; and from
//! ids back to tokens.
use vstd::prelude::*;
use crate::error::TokenizerError;
use crate::text::{chars_of, is_blank, is_blank_text, replace_all, replaced, string_of, views_of};
use crate::tokenizer::base_tokenizer::{
    columns_of, Offset, identity_positions, initial_positions, join_sequences, joined_input, Mask,
    offset_of_positions, OffsetSize, positions_bounded, Token, TokenIdsView, TokenIdsWithOffsets,
    TokenIdsWithSpecialTokens, TokenizedInput, TokenizedInputView, TokenRef, tokens_to_columns,
    TokensView, TokensWithOffsets, TokenView, TruncationStrategy,
};
use crate::tokenizer::merging::{all_aligned, masks_repaired, token_views};
use crate::tokenizer::positions::{
    all_positions, follows, in_order, lemma_all_spans_apart, lemma_positions_within, positions_of,
    spans_apart,
};
use crate::tokenizer::pre_tokenization::can_be_cut;
use crate::tokenizer::truncation::{
    can_truncate, lemma_longest_first_cut, lemma_truncated_removes_count, truncate_sequences,
    truncated,
};
use crate::vocab::base_vocab::{extra_id_tokens, str_views, token_ids, Vocab, VocabView};

verus! {

/// The encoded sequence of a tokenized text: the ids of its tokens with
/// their offsets, positions and masks.
pub open spec fn encoded_ids(vocab: VocabView, tokens: TokensView) -> TokenIdsView {
    TokenIdsView {
        ids: token_ids(vocab, tokens.tokens),
        offsets: tokens.offsets,
        reference_offsets: tokens.reference_offsets,
        masks: tokens.masks,
    }
}

impl TokensView {
    /// Every column holds one entry per token.
    pub open spec fn is_complete(self) -> bool {
        &&& self.offsets.len() == self.tokens.len()
        &&& self.reference_offsets.len() == self.tokens.len()
        &&& self.masks.len() == self.tokens.len()
    }

    /// The tokenization of a text without tokens.
    pub open spec fn empty() -> TokensView {
        TokensView { tokens: seq![], offsets: seq![], reference_offsets: seq![], masks: seq![] }
    }
}

/// The encoded sequence of an optional second text.
pub open spec fn encoded_second(vocab: VocabView, tokens: Option<TokensWithOffsets>) -> Option<
    TokenIdsView,
> {
    match tokens {
        Some(tokens) => Some(encoded_ids(vocab, tokens@)),
        None => None,
    }
}

/// Number of tokens that have to go for `total` tokens to fit `max_len`.
pub open spec fn removal_count(total: int, max_len: int) -> nat {
    if total > max_len {
        (total - max_len) as nat
    } else {
        0
    }
}

/// Number of tokens of a sequence and an optional second one.
pub open spec fn total_len(first: TokenIdsView, second: Option<TokenIdsView>) -> int {
    first.ids.len() + match second {
        Some(second) => second.ids.len() as int,
        None => 0,
    }
}

/// The input that encoded sequences give: they are truncated to
/// `max_len` tokens as the strategy says and then joined. Nothing where
/// the strategy cannot remove as many tokens as have to go.
pub open spec fn encoding_of(
    first: TokenIdsView,
    second: Option<TokenIdsView>,
    max_len: nat,
    strategy: TruncationStrategy,
    stride: nat,
) -> Option<TokenizedInputView> {
    let count = removal_count(total_len(first, second), max_len as int);
    if can_truncate(first, second, count, strategy) {
        let cut = truncated(first, second, count, strategy, stride);
        let input = joined_input(cut.first, cut.second);
        Some(
            TokenizedInputView {
                token_ids: input.token_ids,
                segment_ids: input.segment_ids,
                special_tokens_mask: input.special_tokens_mask,
                overflowing_tokens: cut.overflow_ids,
                num_truncated_tokens: count,
                token_offsets: input.token_offsets,
                reference_offsets: input.reference_offsets,
                mask: input.mask,
            },
        )
    } else {
        None
    }
}

/// An input that encoding gives holds at most `max_len` tokens, and its
/// tokens together with those that truncation removed are the tokens that
/// were there before. A single sequence that is truncated longest-first or
/// first-only always gives an input. Complete sequences give an input whose
/// columns hold one entry per token.
pub proof fn lemma_encoding_of(
    first: TokenIdsView,
    second: Option<TokenIdsView>,
    max_len: nat,
    strategy: TruncationStrategy,
    stride: nat,
)
    ensures
        encoding_of(first, second, max_len, strategy, stride) matches Some(input) ==> {
            &&& input.token_ids.len() <= max_len
            &&& input.token_ids.len() + input.num_truncated_tokens == total_len(first, second)
            &&& input.num_truncated_tokens > 0 ==> input.token_ids.len() == max_len
            &&& first.is_complete() && (second matches Some(s) ==> s.is_complete())
                ==> input.is_complete()
        },
        second is None && (strategy == TruncationStrategy::LongestFirst || strategy
            == TruncationStrategy::OnlyFirst) ==> encoding_of(
            first,
            second,
            max_len,
            strategy,
            stride,
        ) is Some,
        second is Some && strategy == TruncationStrategy::LongestFirst ==> encoding_of(
            first,
            second,
            max_len,
            strategy,
            stride,
        ) is Some,
{
    let count = removal_count(total_len(first, second), max_len as int);
    if can_truncate(first, second, count, strategy) {
        lemma_truncated_removes_count(first, second, count, strategy, stride);
    }
}

/// Encodes tokenized texts: looks up the id of every token, removes the
/// tokens that exceed `max_len` as the strategy says, and joins what is
/// left into one input, which also holds the removed tokens and their
/// number. Fails where the strategy cannot remove as many tokens as have
/// to go.
pub fn encode_tokens<T: Vocab>(
    vocab: &T,
    tokens_1: TokensWithOffsets,
    tokens_2: Option<TokensWithOffsets>,
    max_len: usize,
    truncation_strategy: &TruncationStrategy,
    stride: usize,
) -> (r: Result<TokenizedInput, TokenizerError>)
    requires
        vocab.vocab_view().has_unknown(),
        tokens_1@.is_complete(),
        tokens_2 matches Some(second) ==> second@.is_complete(),
        tokens_1@.tokens.len() + (match tokens_2 {
            Some(second) => second@.tokens.len(),
            None => 0,
        }) <= usize::MAX,
    ensures
        match r {
            Ok(input) => Some(input@) == encoding_of(
                encoded_ids(vocab.vocab_view(), tokens_1@),
                encoded_second(vocab.vocab_view(), tokens_2),
                max_len as nat,
                *truncation_strategy,
                stride as nat,
            ),
            Err(e) => e is ValueError && encoding_of(
                encoded_ids(vocab.vocab_view(), tokens_1@),
                encoded_second(vocab.vocab_view(), tokens_2),
                max_len as nat,
                *truncation_strategy,
                stride as nat,
            ) is None,
        },
{
    let first = ids_with_offsets(vocab, tokens_1);
    let len_1 = first.ids.len();
    let (second, len_2) = match tokens_2 {
        Some(tokens) => {
            let encoded = ids_with_offsets(vocab, tokens);
            let len = encoded.ids.len();
            (Some(encoded), len)
        },
        None => (None, 0),
    };
    let total = len_1 + len_2;
    let num_truncated_tokens = if total > max_len {
        total - max_len
    } else {
        0
    };
    match truncate_sequences(first, second, num_truncated_tokens, truncation_strategy, stride) {
        Ok(cut) => {
            let merged = join_sequences(cut.0, cut.1);
            Ok(
                TokenizedInput {
                    token_ids: merged.token_ids,
                    segment_ids: merged.segment_ids,
                    special_tokens_mask: merged.special_tokens_mask,
                    overflowing_tokens: cut.2,
                    num_truncated_tokens,
                    token_offsets: merged.token_offsets,
                    reference_offsets: merged.reference_offsets,
                    mask: merged.mask,
                },
            )
        },
        Err(e) => Err(e),
    }
}

/// The ids of the tokens of a tokenized text, with its other columns.
pub fn ids_with_offsets<T: Vocab>(vocab: &T, tokens: TokensWithOffsets) -> (r: TokenIdsWithOffsets)
    requires
        vocab.vocab_view().has_unknown(),
    ensures
        r@ == encoded_ids(vocab.vocab_view(), tokens@),
{
    let ids = ids_of_tokens(vocab, &tokens.tokens);
    TokenIdsWithOffsets {
        ids,
        offsets: tokens.offsets,
        reference_offsets: tokens.reference_offsets,
        masks: tokens.masks,
    }
}

/// The ids of the given tokens.
pub fn ids_of_tokens<T: Vocab>(vocab: &T, tokens: &Vec<String>) -> (r: Vec<i64>)
    requires
        vocab.vocab_view().has_unknown(),
    ensures
        r@ == token_ids(vocab.vocab_view(), views_of(tokens@)),
{
    let ghost all = token_ids(vocab.vocab_view(), views_of(tokens@));
    let mut ids: Vec<i64> = Vec::new();
    let mut i: usize = 0;
    while i < tokens.len()
        invariant
            i <= tokens@.len(),
            vocab.vocab_view().has_unknown(),
            all == token_ids(vocab.vocab_view(), views_of(tokens@)),
            ids@ == all.take(i as int),
        decreases tokens@.len() - i,
    {
        ids.push(vocab.token_to_id(tokens[i].as_str()));
        i += 1;
        assert(ids@ =~= all.take(i as int));
    }
    assert(all.take(i as int) =~= all);
    ids
}

/// The tokens of the given ids, in order; with `skip_special_tokens` the
/// ids of special tokens are left out.
pub open spec fn decoded_tokens(vocab: VocabView, ids: Seq<i64>, skip_special_tokens: bool) -> Seq<
    Seq<char>,
>
    decreases ids.len(),
{
    if ids.len() == 0 {
        seq![]
    } else {
        let before = decoded_tokens(vocab, ids.drop_last(), skip_special_tokens);
        if skip_special_tokens && vocab.special_indices.contains_key(ids.last()) {
            before
        } else {
            before.push(vocab.id_token(ids.last()))
        }
    }
}

/// The tokens of the given ids, in order; with `skip_special_tokens` the
/// ids of special tokens are left out. An id that the vocabulary does not
/// hold gives the unknown token.
pub fn tokens_of_ids<T: Vocab>(
    vocab: &T,
    token_ids: &[i64],
    skip_special_tokens: bool,
) -> (r: Vec< String, >)
    ensures
        views_of(r@) == decoded_tokens(vocab.vocab_view(), token_ids@, skip_special_tokens),
{
    let ghost view = vocab.vocab_view();
    let mut tokens: Vec<String> = Vec::new();
    let mut i: usize = 0;
    assert(token_ids@.take(0) =~= Seq::<i64>::empty());
    while i < token_ids.len()
        invariant
            i <= token_ids@.len(),
            view == vocab.vocab_view(),
            views_of(tokens@) == decoded_tokens(view, token_ids@.take(i as int),
                skip_special_tokens),
        decreases token_ids@.len() - i,
    {
        let id = token_ids[i];
        let ghost before = views_of(tokens@);
        assert(token_ids@.take(i + 1).drop_last() =~= token_ids@.take(i as int));
        assert(token_ids@.take(i + 1).last() == id);
        let special = vocab.special_indices().contains_key(&id);
        assert(special == view.special_indices.contains_key(id));
        if !(skip_special_tokens && special) {
            tokens.push(vocab.id_to_token(&id));
            assert(views_of(tokens@) =~= before.push(view.id_token(id)));
        }
        i += 1;
    }
    assert(token_ids@.take(i as int) =~= token_ids@);
    tokens
}

/// A text with the traces of tokenization removed: the space in front of
/// a full stop, an exclamation mark, a question mark and a comma, the
/// spaces around a lone apostrophe, the space in front of the usual
/// contractions, and `do not` contracted.
pub open spec fn cleaned_up(s: Seq<char>) -> Seq<char> {
    let s = replaced(s, " ."@, "."@);
    let s = replaced(s, " !"@, "!"@);
    let s = replaced(s, " ?"@, "?"@);
    let s = replaced(s, " ,"@, ","@);
    let s = replaced(s, " ' "@, "'"@);
    let s = replaced(s, " n't"@, "n't"@);
    let s = replaced(s, " 'm"@, "'m"@);
    let s = replaced(s, " do not"@, " don't"@);
    let s = replaced(s, " 's"@, "'s"@);
    let s = replaced(s, " 've"@, "'ve"@);
    replaced(s, " 're"@, "'re"@)
}

/// Removes the traces of tokenization from a text, one replacement after
/// another over the whole text.
pub fn clean_up(input_string: &str) -> (r: String)
    ensures
        r@ == cleaned_up(input_string@),
{
    let chars = chars_of(input_string);
    let chars = replace_all(&chars, " .", ".");
    let chars = replace_all(&chars, " !", "!");
    let chars = replace_all(&chars, " ?", "?");
    let chars = replace_all(&chars, " ,", ",");
    let chars = replace_all(&chars, " ' ", "'");
    let chars = replace_all(&chars, " n't", "n't");
    let chars = replace_all(&chars, " 'm", "'m");
    let chars = replace_all(&chars, " do not", " don't");
    let chars = replace_all(&chars, " 's", "'s");
    let chars = replace_all(&chars, " 've", "'ve");
    let chars = replace_all(&chars, " 're", "'re");
    string_of(&chars)
}

/// Whether every column of a tokenized text holds one entry per token and
/// each offset spans the positions of its token.
pub open spec fn is_laid_out(tokens: TokensView) -> bool {
    &&& tokens.is_complete()
    &&& forall|i: int|
        0 <= i < tokens.tokens.len() ==> #[trigger] tokens.offsets[i] == offset_of_positions(
            tokens.reference_offsets[i],
        )
}

/// The columns of tokens are laid out.
pub proof fn lemma_columns_laid_out(tokens: Seq<TokenView>)
    ensures
        is_laid_out(columns_of(tokens)),
        columns_of(tokens).tokens.len() == tokens.len(),
{
}

/// What the columns of tokens inherit from the tokens of a text of `n`
/// characters: the columns are laid out, every position is a position of
/// the text, the positions never go back, every text has one position per
/// character, and no continuation stands right behind a plain token. Where
/// the positions are kept apart, they go up from each to the next and the
/// spans of the tokens lie apart.
pub proof fn lemma_columns_of_tokens(tokens: Seq<TokenView>, n: nat, apart: bool)
    requires
        n <= u32::MAX,
        follows(
            all_positions(tokens),
            identity_positions(n),
            n as int,
            apart,
        ),
        all_aligned(tokens),
        masks_repaired(tokens),
    ensures
        is_laid_out(columns_of(tokens)),
        forall|i: int, k: int|
            0 <= i < tokens.len() && 0 <= k < columns_of(tokens).reference_offsets[i].len()
                ==> #[trigger] columns_of(tokens).reference_offsets[i][k] < n,
        in_order(columns_of(tokens).reference_offsets.flatten(), false),
        apart ==> in_order(columns_of(tokens).reference_offsets.flatten(), true),
        apart ==> spans_apart(columns_of(tokens).offsets),
        forall|i: int|
            0 <= i < tokens.len() ==> (#[trigger] columns_of(tokens).tokens[i]).len()
                == columns_of(tokens).reference_offsets[i].len(),
        forall|i: int, j: int|
            0 <= i && i + 1 == j && j < tokens.len() ==> !(#[trigger] columns_of(tokens).masks[i]
                == Mask::Plain && #[trigger] columns_of(tokens).masks[j] == Mask::Continuation),
{
    let columns = columns_of(tokens);
    lemma_columns_laid_out(tokens);
    assert(columns.reference_offsets =~= positions_of(tokens));
    lemma_positions_within(positions_of(tokens), n, apart);
    if apart {
        lemma_all_spans_apart(positions_of(tokens));
        assert(columns.offsets =~= Seq::new(
            positions_of(tokens).len(),
            |i: int| offset_of_positions(positions_of(tokens)[i]),
        ));
    }
    assert forall|i: int| 0 <= i < tokens.len() implies (#[trigger] columns.tokens[i]).len()
        == columns.reference_offsets[i].len() by {
        assert(tokens[i].is_aligned());
    }
    assert forall|i: int, j: int| 0 <= i && i + 1 == j && j < tokens.len() implies !(
    #[trigger] columns.masks[i] == Mask::Plain && #[trigger] columns.masks[j]
        == Mask::Continuation) by {
        assert(!(tokens[i].mask == Mask::Plain && tokens[j].mask == Mask::Continuation));
    }
}

/// What an encoded input owes to every caller: its columns hold one entry
/// per token, it holds at most `max_len` tokens, it holds exactly that many
/// where tokens were removed, and without a stride the overflow consists of
/// the removed tokens.
pub open spec fn fits(input: TokenizedInputView, max_len: nat, stride: nat) -> bool {
    &&& input.is_complete()
    &&& input.token_ids.len() <= max_len
    &&& input.num_truncated_tokens > 0 ==> input.token_ids.len() == max_len
    &&& stride == 0 ==> input.overflowing_tokens.len() == input.num_truncated_tokens
}

/// The tokenizer: from text to tokens, from tokens to ids and to the input
/// of a model, and from ids back to text.
pub trait Tokenizer<T: Vocab>: Sized {
    /// Whether the tokenizer is in a state to tokenize.
    spec fn ready(&self) -> bool;

    /// The vocabulary of the tokenizer as mathematical values.
    spec fn vocab_spec(&self) -> VocabView;

    /// The text that a sequence of tokens stands for.
    spec fn tokens_string(&self, tokens: Seq<Seq<char>>) -> Seq<char>;

    /// Whether the tokenizer keeps every character of the text in a single
    /// token, so that no position is held by two tokens.
    spec fn keeps_apart(&self, text: Seq<char>) -> bool;

    /// The tokens that the tokenizer makes of a token that stands for a
    /// text, or for a part of one.
    spec fn tokens_of(&self, text: TokenView) -> Seq<TokenView>;

    /// The vocabulary of the tokenizer.
    fn vocab(&self) -> (r: &T)
        ensures
            r.vocab_view() == self.vocab_spec(),
    ;

    /// The vocabulary of the tokenizer, to change it.
    fn vocab_mut(&mut self) -> (r: &mut T)
        ensures
            r.vocab_view() == old(self).vocab_spec(),
            final(self).vocab_spec() == final(r).vocab_view(),
            old(self).ready() ==> final(self).ready(),
    ;

    /// Tokenizes a token that stands for a text, or for a part of one, and
    /// returns the tokens with their positions in the original text.
    fn tokenize_to_tokens(&mut self, text: TokenRef<'_>) -> (r: Vec<Token>)
        requires
            old(self).ready(),
            can_be_cut(text@),
            positions_bounded(seq![text@]),
        ensures
            final(self).ready(),
            final(self).vocab_spec() == old(self).vocab_spec(),
            forall|other: Seq<char>| final(self).keeps_apart(other) == old(self).keeps_apart(other),
            forall|other: TokenView|
                #[trigger] final(self).tokens_of(other) == old(self).tokens_of(other),
            token_views(r@) == old(self).tokens_of(text@),
            positions_bounded(token_views(r@)),
            all_aligned(token_views(r@)),
            masks_repaired(token_views(r@)),
            follows(
                all_positions(token_views(r@)),
                text@.reference_offsets,
                text@.reference_offsets.len() as int,
                old(self).keeps_apart(text@.text),
            ),
    ;

    /// Tokenizes a text and returns the texts of its tokens.
    fn tokenize(&mut self, text: &str) -> (r: Vec<String>)
        requires
            old(self).ready(),
            text@.len() < u32::MAX,
        ensures
            final(self).ready(),
            final(self).vocab_spec() == old(self).vocab_spec(),
            forall|other: TokenView|
                #[trigger] final(self).tokens_of(other) == old(self).tokens_of(other),
            views_of(r@) == columns_of(
                unless_blank(text@, old(self).tokens_of(whole_text(text@))),
            ).tokens,
    {
        self.tokenize_with_offsets(text).tokens
    }

    /// Tokenizes a text and returns its tokens with their offsets,
    /// positions and masks. A text that holds nothing but whitespace has no
    /// tokens. Otherwise the whole text, with the positions of its
    /// characters counted from zero, is tokenized.
    fn tokenize_with_offsets(&mut self, text: &str) -> (r: TokensWithOffsets)
        requires
            old(self).ready(),
            text@.len() < u32::MAX,
        ensures
            final(self).ready(),
            final(self).vocab_spec() == old(self).vocab_spec(),
            forall|other: Seq<char>| final(self).keeps_apart(other) == old(self).keeps_apart(other),
            forall|other: TokenView|
                #[trigger] final(self).tokens_of(other) == old(self).tokens_of(other),
            r@ == columns_of(unless_blank(text@, old(self).tokens_of(whole_text(text@)))),
            is_blank(text@) ==> *final(self) == *old(self),
            is_laid_out(r@),
            forall|i: int, k: int|
                0 <= i < r@.reference_offsets.len() && 0 <= k < r@.reference_offsets[i].len()
                    ==> #[trigger] r@.reference_offsets[i][k] < text@.len(),
            in_order(r@.reference_offsets.flatten(), false),
            old(self).keeps_apart(text@) ==> in_order(r@.reference_offsets.flatten(), true),
            old(self).keeps_apart(text@) ==> spans_apart(r@.offsets),
            forall|i: int|
                0 <= i < r@.tokens.len() ==> (#[trigger] r@.tokens[i]).len()
                    == r@.reference_offsets[i].len(),
            forall|i: int, j: int|
                0 <= i && i + 1 == j && j < r@.masks.len() ==> !(#[trigger] r@.masks[i]
                    == Mask::Plain && #[trigger] r@.masks[j] == Mask::Continuation),
    {
        let chars = chars_of(text);
        if is_blank_text(&chars) {
            let empty = TokensWithOffsets {
                tokens: Vec::new(),
                offsets: Vec::new(),
                reference_offsets: Vec::new(),
                masks: Vec::new(),
            };
            proof {
                lemma_no_columns();
                assert(empty@.tokens =~= Seq::<Seq<char>>::empty());
                assert(empty@.reference_offsets =~= Seq::<Seq<OffsetSize>>::empty());
                assert(empty@ == TokensView::empty());
            }
            return empty;
        }
        let initial_offsets = initial_positions(chars.len() as OffsetSize);
        let initial_token = TokenRef::new(text, initial_offsets.as_slice());
        proof {
            let given = initial_token@;
            assert forall|a: int, k: int|
                0 <= a < 1 && 0 <= k < seq![given][a].reference_offsets.len() implies
                #[trigger] seq![given][a].reference_offsets[k] < u32::MAX by {}
        }
        let tokens = self.tokenize_to_tokens(initial_token);
        proof {
            lemma_columns_of_tokens(
                token_views(tokens@),
                text@.len(),
                old(self).keeps_apart(text@),
            );
            assert(initial_token@ == whole_text(text@));
        }
        tokens_to_columns(&tokens)
    }

    /// Tokenizes each text of a list.
    fn tokenize_list(&mut self, text_list: &[&str]) -> (r: Vec<Vec<String>>)
        requires
            old(self).ready(),
            forall|i: int|
                0 <= i < text_list@.len() ==> (#[trigger] text_list@[i])@.len() < u32::MAX,
        ensures
            final(self).ready(),
            final(self).vocab_spec() == old(self).vocab_spec(),
            forall|other: TokenView|
                #[trigger] final(self).tokens_of(other) == old(self).tokens_of(other),
            r@.len() == text_list@.len(),
            forall|i: int|
                0 <= i < r@.len() ==> views_of((#[trigger] r@[i])@) == columns_of(
                    unless_blank(text_list@[i]@, old(self).tokens_of(whole_text(text_list@[i]@))),
                ).tokens,
    {
        let mut all: Vec<Vec<String>> = Vec::new();
        let mut i: usize = 0;
        while i < text_list.len()
            invariant
                i <= text_list@.len(),
                self.ready(),
                self.vocab_spec() == old(self).vocab_spec(),
                forall|other: TokenView|
                    #[trigger] self.tokens_of(other) == old(self).tokens_of(other),
                forall|j: int|
                    0 <= j < text_list@.len() ==> (#[trigger] text_list@[j])@.len() < u32::MAX,
                all@.len() == i,
                forall|j: int|
                    0 <= j < all@.len() ==> views_of((#[trigger] all@[j])@) == columns_of(
                        unless_blank(
                            text_list@[j]@,
                            old(self).tokens_of(whole_text(text_list@[j]@)),
                        ),
                    ).tokens,
            decreases text_list@.len() - i,
        {
            all.push(self.tokenize(text_list[i]));
            i += 1;
        }
        all
    }

    /// Tokenizes each text of a list and returns the tokens of each with
    /// their offsets, positions and masks.
    fn tokenize_list_with_offsets(&mut self, text_list: &[&str]) -> (r: Vec<TokensWithOffsets>)
        requires
            old(self).ready(),
            forall|i: int|
                0 <= i < text_list@.len() ==> (#[trigger] text_list@[i])@.len() < u32::MAX,
        ensures
            final(self).ready(),
            final(self).vocab_spec() == old(self).vocab_spec(),
            forall|other: TokenView|
                #[trigger] final(self).tokens_of(other) == old(self).tokens_of(other),
            r@.len() == text_list@.len(),
            forall|i: int|
                0 <= i < r@.len() ==> (#[trigger] r@[i])@ == columns_of(
                    unless_blank(text_list@[i]@, old(self).tokens_of(whole_text(text_list@[i]@))),
                ),
            forall|i: int| 0 <= i < r@.len() ==> is_laid_out((#[trigger] r@[i])@),
    {
        let mut all: Vec<TokensWithOffsets> = Vec::new();
        let mut i: usize = 0;
        while i < text_list.len()
            invariant
                i <= text_list@.len(),
                self.ready(),
                self.vocab_spec() == old(self).vocab_spec(),
                forall|other: TokenView|
                    #[trigger] self.tokens_of(other) == old(self).tokens_of(other),
                forall|j: int|
                    0 <= j < text_list@.len() ==> (#[trigger] text_list@[j])@.len() < u32::MAX,
                all@.len() == i,
                forall|j: int|
                    0 <= j < all@.len() ==> (#[trigger] all@[j])@ == columns_of(
                        unless_blank(
                            text_list@[j]@,
                            old(self).tokens_of(whole_text(text_list@[j]@)),
                        ),
                    ),
                forall|j: int| 0 <= j < all@.len() ==> is_laid_out((#[trigger] all@[j])@),
            decreases text_list@.len() - i,
        {
            all.push(self.tokenize_with_offsets(text_list[i]));
            i += 1;
        }
        all
    }

    /// The ids of the given tokens. A token that the vocabulary does not
    /// hold has the id of the unknown token.
    fn convert_tokens_to_ids(&self, tokens: &Vec<String>) -> (r: Vec<i64>)
        requires
            self.vocab_spec().has_unknown(),
        ensures
            r@ == token_ids(self.vocab_spec(), views_of(tokens@)),
    {
        ids_of_tokens(self.vocab(), tokens)
    }

    /// Encodes a text, or a pair of texts: tokenizes each, looks up the ids
    /// of the tokens, removes the tokens that exceed `max_len` as the
    /// strategy says, and joins what is left into one input. Fails where
    /// the strategy cannot remove as many tokens as have to go, and where
    /// the two texts have more tokens than can be counted. A single text
    /// that is truncated longest-first or first-only never fails.
    fn encode(
        &mut self,
        text_1: &str,
        text_2: Option<&str>,
        max_len: usize,
        truncation_strategy: &TruncationStrategy,
        stride: usize,
    ) -> (r: Result<TokenizedInput, TokenizerError>)
        requires
            old(self).ready(),
            old(self).vocab_spec().has_unknown(),
            text_1@.len() < u32::MAX,
            text_2 matches Some(text) ==> text@.len() < u32::MAX,
        ensures
            final(self).ready(),
            final(self).vocab_spec() == old(self).vocab_spec(),
            forall|other: TokenView|
                #[trigger] final(self).tokens_of(other) == old(self).tokens_of(other),
            match r {
                Ok(input) => Some(input@) == texts_encoding(
                    old(self).vocab_spec(),
                    unless_blank(text_1@, old(self).tokens_of(whole_text(text_1@))),
                    optional_tokens(
                        text_2 is Some,
                        unless_blank(text_2->0@, old(self).tokens_of(whole_text(text_2->0@))),
                    ),
                    max_len as nat,
                    *truncation_strategy,
                    stride as nat,
                ),
                Err(e) => e is ValueError && texts_encoding(
                    old(self).vocab_spec(),
                    unless_blank(text_1@, old(self).tokens_of(whole_text(text_1@))),
                    optional_tokens(
                        text_2 is Some,
                        unless_blank(text_2->0@, old(self).tokens_of(whole_text(text_2->0@))),
                    ),
                    max_len as nat,
                    *truncation_strategy,
                    stride as nat,
                ) is None,
            },
            r matches Ok(input) ==> fits(input@, max_len as nat, stride as nat),
            text_2 is None && (*truncation_strategy == TruncationStrategy::LongestFirst
                || *truncation_strategy == TruncationStrategy::OnlyFirst) ==> r is Ok,
            text_2 is Some && *truncation_strategy == TruncationStrategy::LongestFirst ==> (r is Ok
                <==> unless_blank(text_1@, old(self).tokens_of(whole_text(text_1@))).len()
                + unless_blank(text_2->0@, old(self).tokens_of(whole_text(text_2->0@))).len()
                <= usize::MAX),
            is_blank(text_1@) && text_2 is None ==> (r matches Ok(input)
                && input@.token_ids.len() == 0),
    {
        let tokens_1 = self.tokenize_with_offsets(text_1);
        let tokens_2 = match text_2 {
            Some(text) => Some(self.tokenize_with_offsets(text)),
            None => None,
        };
        let ghost first = unless_blank(text_1@, old(self).tokens_of(whole_text(text_1@)));
        let ghost second = optional_tokens(
            text_2 is Some,
            unless_blank(text_2->0@, old(self).tokens_of(whole_text(text_2->0@))),
        );
        proof {
            lemma_columns_laid_out(first);
            if text_2 is Some {
                lemma_columns_laid_out(second->0);
            }
        }
        let len_2: usize = match &tokens_2 {
            Some(tokens) => tokens.tokens.len(),
            None => 0,
        };
        if tokens_1.tokens.len() > usize::MAX - len_2 {
            return Err(
                TokenizerError::ValueError(
                    "The two sequences hold more tokens than can be counted".to_owned(),
                ),
            );
        }
        proof {
            let first_ids = encoded_ids(self.vocab_spec(), tokens_1@);
            let second_ids = encoded_second(self.vocab_spec(), tokens_2);
            lemma_encoding_of(
                first_ids,
                second_ids,
                max_len as nat,
                *truncation_strategy,
                stride as nat,
            );
            lemma_overflow_without_stride(
                first_ids,
                second_ids,
                max_len as nat,
                *truncation_strategy,
            );
        }
        encode_tokens(self.vocab(), tokens_1, tokens_2, max_len, truncation_strategy, stride)
    }

    /// Encodes each text of a list on its own. Fails at the first text
    /// that cannot be encoded.
    fn encode_list(
        &mut self,
        text_list: &[&str],
        max_len: usize,
        truncation_strategy: &TruncationStrategy,
        stride: usize,
    ) -> (r: Result<Vec<TokenizedInput>, TokenizerError>)
        requires
            old(self).ready(),
            old(self).vocab_spec().has_unknown(),
            forall|i: int|
                0 <= i < text_list@.len() ==> (#[trigger] text_list@[i])@.len() < u32::MAX,
        ensures
            final(self).ready(),
            final(self).vocab_spec() == old(self).vocab_spec(),
            forall|other: TokenView|
                #[trigger] final(self).tokens_of(other) == old(self).tokens_of(other),
            r matches Ok(inputs) ==> inputs@.len() == text_list@.len() && forall|i: int|
                0 <= i < inputs@.len() ==> Some((#[trigger] inputs@[i])@) == texts_encoding(
                    old(self).vocab_spec(),
                    unless_blank(text_list@[i]@, old(self).tokens_of(whole_text(text_list@[i]@))),
                    None,
                    max_len as nat,
                    *truncation_strategy,
                    stride as nat,
                ),
            r matches Err(e) ==> e is ValueError && exists|i: int|
                0 <= i < text_list@.len() && texts_encoding(
                    old(self).vocab_spec(),
                    unless_blank(
                        (#[trigger] text_list@[i])@,
                        old(self).tokens_of(whole_text(text_list@[i]@)),
                    ),
                    None,
                    max_len as nat,
                    *truncation_strategy,
                    stride as nat,
                ) is None,
            *truncation_strategy == TruncationStrategy::LongestFirst || *truncation_strategy
                == TruncationStrategy::OnlyFirst ==> r is Ok,
    {
        let mut all: Vec<TokenizedInput> = Vec::new();
        let mut i: usize = 0;
        while i < text_list.len()
            invariant
                i <= text_list@.len(),
                self.ready(),
                self.vocab_spec() == old(self).vocab_spec(),
                self.vocab_spec().has_unknown(),
                forall|other: TokenView|
                    #[trigger] self.tokens_of(other) == old(self).tokens_of(other),
                forall|j: int|
                    0 <= j < text_list@.len() ==> (#[trigger] text_list@[j])@.len() < u32::MAX,
                all@.len() == i,
                forall|j: int|
                    0 <= j < all@.len() ==> Some((#[trigger] all@[j])@) == texts_encoding(
                        old(self).vocab_spec(),
                        unless_blank(
                            text_list@[j]@,
                            old(self).tokens_of(whole_text(text_list@[j]@)),
                        ),
                        None,
                        max_len as nat,
                        *truncation_strategy,
                        stride as nat,
                    ),
            decreases text_list@.len() - i,
        {
            match self.encode(text_list[i], None, max_len, truncation_strategy, stride) {
                Ok(input) => {
                    all.push(input);
                },
                Err(e) => {
                    return Err(e);
                },
            }
            i += 1;
        }
        Ok(all)
    }

    /// Encodes each pair of texts of a list. Fails at the first pair that
    /// cannot be encoded.
    fn encode_pair_list(
        &mut self,
        text_list: &[(&str, &str)],
        max_len: usize,
        truncation_strategy: &TruncationStrategy,
        stride: usize,
    ) -> (r: Result<Vec<TokenizedInput>, TokenizerError>)
        requires
            old(self).ready(),
            old(self).vocab_spec().has_unknown(),
            forall|i: int|
                0 <= i < text_list@.len() ==> (#[trigger] text_list@[i]).0@.len() < u32::MAX
                    && text_list@[i].1@.len() < u32::MAX,
        ensures
            final(self).ready(),
            final(self).vocab_spec() == old(self).vocab_spec(),
            forall|other: TokenView|
                #[trigger] final(self).tokens_of(other) == old(self).tokens_of(other),
            r matches Ok(inputs) ==> inputs@.len() == text_list@.len() && forall|i: int|
                0 <= i < inputs@.len() ==> Some((#[trigger] inputs@[i])@) == texts_encoding(
                    old(self).vocab_spec(),
                    unless_blank(
                        text_list@[i].0@,
                        old(self).tokens_of(whole_text(text_list@[i].0@)),
                    ),
                    Some(
                        unless_blank(
                            text_list@[i].1@,
                            old(self).tokens_of(whole_text(text_list@[i].1@)),
                        ),
                    ),
                    max_len as nat,
                    *truncation_strategy,
                    stride as nat,
                ),
            r matches Err(e) ==> e is ValueError && exists|i: int|
                0 <= i < text_list@.len() && texts_encoding(
                    old(self).vocab_spec(),
                    unless_blank(
                        (#[trigger] text_list@[i]).0@,
                        old(self).tokens_of(whole_text(text_list@[i].0@)),
                    ),
                    Some(
                        unless_blank(
                            text_list@[i].1@,
                            old(self).tokens_of(whole_text(text_list@[i].1@)),
                        ),
                    ),
                    max_len as nat,
                    *truncation_strategy,
                    stride as nat,
                ) is None,
    {
        let mut all: Vec<TokenizedInput> = Vec::new();
        let mut i: usize = 0;
        while i < text_list.len()
            invariant
                i <= text_list@.len(),
                self.ready(),
                self.vocab_spec() == old(self).vocab_spec(),
                self.vocab_spec().has_unknown(),
                forall|other: TokenView|
                    #[trigger] self.tokens_of(other) == old(self).tokens_of(other),
                forall|j: int|
                    0 <= j < text_list@.len() ==> (#[trigger] text_list@[j]).0@.len() < u32::MAX
                        && text_list@[j].1@.len() < u32::MAX,
                all@.len() == i,
                forall|j: int|
                    0 <= j < all@.len() ==> Some((#[trigger] all@[j])@) == texts_encoding(
                        old(self).vocab_spec(),
                        unless_blank(
                            text_list@[j].0@,
                            old(self).tokens_of(whole_text(text_list@[j].0@)),
                        ),
                        Some(
                            unless_blank(
                                text_list@[j].1@,
                                old(self).tokens_of(whole_text(text_list@[j].1@)),
                            ),
                        ),
                        max_len as nat,
                        *truncation_strategy,
                        stride as nat,
                    ),
            decreases text_list@.len() - i,
        {
            let pair = text_list[i];
            match self.encode(pair.0, Some(pair.1), max_len, truncation_strategy, stride) {
                Ok(input) => {
                    all.push(input);
                },
                Err(e) => {
                    return Err(e);
                },
            }
            i += 1;
        }
        Ok(all)
    }

    /// The tokens of the given ids; with `skip_special_tokens` the ids of
    /// special tokens are left out.
    fn decode_to_vec(&self, token_ids: &[i64], skip_special_tokens: bool) -> (r: Vec<String>)
        ensures
            views_of(r@) == decoded_tokens(self.vocab_spec(), token_ids@, skip_special_tokens),
    {
        tokens_of_ids(self.vocab(), token_ids, skip_special_tokens)
    }

    /// The text that the given ids stand for: their tokens turned into one
    /// text, from which the traces of tokenization are removed if asked for.
    fn decode(
        &self,
        token_ids: &[i64],
        skip_special_tokens: bool,
        clean_up_tokenization_spaces: bool,
    ) -> (r: String)
        ensures
            r@ == ({
                let text = self.tokens_string(
                    decoded_tokens(self.vocab_spec(), token_ids@, skip_special_tokens),
                );
                if clean_up_tokenization_spaces {
                    cleaned_up(text)
                } else {
                    text
                }
            }),
    {
        let tokens = self.decode_to_vec(token_ids, skip_special_tokens);
        let decoded_string = self.convert_tokens_to_string(tokens);
        if clean_up_tokenization_spaces {
            self.clean_up_tokenization(decoded_string)
        } else {
            decoded_string
        }
    }

    /// Turns a sequence of tokens into one text.
    fn convert_tokens_to_string(&self, tokens: Vec<String>) -> (r: String)
        ensures
            r@ == self.tokens_string(views_of(tokens@)),
    ;

    /// Removes the traces of tokenization from a text.
    fn clean_up_tokenization(&self, input_string: String) -> (r: String)
        ensures
            r@ == cleaned_up(input_string@),
    {
        clean_up(input_string.as_str())
    }

    /// The text of each sequence of ids of a list.
    fn decode_list(
        &self,
        token_ids_list: &[Vec<i64>],
        skip_special_tokens: bool,
        clean_up_tokenization_spaces: bool,
    ) -> (r: Vec<String>)
        ensures
            r@.len() == token_ids_list@.len(),
            forall|i: int|
                0 <= i < r@.len() ==> (#[trigger] r@[i])@ == ({
                    let text = self.tokens_string(
                        decoded_tokens(
                            self.vocab_spec(),
                            token_ids_list@[i]@,
                            skip_special_tokens,
                        ),
                    );
                    if clean_up_tokenization_spaces {
                        cleaned_up(text)
                    } else {
                        text
                    }
                }),
    {
        let mut all: Vec<String> = Vec::new();
        let mut i: usize = 0;
        while i < token_ids_list.len()
            invariant
                i <= token_ids_list@.len(),
                all@.len() == i,
                forall|j: int|
                    0 <= j < all@.len() ==> (#[trigger] all@[j])@ == ({
                        let text = self.tokens_string(
                            decoded_tokens(
                                self.vocab_spec(),
                                token_ids_list@[j]@,
                                skip_special_tokens,
                            ),
                        );
                        if clean_up_tokenization_spaces {
                            cleaned_up(text)
                        } else {
                            text
                        }
                    }),
            decreases token_ids_list@.len() - i,
        {
            all.push(
                self.decode(
                    token_ids_list[i].as_slice(),
                    skip_special_tokens,
                    clean_up_tokenization_spaces,
                ),
            );
            i += 1;
        }
        all
    }

    /// Joins a sequence, or a pair of sequences, into one input. The
    /// second sequence follows the first; the tokens of the first belong to
    /// segment zero and those of the second to segment one; no special
    /// token is added.
    fn build_input_with_special_tokens(
        &self,
        tokens_ids_with_offsets_1: TokenIdsWithOffsets,
        tokens_ids_with_offsets_2: Option<TokenIdsWithOffsets>,
    ) -> (r: TokenIdsWithSpecialTokens)
        ensures
            r@ == joined_input(
                tokens_ids_with_offsets_1@,
                match tokens_ids_with_offsets_2 {
                    Some(second) => Some(second@),
                    None => None,
                },
            ),
    {
        join_sequences(tokens_ids_with_offsets_1, tokens_ids_with_offsets_2)
    }

    /// Adds to the vocabulary those of the given tokens that it does not
    /// hold yet, as special tokens.
    fn add_tokens(&mut self, tokens: &[&str])
        requires
            old(self).vocab_spec().values.len() + tokens@.len() <= i64::MAX,
        ensures
            final(self).vocab_spec() == old(self).vocab_spec().with_tokens(str_views(tokens@)),
            old(self).ready() ==> final(self).ready(),
    {
        self.vocab_mut().add_tokens(tokens);
    }

    /// Adds the tokens `<extra_id_0>`, `<extra_id_1>` and so on to the
    /// vocabulary, as many as asked for, as special tokens.
    fn add_extra_ids(&mut self, num_extra_ids: i64)
        requires
            old(self).vocab_spec().values.len() + extra_id_tokens(num_extra_ids as int).len()
                <= i64::MAX,
        ensures
            final(self).vocab_spec() == old(self).vocab_spec().with_tokens(
                extra_id_tokens(num_extra_ids as int),
            ),
            old(self).ready() ==> final(self).ready(),
    {
        self.vocab_mut().add_extra_ids(num_extra_ids);
    }
}

/// Without a stride the overflow of an input consists of the removed tokens.
pub proof fn lemma_overflow_without_stride(
    first: TokenIdsView,
    second: Option<TokenIdsView>,
    max_len: nat,
    strategy: TruncationStrategy,
)
    ensures
        encoding_of(first, second, max_len, strategy, 0) matches Some(input)
            ==> input.overflowing_tokens.len() == input.num_truncated_tokens,
{
    let count = removal_count(total_len(first, second), max_len as int);
    if can_truncate(first, second, count, strategy) {
        lemma_truncated_removes_count(first, second, count, strategy, 0);
        if second is Some && strategy == TruncationStrategy::LongestFirst {
            lemma_longest_first_cut(first, second->0, count);
        }
    }
}

/// The token that stands for a whole text: the positions of its
/// characters count up from zero, its offset covers them all, and it is plain.
pub open spec fn whole_text(text: Seq<char>) -> TokenView {
    TokenView {
        text,
        offset: Offset { begin: 0, end: text.len() as u32 },
        reference_offsets: identity_positions(text.len()),
        mask: Mask::Plain,
    }
}

/// No tokens have empty columns.
pub proof fn lemma_no_columns()
    ensures
        columns_of(Seq::<TokenView>::empty()) == TokensView::empty(),
{
    let columns = columns_of(Seq::<TokenView>::empty());
    assert(columns.tokens =~= Seq::<Seq<char>>::empty());
    assert(columns.offsets =~= Seq::<Option<Offset>>::empty());
    assert(columns.reference_offsets =~= Seq::<Seq<OffsetSize>>::empty());
    assert(columns.masks =~= Seq::<Mask>::empty());
}

/// The tokens of a text: none where the text holds nothing but
/// whitespace, and the given ones otherwise.
pub open spec fn unless_blank(text: Seq<char>, tokens: Seq<TokenView>) -> Seq<TokenView> {
    if is_blank(text) {
        Seq::empty()
    } else {
        tokens
    }
}

/// The tokens of a second text, where there is one.
pub open spec fn optional_tokens(present: bool, tokens: Seq<TokenView>) -> Option<Seq<TokenView>> {
    if present {
        Some(tokens)
    } else {
        None
    }
}

/// Number of tokens of a text and of an optional second one.
pub open spec fn token_count(first: Seq<TokenView>, second: Option<Seq<TokenView>>) -> nat {
    first.len() + match second {
        Some(tokens) => tokens.len(),
        None => 0,
    }
}

/// The input that the tokens of a text, or of a pair of texts, are encoded
/// into: the ids of the tokens are looked up, the tokens that exceed
/// `max_len` are removed as the strategy says, and what is left is joined.
/// Nothing where the strategy cannot remove as many tokens as have to go,
/// and where there are more tokens than can be counted.
pub open spec fn texts_encoding(
    vocab: VocabView,
    first: Seq<TokenView>,
    second: Option<Seq<TokenView>>,
    max_len: nat,
    strategy: TruncationStrategy,
    stride: nat,
) -> Option<TokenizedInputView> {
    if token_count(first, second) > usize::MAX {
        None
    } else {
        encoding_of(
            encoded_ids(vocab, columns_of(first)),
            match second {
                Some(tokens) => Some(encoded_ids(vocab, columns_of(tokens))),
                None => None,
            },
            max_len,
            strategy,
            stride,
        )
    }
}

} // verus!
