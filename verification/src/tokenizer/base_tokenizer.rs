//! The token model: offsets, masks, owned and borrowed tokens.
use vstd::prelude::*;
use vstd::slice::slice_to_vec;
use crate::text::views_of;

verus! {

/// Primitive used to store positions in the original text.
pub type OffsetSize = u32;

/// Span of code-point positions that relates a token to the original text.
#[derive(Debug, PartialEq, Eq, Clone, Copy, Structural)]
pub struct Offset {
    pub begin: OffsetSize,
    pub end: OffsetSize,
}

impl Offset {
    /// An offset is valid when it spans at least one position.
    pub open spec fn is_valid(self) -> bool {
        self.end > self.begin
    }

    /// The offset itself when it is valid, nothing otherwise.
    pub open spec fn spec_into_option(self) -> Option<Offset> {
        if self.is_valid() {
            Some(self)
        } else {
            None
        }
    }

    /// Creates an offset from a begin and an end position.
    pub fn new(begin: OffsetSize, end: OffsetSize) -> (r: Offset)
        ensures
            r == (Offset { begin, end }),
    {
        Offset { begin, end }
    }

    /// Wraps a valid offset into an option; an empty or reversed span gives nothing.
    pub fn into_option(self) -> (r: Option<Offset>)
        ensures
            r == self.spec_into_option(),
    {
        if self.end > self.begin {
            Some(self)
        } else {
            None
        }
    }
}

/// Kind of a token.
#[allow(clippy::upper_case_acronyms)]
#[derive(Debug, PartialEq, Eq, Clone, Copy, Structural)]
pub enum Mask {
    /// A standalone token without a particular kind.
    Plain,
    /// Whitespace in any form.
    Whitespace,
    /// Punctuation in any form.
    Punctuation,
    /// A single Chinese, Japanese or Korean character.
    CJK,
    /// A special marker that is never split or merged.
    Special,
    /// The first piece of a run of sub-tokens.
    Begin,
    /// A piece that continues the run started by the token before it.
    Continuation,
    /// A piece of a run that is not finished yet.
    Unfinished,
    /// The token is out of vocabulary and decodes to the unknown token.
    Unknown,
}

impl Default for Mask {
    fn default() -> (r: Mask)
        ensures
            r == Mask::Plain,
    {
        Mask::Plain
    }
}

/// What a token is, whether it owns its text or borrows it.
pub struct TokenView {
    pub text: Seq<char>,
    pub offset: Offset,
    pub reference_offsets: Seq<OffsetSize>,
    pub mask: Mask,
}

impl TokenView {
    /// One original position is recorded for each character of the text.
    pub open spec fn is_aligned(self) -> bool {
        self.reference_offsets.len() == self.text.len()
    }
}

/// Access to the fields of a token, owned or borrowed.
pub trait TokenTrait {
    /// The token's fields as mathematical values.
    spec fn token_view(&self) -> TokenView;

    /// The offset of the token in the original text, when it is valid.
    fn offset(&self) -> (r: Option<Offset>)
        ensures
            r == self.token_view().offset.spec_into_option(),
    ;

    /// The token's mask.
    fn mask(&self) -> (r: Mask)
        ensures
            r == self.token_view().mask,
    ;

    /// The token's text.
    fn as_str(&self) -> (r: &str)
        ensures
            r@ == self.token_view().text,
    ;
}

/// Token that borrows its text and positions.
#[derive(Debug, PartialEq, Eq, Clone, Copy)]
pub struct TokenRef<'a> {
    /// Text of the token.
    pub text: &'a str,
    /// Start and end positions of the token.
    pub offset: Offset,
    /// Position in the original text of each character of `text`.
    pub reference_offsets: &'a [OffsetSize],
    /// Kind of the token.
    pub mask: Mask,
}

impl<'a> View for TokenRef<'a> {
    type V = TokenView;

    open spec fn view(&self) -> TokenView {
        TokenView {
            text: self.text@,
            offset: self.offset,
            reference_offsets: self.reference_offsets@,
            mask: self.mask,
        }
    }
}

impl<'a> TokenRef<'a> {
    /// Creates a token over a text and the positions of its characters. The
    /// offset runs from zero to the number of positions and the mask is `Plain`.
    pub fn new(text: &'a str, offsets: &'a [OffsetSize]) -> (r: TokenRef<'a>)
        requires
            offsets@.len() <= u32::MAX,
        ensures
            r@ == (TokenView {
                text: text@,
                offset: Offset { begin: 0, end: offsets@.len() as u32 },
                reference_offsets: offsets@,
                mask: Mask::Plain,
            }),
    {
        TokenRef {
            text,
            offset: Offset { begin: 0, end: offsets.len() as OffsetSize },
            reference_offsets: offsets,
            mask: Mask::Plain,
        }
    }

    /// Copies the borrowed text and positions into an owned token.
    pub fn to_owned(self) -> (r: Token)
        ensures
            r@ == self@,
    {
        Token {
            text: self.text.to_owned(),
            offset: self.offset,
            reference_offsets: slice_to_vec(self.reference_offsets),
            mask: self.mask,
        }
    }
}

impl<'a> TokenTrait for TokenRef<'a> {
    open spec fn token_view(&self) -> TokenView {
        self@
    }

    fn offset(&self) -> (r: Option<Offset>) {
        self.offset.into_option()
    }

    fn mask(&self) -> (r: Mask) {
        self.mask
    }

    fn as_str(&self) -> (r: &str) {
        self.text
    }
}

/// Token that owns its text and positions.
#[derive(Debug, PartialEq, Eq, Clone)]
pub struct Token {
    /// Text of the token.
    pub text: String,
    /// Start and end positions of the token.
    pub offset: Offset,
    /// Position in the original text of each character of `text`.
    pub reference_offsets: Vec<OffsetSize>,
    /// Kind of the token.
    pub mask: Mask,
}

impl View for Token {
    type V = TokenView;

    open spec fn view(&self) -> TokenView {
        TokenView {
            text: self.text@,
            offset: self.offset,
            reference_offsets: self.reference_offsets@,
            mask: self.mask,
        }
    }
}

/// The positions `0, 1, .., n - 1`.
pub open spec fn identity_positions(n: nat) -> Seq<OffsetSize> {
    Seq::new(n, |i: int| i as OffsetSize)
}

/// Builds the positions `0, 1, .., n - 1`.
pub fn initial_positions(n: OffsetSize) -> (r: Vec<OffsetSize>)
    ensures
        r@ == identity_positions(n as nat),
{
    let mut positions: Vec<OffsetSize> = Vec::new();
    let mut i: OffsetSize = 0;
    while i < n
        invariant
            i <= n,
            positions@ == identity_positions(i as nat),
        decreases n - i,
    {
        positions.push(i);
        i += 1;
        assert(positions@ =~= identity_positions(i as nat));
    }
    positions
}

impl Token {
    /// Creates a token that stands for a whole text: its positions count up
    /// from zero and its offset covers them all.
    pub fn new(text: String) -> (r: Token)
        requires
            text@.len() <= u32::MAX,
        ensures
            r@ == (TokenView {
                text: text@,
                offset: Offset { begin: 0, end: text@.len() as u32 },
                reference_offsets: identity_positions(text@.len()),
                mask: Mask::Plain,
            }),
    {
        let text_size: OffsetSize = text.as_str().unicode_len() as OffsetSize;
        Token {
            text,
            offset: Offset { begin: 0, end: text_size },
            reference_offsets: initial_positions(text_size),
            mask: Mask::Plain,
        }
    }

    /// Borrows the token's text and positions.
    pub fn as_ref(&self) -> (r: TokenRef<'_>)
        ensures
            r@ == self@,
    {
        TokenRef {
            text: self.text.as_str(),
            offset: self.offset,
            reference_offsets: self.reference_offsets.as_slice(),
            mask: self.mask,
        }
    }
}

impl TokenTrait for Token {
    open spec fn token_view(&self) -> TokenView {
        self@
    }

    fn offset(&self) -> (r: Option<Offset>) {
        self.offset.into_option()
    }

    fn mask(&self) -> (r: Mask) {
        self.mask
    }

    fn as_str(&self) -> (r: &str) {
        self.text.as_str()
    }
}

/// How a sequence pair that exceeds a maximum length is shortened.
#[derive(Debug, PartialEq, Eq, Clone, Copy, Structural)]
pub enum TruncationStrategy {
    /// Remove tokens one by one from whichever sequence is longer.
    LongestFirst,
    /// Remove tokens from the first sequence only.
    OnlyFirst,
    /// Remove tokens from the second sequence only.
    OnlySecond,
    /// Never remove a token; fail where one would have to go.
    DoNotTruncate,
}

/// An encoded sequence as mathematical values, one entry per token in each column.
pub struct TokenIdsView {
    pub ids: Seq<i64>,
    pub offsets: Seq<Option<Offset>>,
    pub reference_offsets: Seq<Seq<OffsetSize>>,
    pub masks: Seq<Mask>,
}

impl TokenIdsView {
    /// The offsets and the masks are either not used at all or hold one entry per id.
    pub open spec fn is_consistent(self) -> bool {
        &&& (self.offsets.len() == 0 || self.offsets.len() == self.ids.len())
        &&& (self.masks.len() == 0 || self.masks.len() == self.ids.len())
    }

    /// Every column holds one entry per id.
    pub open spec fn is_complete(self) -> bool {
        &&& self.offsets.len() == self.ids.len()
        &&& self.masks.len() == self.ids.len()
        &&& self.reference_offsets.len() == self.ids.len()
    }
}

/// Encoded sequence before special tokens are added: ids with their offsets,
/// positions and masks.
#[derive(Debug, PartialEq, Eq, Clone)]
pub struct TokenIdsWithOffsets {
    /// Token ids.
    pub ids: Vec<i64>,
    /// Offset of each token in the original text, where it has one.
    pub offsets: Vec<Option<Offset>>,
    /// Positions in the original text of the characters of each token.
    pub reference_offsets: Vec<Vec<OffsetSize>>,
    /// Kind of each token.
    pub masks: Vec<Mask>,
}

impl View for TokenIdsWithOffsets {
    type V = TokenIdsView;

    open spec fn view(&self) -> TokenIdsView {
        TokenIdsView {
            ids: self.ids@,
            offsets: self.offsets@,
            reference_offsets: self.reference_offsets.deep_view(),
            masks: self.masks@,
        }
    }
}

/// The masks of a sequence of tokens.
pub open spec fn masks_of<T: TokenTrait>(tokens: Seq<T>) -> Seq<Mask> {
    tokens.map_values(|t: T| t.token_view().mask)
}

/// Where the run that began at `begin` ends, scanning from `from`: at the
/// first token behind `begin` that is no continuation, or at the end of
/// the tokens.
pub open spec fn group_end(masks: Seq<Mask>, begin: int, from: int) -> int
    decreases masks.len() - from,
{
    if from >= masks.len() {
        masks.len() as int
    } else if from > begin && masks[from] != Mask::Continuation {
        from
    } else {
        group_end(masks, begin, from + 1)
    }
}

/// Walks over tokens run by run: a run is a token together with the
/// continuation tokens that follow it.
pub struct ConsolidatedTokenIterator<'a, T: TokenTrait> {
    /// The tokens that are walked over.
    pub tokens: &'a [T],
    /// Where the run begins that is handed out next.
    pub begin: usize,
    /// How far the tokens have been looked at.
    pub cursor: usize,
}

impl<'a, T: TokenTrait> ConsolidatedTokenIterator<'a, T> {
    /// The cursor is not behind the begin of the run, and it is among the
    /// tokens or at their end.
    pub open spec fn wf(&self) -> bool {
        self.begin <= self.cursor <= self.tokens@.len()
    }

    /// The run that is handed out next, as the indices at which it begins
    /// and ends; nothing when the walk is over.
    pub open spec fn next_group(&self) -> Option<(int, int)> {
        let end = group_end(masks_of(self.tokens@), self.begin as int, self.cursor as int);
        if self.begin < end {
            Some((self.begin as int, end))
        } else {
            None
        }
    }

    /// Starts a walk over the given tokens.
    pub fn new(tokens: &'a [T]) -> (r: Self)
        ensures
            r.wf(),
            r.tokens@ == tokens@,
            r.begin == 0,
            r.cursor == 0,
    {
        ConsolidatedTokenIterator { tokens, begin: 0, cursor: 0 }
    }

    /// Hands out the next run: the tokens from the begin of the run up to
    /// the next token that is no continuation. After the last run there is
    /// nothing more. The tokens are handed out as they stand, without a copy.
    pub fn next(&mut self) -> (r: Option<&'a [T]>)
        requires
            old(self).wf(),
        ensures
            final(self).wf(),
            final(self).tokens@ == old(self).tokens@,
            match old(self).next_group() {
                Some(group) => {
                    &&& r matches Some(run)
                    &&& run@ == old(self).tokens@.subrange(group.0, group.1)
                    &&& final(self).begin == group.1
                    &&& final(self).cursor == if group.1 < old(self).tokens@.len() {
                        group.1 + 1
                    } else {
                        group.1
                    }
                },
                None => r is None && final(self).begin == old(self).begin,
            },
    {
        let ghost masks = masks_of(self.tokens@);
        let ghost begin = self.begin as int;
        let ghost start = self.cursor as int;
        while self.cursor < self.tokens.len()
            invariant
                self.wf(),
                self.tokens@ == old(self).tokens@,
                self.begin == begin,
                start <= self.cursor,
                masks == masks_of(self.tokens@),
                begin == old(self).begin,
                start == old(self).cursor,
                group_end(masks, begin, self.cursor as int) == group_end(masks, begin, start),
            decreases self.tokens@.len() - self.cursor,
        {
            let sub_token = &self.tokens[self.cursor];
            assert(masks[self.cursor as int] == sub_token.token_view().mask);
            let continues = match sub_token.mask() {
                Mask::Continuation => true,
                _ => false,
            };
            if !continues && self.cursor > self.begin {
                let sub_tokens = vstd::slice::slice_subrange(self.tokens, self.begin, self.cursor);
                self.begin = self.cursor;
                self.cursor += 1;
                return Some(sub_tokens);
            }
            self.cursor += 1;
        }
        if self.begin < self.cursor {
            let sub_tokens = vstd::slice::slice_subrange(self.tokens, self.begin, self.cursor);
            self.begin = self.cursor;
            Some(sub_tokens)
        } else {
            None
        }
    }
}

/// Collections of tokens that can be walked over run by run.
pub trait ConsolidatableTokens<T: TokenTrait> {
    /// The tokens of the collection.
    spec fn tokens_view(&self) -> Seq<T>;

    /// Starts a walk over the tokens run by run.
    fn iter_consolidate_tokens(&self) -> (r: ConsolidatedTokenIterator<'_, T>)
        ensures
            r.wf(),
            r.tokens@ == self.tokens_view(),
            r.begin == 0,
            r.cursor == 0,
    ;
}

impl ConsolidatableTokens<Token> for Vec<Token> {
    open spec fn tokens_view(&self) -> Seq<Token> {
        self@
    }

    fn iter_consolidate_tokens(&self) -> (r: ConsolidatedTokenIterator<'_, Token>) {
        ConsolidatedTokenIterator::new(self.as_slice())
    }
}

impl<'a> ConsolidatableTokens<TokenRef<'a>> for Vec<TokenRef<'a>> {
    open spec fn tokens_view(&self) -> Seq<TokenRef<'a>> {
        self@
    }

    fn iter_consolidate_tokens(&self) -> (r: ConsolidatedTokenIterator<'_, TokenRef<'a>>) {
        ConsolidatedTokenIterator::new(self.as_slice())
    }
}

/// A tokenized text as mathematical values, one entry per token in each column.
pub struct TokensView {
    pub tokens: Seq<Seq<char>>,
    pub offsets: Seq<Option<Offset>>,
    pub reference_offsets: Seq<Seq<OffsetSize>>,
    pub masks: Seq<Mask>,
}

/// Tokenized text before encoding: the texts of the tokens with their
/// offsets, positions and masks.
#[derive(Debug, Clone)]
pub struct TokensWithOffsets {
    /// Texts of the tokens.
    pub tokens: Vec<String>,
    /// Offset of each token in the original text, where it has one.
    pub offsets: Vec<Option<Offset>>,
    /// Positions in the original text of the characters of each token.
    pub reference_offsets: Vec<Vec<OffsetSize>>,
    /// Kind of each token.
    pub masks: Vec<Mask>,
}

impl View for TokensWithOffsets {
    type V = TokensView;

    open spec fn view(&self) -> TokensView {
        TokensView {
            tokens: views_of(self.tokens@),
            offsets: self.offsets@,
            reference_offsets: self.reference_offsets.deep_view(),
            masks: self.masks@,
        }
    }
}

/// The offset of a token with the given positions: from the first to just
/// after the last; none without positions.
pub open spec fn offset_of_positions(positions: Seq<OffsetSize>) -> Option<Offset> {
    if positions.len() > 0 {
        Some(Offset { begin: positions.first(), end: (positions.last() + 1) as OffsetSize })
    } else {
        None
    }
}

/// The columns of a sequence of tokens.
pub open spec fn columns_of(tokens: Seq<TokenView>) -> TokensView {
    TokensView {
        tokens: Seq::new(tokens.len(), |i: int| tokens[i].text),
        offsets: Seq::new(tokens.len(), |i: int| offset_of_positions(tokens[i].reference_offsets)),
        reference_offsets: Seq::new(tokens.len(), |i: int| tokens[i].reference_offsets),
        masks: Seq::new(tokens.len(), |i: int| tokens[i].mask),
    }
}

/// Whether every position of every token is below the largest position.
pub open spec fn positions_bounded(tokens: Seq<TokenView>) -> bool {
    forall|i: int, k: int|
        0 <= i < tokens.len() && 0 <= k < tokens[i].reference_offsets.len()
            ==> #[trigger] tokens[i].reference_offsets[k] < u32::MAX
}

/// Lays tokens out in columns: texts, offsets, positions and masks. The
/// offset of a token runs from its first position to just after its last.
pub fn tokens_to_columns(tokens: &Vec<Token>) -> (r: TokensWithOffsets)
    requires
        positions_bounded(tokens@.map_values(|t: Token| t@)),
    ensures
        r@ == columns_of(tokens@.map_values(|t: Token| t@)),
{
    let ghost views = tokens@.map_values(|t: Token| t@);
    let mut texts: Vec<String> = Vec::new();
    let mut offsets: Vec<Option<Offset>> = Vec::new();
    let mut original_positions: Vec<Vec<OffsetSize>> = Vec::new();
    let mut masks: Vec<Mask> = Vec::new();
    let mut i: usize = 0;
    while i < tokens.len()
        invariant
            i <= tokens@.len(),
            views == tokens@.map_values(|t: Token| t@),
            positions_bounded(views),
            texts@.len() == i,
            original_positions@.len() == i,
            views_of(texts@) == columns_of(views).tokens.take(i as int),
            offsets@ == columns_of(views).offsets.take(i as int),
            original_positions.deep_view() == columns_of(views).reference_offsets.take(i as int),
            masks@ == columns_of(views).masks.take(i as int),
        decreases tokens@.len() - i,
    {
        let token = &tokens[i];
        assert(views[i as int] == token@);
        let count = token.reference_offsets.len();
        let ghost texts_before = views_of(texts@);
        let ghost positions_before = original_positions.deep_view();
        texts.push(token.text.clone());
        if count > 0 {
            assert(views[i as int].reference_offsets[count - 1] < u32::MAX);
            offsets.push(
                Some(
                    Offset {
                        begin: token.reference_offsets[0],
                        end: token.reference_offsets[count - 1] + 1,
                    },
                ),
            );
        } else {
            offsets.push(None);
        }
        original_positions.push(slice_to_vec(token.reference_offsets.as_slice()));
        masks.push(token.mask);
        i += 1;
        assert(views_of(texts@) =~= texts_before.push(token@.text));
        assert(columns_of(views).tokens.take(i as int) =~= columns_of(views).tokens.take(
            i - 1,
        ).push(token@.text));
        assert(original_positions@.last().deep_view() =~= token@.reference_offsets);
        assert(original_positions.deep_view() =~~= positions_before.push(
            token@.reference_offsets,
        ));
        assert(columns_of(views).reference_offsets.take(i as int) =~= columns_of(
            views,
        ).reference_offsets.take(i - 1).push(token@.reference_offsets));
        assert(views_of(texts@) =~= columns_of(views).tokens.take(i as int));
        assert(offsets@ =~= columns_of(views).offsets.take(i as int));
        assert(original_positions.deep_view() =~= columns_of(views).reference_offsets.take(
            i as int,
        ));
        assert(masks@ =~= columns_of(views).masks.take(i as int));
    }
    let ghost all = columns_of(views);
    assert(all.tokens.take(i as int) =~= all.tokens);
    assert(all.offsets.take(i as int) =~= all.offsets);
    assert(all.reference_offsets.take(i as int) =~= all.reference_offsets);
    assert(all.masks.take(i as int) =~= all.masks);
    TokensWithOffsets { tokens: texts, offsets, reference_offsets: original_positions, masks }
}

/// An encoded input with its special tokens as mathematical values.
pub struct SpecialTokensView {
    pub token_ids: Seq<i64>,
    pub segment_ids: Seq<i8>,
    pub special_tokens_mask: Seq<i8>,
    pub token_offsets: Seq<Option<Offset>>,
    pub reference_offsets: Seq<Seq<OffsetSize>>,
    pub mask: Seq<Mask>,
}

/// Encoded input after special tokens were added and before truncation.
#[derive(Debug, Clone)]
pub struct TokenIdsWithSpecialTokens {
    /// Token ids.
    pub token_ids: Vec<i64>,
    /// Number of the sequence that each token belongs to.
    pub segment_ids: Vec<i8>,
    /// One for each special token that was added, zero for the others.
    pub special_tokens_mask: Vec<i8>,
    /// Offset of each token in the original text, where it has one.
    pub token_offsets: Vec<Option<Offset>>,
    /// Positions in the original text of the characters of each token.
    pub reference_offsets: Vec<Vec<OffsetSize>>,
    /// Kind of each token.
    pub mask: Vec<Mask>,
}

impl View for TokenIdsWithSpecialTokens {
    type V = SpecialTokensView;

    open spec fn view(&self) -> SpecialTokensView {
        SpecialTokensView {
            token_ids: self.token_ids@,
            segment_ids: self.segment_ids@,
            special_tokens_mask: self.special_tokens_mask@,
            token_offsets: self.token_offsets@,
            reference_offsets: self.reference_offsets.deep_view(),
            mask: self.mask@,
        }
    }
}

/// An encoded input as mathematical values.
pub struct TokenizedInputView {
    pub token_ids: Seq<i64>,
    pub segment_ids: Seq<i8>,
    pub special_tokens_mask: Seq<i8>,
    pub overflowing_tokens: Seq<i64>,
    pub num_truncated_tokens: nat,
    pub token_offsets: Seq<Option<Offset>>,
    pub reference_offsets: Seq<Seq<OffsetSize>>,
    pub mask: Seq<Mask>,
}

/// The outcome of encoding: what a model is given.
#[derive(Debug, PartialEq, Eq, Clone)]
pub struct TokenizedInput {
    /// Token ids.
    pub token_ids: Vec<i64>,
    /// Number of the sequence that each token belongs to.
    pub segment_ids: Vec<i8>,
    /// One for each special token that was added, zero for the others.
    pub special_tokens_mask: Vec<i8>,
    /// The tokens that truncation removed, preceded by a window of the tokens that stay.
    pub overflowing_tokens: Vec<i64>,
    /// Number of tokens that truncation removed.
    pub num_truncated_tokens: usize,
    /// Offset of each token in the original text, where it has one.
    pub token_offsets: Vec<Option<Offset>>,
    /// Positions in the original text of the characters of each token.
    pub reference_offsets: Vec<Vec<OffsetSize>>,
    /// Kind of each token.
    pub mask: Vec<Mask>,
}

impl View for TokenizedInput {
    type V = TokenizedInputView;

    open spec fn view(&self) -> TokenizedInputView {
        TokenizedInputView {
            token_ids: self.token_ids@,
            segment_ids: self.segment_ids@,
            special_tokens_mask: self.special_tokens_mask@,
            overflowing_tokens: self.overflowing_tokens@,
            num_truncated_tokens: self.num_truncated_tokens as nat,
            token_offsets: self.token_offsets@,
            reference_offsets: self.reference_offsets.deep_view(),
            mask: self.mask@,
        }
    }
}

impl TokenizedInputView {
    /// Every column holds one entry per token.
    pub open spec fn is_complete(self) -> bool {
        &&& self.segment_ids.len() == self.token_ids.len()
        &&& self.special_tokens_mask.len() == self.token_ids.len()
        &&& self.token_offsets.len() == self.token_ids.len()
        &&& self.reference_offsets.len() == self.token_ids.len()
        &&& self.mask.len() == self.token_ids.len()
    }
}

/// A sequence that holds the same value `count` times.
pub open spec fn repeated(value: i8, count: nat) -> Seq<i8> {
    Seq::new(count, |i: int| value)
}

/// The input that a sequence, or a pair of sequences, is joined into: the
/// second sequence follows the first, the tokens of the first belong to
/// segment zero and those of the second to segment one, and no token is
/// marked as an added special token.
pub open spec fn joined_input(
    first: TokenIdsView,
    second: Option<TokenIdsView>,
) -> SpecialTokensView {
    match second {
        Some(second) => SpecialTokensView {
            token_ids: first.ids + second.ids,
            segment_ids: repeated(0, first.ids.len()) + repeated(1, second.ids.len()),
            special_tokens_mask: repeated(0, first.ids.len()) + repeated(0, second.ids.len()),
            token_offsets: first.offsets + second.offsets,
            reference_offsets: first.reference_offsets + second.reference_offsets,
            mask: first.masks + second.masks,
        },
        None => SpecialTokensView {
            token_ids: first.ids,
            segment_ids: repeated(0, first.ids.len()),
            special_tokens_mask: repeated(0, first.ids.len()),
            token_offsets: first.offsets,
            reference_offsets: first.reference_offsets,
            mask: first.masks,
        },
    }
}

/// A vector that holds the same value `count` times.
pub fn filled(value: i8, count: usize) -> (r: Vec<i8>)
    ensures
        r@ == repeated(value, count as nat),
{
    let mut out: Vec<i8> = Vec::new();
    let mut i: usize = 0;
    while i < count
        invariant
            i <= count,
            out@ == repeated(value, i as nat),
        decreases count - i,
    {
        out.push(value);
        i += 1;
        assert(out@ =~= repeated(value, i as nat));
    }
    out
}

/// Joins a sequence, or a pair of sequences, into one input. The second
/// sequence follows the first; the tokens of the first belong to segment
/// zero and those of the second to segment one; no special token is added.
pub fn join_sequences(
    tokens_ids_with_offsets_1: TokenIdsWithOffsets,
    tokens_ids_with_offsets_2: Option<TokenIdsWithOffsets>,
) -> (r: TokenIdsWithSpecialTokens)
    ensures
        r@ == joined_input(
            tokens_ids_with_offsets_1@,
            match tokens_ids_with_offsets_2 {
                Some(second) => Some(second@),
                None => None,
            },
        ),
{
    let mut first = tokens_ids_with_offsets_1;
    let mut token_segment_ids = filled(0, first.ids.len());
    let mut special_tokens_mask = filled(0, first.ids.len());
    match tokens_ids_with_offsets_2 {
        Some(second_value) => {
            let mut second = second_value;
            let ghost first_positions = first.reference_offsets.deep_view();
            let ghost second_positions = second.reference_offsets.deep_view();
            let length = second.ids.len();
            let mut ones = filled(1, length);
            let mut zeros = filled(0, length);
            token_segment_ids.append(&mut ones);
            special_tokens_mask.append(&mut zeros);
            first.ids.append(&mut second.ids);
            first.offsets.append(&mut second.offsets);
            first.reference_offsets.append(&mut second.reference_offsets);
            first.masks.append(&mut second.masks);
            assert(first.reference_offsets.deep_view() =~= first_positions + second_positions);
        },
        None => {},
    }
    TokenIdsWithSpecialTokens {
        token_ids: first.ids,
        segment_ids: token_segment_ids,
        special_tokens_mask,
        token_offsets: first.offsets,
        reference_offsets: first.reference_offsets,
        mask: first.masks,
    }
}

} // verus!
