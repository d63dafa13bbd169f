//! The GPT2 tokenizer: cuts a text at the special tokens, optionally folds
//! it to lower case, segments it into pre-tokens and merges each pre-token
//! at the level of bytes.
use vstd::prelude::*;
use vstd::string::StringSliceAdditionalSpecFns;
use vstd::utf8::{decode_utf8, encode_utf8, is_ascii_chars, valid_utf8};
use crate::error::TokenizerError;
use crate::text::{
    chars_of, from_utf8_lossy, is_whitespace_char, join_with, joined, lemma_joined_flatten,
    replace_all, replaced, trim, trim_end, trimmed_end_len, trimmed_start_len, utf8_lossy,
};
use crate::tokenizer::base_tokenizer::{
    Mask, OffsetSize, positions_bounded, Token, TokenRef, TokenView,
};
use crate::tokenizer::cache::{BpeCache, LockState};
use crate::tokenizer::constants::{
    byte_to_unicode, char_to_byte, lemma_byte_round_trip, unicode_to_byte,
};
use crate::tokenizer::encoding::Tokenizer;
use crate::tokenizer::pattern::{Pattern, pattern_accepted};
use crate::tokenizer::merging::{
    all_aligned, bpe_pieces, fix_mask, lemma_append_tokens, lemma_bpe_pieces, merged_tokens,
    project_bytes, projected_text, repaired, repaired_mask, split_on_bpe_pairs, token_views,
};
use crate::tokenizer::positions::{
    all_positions, follows, frontier, lemma_all_positions_concat, lemma_all_positions_single,
    lemma_follows_through, lemma_follows_to_end, lemma_lowercased_follows, lemma_masks_only,
    lemma_part_done, lemma_part_of_text, lemma_pieces_of_part, lemma_single_bounded,
    lemma_stretch_merged, positions_of, spans_of_pieces, stretches_of,
};
use crate::tokenizer::pre_tokenization::{
    can_be_cut, lemma_lowercased_upto, segmented_spans, lowercase, lowercased, spanning_offset,
    spans_ordered, SpanView, special_separators, split_on_regex_with_lookahead,
    split_on_special_tokens, sub_tokens, substr_spans, token_ref_views,
};
use crate::vocab::base_vocab::{Vocab, VocabView};
use crate::vocab::bpe_vocab::{BpePairVocab, PiecePair};
use crate::vocab::gpt2_vocab::Gpt2Vocab;

verus! {

/// Whitespace followed by the first character of a word.
pub const PATTERN_LOOKAHEAD: &'static str = r"\s+\S";

/// A contraction; or letters, digits, or other characters that are neither,
/// each with an optional space in front; or whitespace.
pub const PATTERN_TOKENIZATION: &'static str =
    r"'s|'t|'re|'ve|'m|'ll|'d| ?\p{L}+| ?\p{N}+| ?[^\s\p{L}\p{N}]+|\s+";

/// The GPT2 tokenizer.
pub struct Gpt2Tokenizer {
    pub vocab: Gpt2Vocab,
    pub bpe_ranks: BpePairVocab,
    pub cache: BpeCache,
    pub pattern_lookahead: Pattern,
    pub pattern_tokenization: Pattern,
    pub lower_case: bool,
}

/// What decides the tokens that a tokenizer makes of a text: its
/// vocabulary, its merge table, whether it folds to lower case, and the
/// sources of its two patterns. The cache is no part of it.
pub struct TokenizerView {
    pub vocab: VocabView,
    pub ranks: Map<PiecePair, i64>,
    pub lower_case: bool,
    pub lookahead: Seq<char>,
    pub tokenization: Seq<char>,
}

impl View for Gpt2Tokenizer {
    type V = TokenizerView;

    open spec fn view(&self) -> TokenizerView {
        TokenizerView {
            vocab: self.vocab.vocab_view(),
            ranks: self.bpe_ranks@,
            lower_case: self.lower_case,
            lookahead: self.pattern_lookahead@,
            tokenization: self.pattern_tokenization@,
        }
    }
}

/// The bytes that a character of a decoded text stands for: the byte of the
/// byte-level alphabet where it stands for one, its own encoding otherwise.
pub open spec fn bytes_of_char(c: char) -> Seq<u8> {
    match unicode_to_byte(c) {
        Some(b) => seq![b],
        None => encode_utf8(seq![c]),
    }
}

/// The bytes that a text over the byte-level alphabet stands for.
pub open spec fn unprojected(chars: Seq<char>) -> Seq<u8>
    decreases chars.len(),
{
    if chars.len() == 0 {
        seq![]
    } else {
        unprojected(chars.drop_last()) + bytes_of_char(chars.last())
    }
}

/// The text that bytes are read as: the text that they encode where they
/// are valid UTF-8, and otherwise that text with a replacement character
/// for every stretch that encodes nothing.
pub open spec fn text_of_bytes(bytes: Seq<u8>) -> Seq<char> {
    if valid_utf8(bytes) {
        decode_utf8(bytes)
    } else {
        utf8_lossy(bytes)
    }
}

/// The text that tokens of the byte-level alphabet stand for: the tokens
/// one after another, without the marks of continued words and without
/// whitespace at either end, turned back into bytes and read as UTF-8.
pub open spec fn byte_level_string(tokens: Seq<Seq<char>>) -> Seq<char> {
    text_of_bytes(unprojected(trim(replaced(joined(tokens, ""@), " ##"@, ""@))))
}

/// The bytes that a text over the byte-level alphabet stands for.
pub fn unproject(chars: &Vec<char>, from: usize, to: usize) -> (r: Vec<u8>)
    requires
        from <= to <= chars@.len(),
    ensures
        r@ == unprojected(chars@.subrange(from as int, to as int)),
{
    let mut bytes: Vec<u8> = Vec::new();
    let mut i: usize = from;
    assert(chars@.subrange(from as int, from as int) =~= Seq::<char>::empty());
    while i < to
        invariant
            from <= i <= to <= chars@.len(),
            bytes@ == unprojected(chars@.subrange(from as int, i as int)),
        decreases to - i,
    {
        let c = chars[i];
        let ghost before = bytes@;
        assert(chars@.subrange(from as int, i + 1).drop_last() =~= chars@.subrange(
            from as int,
            i as int,
        ));
        assert(chars@.subrange(from as int, i + 1).last() == c);
        match char_to_byte(c) {
            Some(b) => {
                bytes.push(b);
                assert(bytes@ =~= before + seq![b]);
            },
            None => {
                let mut own = String::new();
                own.push(c);
                assert(own@ =~= seq![c]);
                let encoding = own.as_str().as_bytes();
                let mut k: usize = 0;
                while k < encoding.len()
                    invariant
                        k <= encoding@.len(),
                        bytes@ == before + encoding@.take(k as int),
                    decreases encoding@.len() - k,
                {
                    bytes.push(encoding[k]);
                    k += 1;
                    assert(bytes@ =~= before + encoding@.take(k as int));
                }
                assert(encoding@.take(k as int) =~= encoding@);
            },
        }
        i += 1;
    }
    bytes
}

impl Gpt2Tokenizer {
    /// Builds a tokenizer from a vocabulary and a merge table, with an
    /// empty cache and the two patterns of the pre-tokenizer. Succeeds
    /// exactly where the pattern compiler accepts both patterns.
    pub fn from_existing_vocab_and_merges(
        vocab: Gpt2Vocab,
        merges: BpePairVocab,
        lower_case: bool,
    ) -> (r: Result<Gpt2Tokenizer, TokenizerError>)
        ensures
            r is Ok <==> pattern_accepted(PATTERN_LOOKAHEAD@) && pattern_accepted(
                PATTERN_TOKENIZATION@,
            ),
            r matches Ok(tokenizer) ==> {
                &&& tokenizer.vocab == vocab
                &&& tokenizer.bpe_ranks == merges
                &&& tokenizer.lower_case == lower_case
                &&& tokenizer.pattern_lookahead@ == PATTERN_LOOKAHEAD@
                &&& tokenizer.pattern_tokenization@ == PATTERN_TOKENIZATION@
                &&& tokenizer.cache.lock == LockState::Free
                &&& tokenizer.cache.entries@.len() == 0
                &&& tokenizer.ready()
            },
            r matches Err(e) ==> e is ValueError,
    {
        let cache = BpeCache::new();
        let pattern_lookahead = match Pattern::compile(PATTERN_LOOKAHEAD) {
            Some(pattern) => pattern,
            None => {
                return Err(
                    TokenizerError::ValueError(
                        "The lookahead pattern could not be compiled".to_owned(),
                    ),
                );
            },
        };
        let pattern_tokenization = match Pattern::compile(PATTERN_TOKENIZATION) {
            Some(pattern) => pattern,
            None => {
                return Err(
                    TokenizerError::ValueError(
                        "The tokenization pattern could not be compiled".to_owned(),
                    ),
                );
            },
        };
        Ok(
            Gpt2Tokenizer {
                vocab,
                bpe_ranks: merges,
                cache,
                pattern_lookahead,
                pattern_tokenization,
                lower_case,
            },
        )
    }

    /// Tokenizes the parts into which a text was cut at the special tokens:
    /// a special token stays as it is, and every other part is tokenized.
    fn tokenize_parts(
        &mut self,
        parts: &Vec<TokenRef<'_>>,
        Ghost(parent): Ghost<TokenView>,
        Ghost(spans): Ghost<Seq<SpanView>>,
    ) -> (r: Vec<Token>)
        requires
            old(self).ready(),
            can_be_cut(parent),
            positions_bounded(seq![parent]),
            spans_ordered(spans, parent.text.len() as int),
            token_ref_views(parts@) == sub_tokens(parent, spans),
        ensures
            final(self).ready(),
            final(self).vocab == old(self).vocab,
            final(self).bpe_ranks == old(self).bpe_ranks,
            final(self).lower_case == old(self).lower_case,
            positions_bounded(token_views(r@)),
            all_aligned(token_views(r@)),
            follows(
                all_positions(token_views(r@)),
                parent.reference_offsets,
                parent.reference_offsets.len() as int,
                !old(self).lower_case && is_ascii_chars(parent.text),
            ),
            final(self)@ == old(self)@,
            token_views(r@) == parts_tokens(token_ref_views(parts@), old(self)@),
    {
        let ghost source = parent.reference_offsets;
        let ghost apart = !self.lower_case && is_ascii_chars(parent.text);
        let ghost rules = self@;
        let mut output: Vec<Token> = Vec::new();
        let mut i: usize = 0;
        proof {
            assert(segments_of_parts(token_ref_views(parts@).take(0), rules) =~= Seq::<
                Seq<TokenView>,
            >::empty());
            assert(token_views(output@) =~= Seq::<TokenView>::empty());
            assert(positions_of(Seq::<TokenView>::empty()) =~= Seq::<Seq<OffsetSize>>::empty());
            assert(token_ref_views(parts@).len() == parts@.len());
            assert(sub_tokens(parent, spans).len() == spans.len());
        }
        while i < parts.len()
            invariant
                i <= parts@.len(),
                self.ready(),
                self.vocab == old(self).vocab,
                self.bpe_ranks == old(self).bpe_ranks,
                self.lower_case == old(self).lower_case,
                can_be_cut(parent),
                positions_bounded(seq![parent]),
                source == parent.reference_offsets,
                apart == (!self.lower_case && is_ascii_chars(parent.text)),
                spans.len() == parts@.len(),
                spans_ordered(spans, parent.text.len() as int),
                token_ref_views(parts@) == sub_tokens(parent, spans),
                positions_bounded(token_views(output@)),
                all_aligned(token_views(output@)),
                follows(
                    all_positions(token_views(output@)),
                    source,
                    frontier(spans, i as int),
                    apart,
                ),
                rules == self@,
                token_views(output@) == parts_tokens(token_ref_views(parts@).take(i as int), rules),
            decreases parts@.len() - i,
        {
            let mut token = parts[i].to_owned();
            let ghost part = token@;
            let ghost before = output@;
            proof {
                assert(token_ref_views(parts@)[i as int] == part);
                lemma_part_of_text(parent, spans, i as int);
            }
            let special = match token.mask {
                Mask::Special => true,
                Mask::Unknown => true,
                _ => false,
            };
            let mut added = if !special {
                self.tokenize_part(&mut token)
            } else {
                let mut single: Vec<Token> = Vec::new();
                single.push(token);
                proof {
                    assert(token_views(single@) =~= seq![part]);
                    lemma_all_positions_single(part);
                    lemma_follows_to_end(
                        part.reference_offsets,
                        part.reference_offsets,
                        part.reference_offsets.len() as int,
                        true,
                    );
                }
                single
            };
            proof {
                lemma_part_done(
                    all_positions(token_views(before)),
                    all_positions(token_views(added@)),
                    parent,
                    spans,
                    i as int,
                    self.lower_case,
                );
                lemma_append_tokens(before, added@);
                lemma_all_positions_concat(token_views(before), token_views(added@));
                lemma_parts_tokens_step(token_ref_views(parts@), i as int, rules);
            }
            output.append(&mut added);
            i += 1;
        }
        proof {
            lemma_follows_to_end(
                all_positions(token_views(output@)),
                source,
                frontier(spans, parts@.len() as int),
                apart,
            );
            assert(token_ref_views(parts@).take(parts@.len() as int) =~= token_ref_views(parts@));
        }
        output
    }

    /// Tokenizes a part of the text that holds no special token: folds it
    /// to lower case if the tokenizer does so, segments it into pre-tokens
    /// and merges each of them. A part too long to count the positions of
    /// its segments is merged as a whole.
    fn tokenize_part(&mut self, token: &mut Token) -> (r: Vec<Token>)
        requires
            old(self).ready(),
            old(token)@.is_aligned(),
            old(token)@.offset.begin + old(token)@.text.len() <= u32::MAX,
            positions_bounded(seq![old(token)@]),
        ensures
            final(self).ready(),
            final(self).vocab == old(self).vocab,
            final(self).bpe_ranks == old(self).bpe_ranks,
            final(self).lower_case == old(self).lower_case,
            positions_bounded(token_views(r@)),
            all_aligned(token_views(r@)),
            follows(
                all_positions(token_views(r@)),
                old(token)@.reference_offsets,
                old(token)@.reference_offsets.len() as int,
                !old(self).lower_case && is_ascii_chars(old(token)@.text),
            ),
            final(self)@ == old(self)@,
            token_views(r@) == part_tokens(old(token)@, old(self)@),
    {
        let ghost given = token@;
        let ghost ranks = self.bpe_ranks@;
        proof {
            lemma_single_bounded(given);
        }
        if self.lower_case {
            proof {
                lemma_lowercased_upto(
                    given.text,
                    given.reference_offsets,
                    given.text.len(),
                    u32::MAX as int,
                );
                lemma_lowercased_follows(given.text, given.reference_offsets, given.text.len());
            }
            lowercase(token);
        }
        let ghost parent = token@;
        let ghost source = parent.reference_offsets;
        let ghost apart = is_ascii_chars(parent.text);
        proof {
            lemma_single_bounded(parent);
        }
        let count = token.text.as_str().unicode_len();
        let segmentable = count <= (u32::MAX - token.offset.begin) as usize;
        let mut whole: Vec<TokenRef<'_>> = Vec::new();
        let pieces = if segmentable {
            split_on_regex_with_lookahead(
                token.as_ref(),
                &self.pattern_lookahead,
                &self.pattern_tokenization,
            )
        } else {
            whole.push(token.as_ref());
            whole
        };
        proof {
            if !segmentable {
                assert(token_ref_views(pieces@) =~= seq![parent]);
            }
            lemma_pieces_of_part(token_ref_views(pieces@), parent, segmentable);
        }
        let ghost spans = spans_of_pieces(token_ref_views(pieces@), parent, segmentable);
        let mut output: Vec<Token> = Vec::new();
        let mut i: usize = 0;
        proof {
            assert(token_views(output@) =~= Seq::<TokenView>::empty());
            assert(positions_of(Seq::<TokenView>::empty()) =~= Seq::<Seq<OffsetSize>>::empty());
            assert(token_ref_views(pieces@).len() == pieces@.len());
            lemma_merged_each_empty(token_ref_views(pieces@), ranks);
        }
        while i < pieces.len()
            invariant
                i <= pieces@.len(),
                self.ready(),
                self.vocab == old(self).vocab,
                self.bpe_ranks == old(self).bpe_ranks,
                self.lower_case == old(self).lower_case,
                self.pattern_lookahead == old(self).pattern_lookahead,
                self.pattern_tokenization == old(self).pattern_tokenization,
                source == parent.reference_offsets,
                apart == is_ascii_chars(parent.text),
                spans.len() == pieces@.len(),
                stretches_of(token_ref_views(pieces@), parent, spans),
                positions_bounded(token_views(output@)),
                all_aligned(token_views(output@)),
                follows(
                    all_positions(token_views(output@)),
                    source,
                    frontier(spans, i as int),
                    apart,
                ),
                ranks == self.bpe_ranks@,
                token_views(output@) == merged_each(token_ref_views(pieces@).take(i as int), ranks),
            decreases pieces@.len() - i,
        {
            let piece = pieces[i];
            let ghost before = output@;
            proof {
                assert(token_ref_views(pieces@)[i as int] == piece@);
                lemma_stretch_merged(
                    all_positions(token_views(before)),
                    token_ref_views(pieces@),
                    parent,
                    spans,
                    i as int,
                    self.bpe_ranks@,
                );
            }
            let mut merged = split_on_bpe_pairs(piece, &self.bpe_ranks, &mut self.cache, true);
            let ghost added = merged@;
            proof {
                lemma_append_tokens(before, added);
                lemma_all_positions_concat(token_views(before), token_views(added));
                lemma_merged_each_step(token_ref_views(pieces@), i as int, ranks);
            }
            output.append(&mut merged);
            i += 1;
        }
        proof {
            assert(token_ref_views(pieces@).take(pieces@.len() as int) =~= token_ref_views(
                pieces@,
            ));
            assert(parent == folded_part(given, self.lower_case));
            assert(token_ref_views(pieces@) == segmentation(
                parent,
                self.pattern_lookahead@,
                self.pattern_tokenization@,
            ));
            let out = all_positions(token_views(output@));
            lemma_follows_to_end(out, source, frontier(spans, pieces@.len() as int), apart);
            if self.lower_case {
                lemma_follows_through(
                    out,
                    source,
                    given.reference_offsets,
                    given.reference_offsets.len() as int,
                    apart,
                    false,
                );
            }
        }
        output
    }
}

impl Tokenizer<Gpt2Vocab> for Gpt2Tokenizer {
    open spec fn ready(&self) -> bool {
        self.cache.holds_merges_of(self.bpe_ranks@)
    }

    open spec fn vocab_spec(&self) -> VocabView {
        self.vocab.vocab_view()
    }

    open spec fn tokens_string(&self, tokens: Seq<Seq<char>>) -> Seq<char> {
        byte_level_string(tokens)
    }

    open spec fn keeps_apart(&self, text: Seq<char>) -> bool {
        !self.lower_case && is_ascii_chars(text)
    }

    open spec fn tokens_of(&self, text: TokenView) -> Seq<TokenView> {
        text_tokens(text, self@)
    }

    fn vocab(&self) -> (r: &Gpt2Vocab) {
        &self.vocab
    }

    fn vocab_mut(&mut self) -> (r: &mut Gpt2Vocab) {
        &mut self.vocab
    }

    /// Cuts the text at the special tokens, which become tokens of their
    /// own; folds what lies between to lower case if the tokenizer does
    /// so; segments it into pre-tokens and merges each at the level of
    /// bytes; and repairs the masks.
    fn tokenize_to_tokens(&mut self, initial_token: TokenRef<'_>) -> (r: Vec<Token>)
        ensures
            final(self).vocab == old(self).vocab,
            final(self).bpe_ranks == old(self).bpe_ranks,
            final(self).lower_case == old(self).lower_case,
            final(self)@ == old(self)@,
    {
        let parts = split_on_special_tokens(initial_token, &self.vocab);
        let ghost spans = substr_spans(
            initial_token@.text,
            initial_token@.mask,
            special_separators(self.vocab.vocab_view()),
            true,
        );
        let mut output = self.tokenize_parts(&parts, Ghost(initial_token@), Ghost(spans));
        let ghost merged = output@;
        fix_mask(&mut output);
        proof {
            let before = token_views(merged);
            let after = token_views(output@);
            assert forall|i: int| 0 <= i < before.len() implies
                (#[trigger] after[i]) == (TokenView {
                mask: after[i].mask,
                ..before[i]
            }) by {
                assert(output@[i]@ == (TokenView {
                    mask: repaired_mask(before, i),
                    ..merged[i]@
                }));
            }
            lemma_masks_only(before, after);
            assert(after == repaired(before));
            assert(self@ == old(self)@);
        }
        output
    }

    /// Turns tokens of the byte-level alphabet into the text that they
    /// stand for.
    fn convert_tokens_to_string(&self, tokens: Vec<String>) -> (r: String) {
        let text = join_with(&tokens, "");
        let chars = chars_of(text.as_str());
        let chars = replace_all(&chars, " ##", "");
        let end = trimmed_end_len(&chars, 0, chars.len());
        assert(chars@.subrange(0, chars@.len() as int) =~= chars@);
        let start = trimmed_start_len(&chars, 0, end);
        assert(chars@.subrange(0, end as int) =~= trim_end(chars@));
        assert(chars@.subrange(start as int, end as int) =~= trim(chars@));
        let bytes = unproject(&chars, start, end);
        from_utf8_lossy(&bytes)
    }
}

/// A text in which the first character of `from` does not occur is left
/// as it is by the replacement of `from`.
pub proof fn lemma_replaced_absent(s: Seq<char>, from: Seq<char>, to: Seq<char>)
    requires
        from.len() > 0,
        forall|i: int| 0 <= i < s.len() ==> #[trigger] s[i] != from[0],
    ensures
        replaced(s, from, to) == s,
    decreases s.len(),
{
    if s.len() > 0 {
        if from.len() <= s.len() {
            assert(s.take(from.len() as int)[0] == s[0]);
        }
        let rest = s.skip(1);
        assert forall|i: int| 0 <= i < rest.len() implies #[trigger] rest[i] != from[0] by {
            assert(rest[i] == s[i + 1]);
        }
        lemma_replaced_absent(rest, from, to);
        assert(seq![s[0]] + rest =~= s);
    }
}

/// A text without whitespace at either end is left as it is by trimming.
pub proof fn lemma_trim_nothing(s: Seq<char>)
    requires
        forall|i: int| 0 <= i < s.len() ==> !is_whitespace_char(#[trigger] s[i]),
    ensures
        trim(s) == s,
{
    assert(trim_end(s) =~= s);
    assert(trim(s) =~= s);
}

/// No character of the byte-level alphabet is whitespace, and each stands
/// for the byte that it came from.
pub proof fn lemma_projected_chars(bytes: Seq<u8>)
    ensures
        forall|i: int|
            0 <= i < bytes.len() ==> {
                &&& !is_whitespace_char(#[trigger] project_bytes(bytes)[i])
                &&& project_bytes(bytes)[i] != ' '
                &&& unicode_to_byte(project_bytes(bytes)[i]) == Some(bytes[i])
            },
{
    assert forall|i: int| 0 <= i < bytes.len() implies {
        &&& !is_whitespace_char(#[trigger] project_bytes(bytes)[i])
        &&& project_bytes(bytes)[i] != ' '
        &&& unicode_to_byte(project_bytes(bytes)[i]) == Some(bytes[i])
    } by {
        lemma_byte_round_trip(bytes[i]);
    }
}

/// Turning the characters that stand for bytes back into bytes gives the bytes.
pub proof fn lemma_unprojected(bytes: Seq<u8>)
    ensures
        unprojected(project_bytes(bytes)) == bytes,
    decreases bytes.len(),
{
    let chars = project_bytes(bytes);
    if bytes.len() > 0 {
        lemma_unprojected(bytes.drop_last());
        assert(chars.drop_last() =~= project_bytes(bytes.drop_last()));
        lemma_byte_round_trip(bytes.last());
        assert(chars.last() == byte_to_unicode(bytes.last()));
        assert(unprojected(chars) =~= bytes);
    }
}

/// Decoding gives back what was projected: tokens that spell the
/// byte-level projection of a text stand for that text, byte for byte.
pub proof fn lemma_decoding_inverts_projection(text: Seq<char>, tokens: Seq<Seq<char>>)
    requires
        tokens.flatten() == projected_text(text),
    ensures
        byte_level_string(tokens) == text,
{
    broadcast use vstd::utf8::group_utf8_lib;

    reveal_strlit("");
    reveal_strlit(" ##");
    let bytes = encode_utf8(text);
    let projected = projected_text(text);
    assert(""@ =~= Seq::<char>::empty());
    lemma_joined_flatten(tokens);
    lemma_projected_chars(bytes);
    assert(" ##"@[0] == ' ');
    lemma_replaced_absent(projected, " ##"@, ""@);
    lemma_trim_nothing(projected);
    lemma_unprojected(bytes);
    assert(valid_utf8(bytes));
    assert(decode_utf8(bytes) == text);
}

/// Decoding the pieces into which a pre-token is merged gives back the
/// pre-token, whatever the merge table holds.
pub proof fn lemma_decoding_inverts_merging(text: Seq<char>, ranks: Map<PiecePair, i64>)
    ensures
        byte_level_string(
            bpe_pieces(
                projected_text(text),
                ranks,
            ),
        ) == text,
{
    lemma_bpe_pieces(
        projected_text(text),
        ranks,
    );
    lemma_decoding_inverts_projection(
        text,
        bpe_pieces(
            projected_text(text),
            ranks,
        ),
    );
}

/// Whether a mask marks a special token, which is never segmented or merged.
pub open spec fn is_special(mask: Mask) -> bool {
    mask == Mask::Special || mask == Mask::Unknown
}

/// A part of a text as it is segmented: folded to lower case, with its
/// positions, where the tokenizer folds, and as it is otherwise.
pub open spec fn folded_part(part: TokenView, lower_case: bool) -> TokenView {
    if lower_case {
        TokenView {
            text: lowercased(part.text, part.reference_offsets).0,
            offset: spanning_offset(lowercased(part.text, part.reference_offsets).1),
            reference_offsets: lowercased(part.text, part.reference_offsets).1,
            mask: part.mask,
        }
    } else {
        part
    }
}

/// The pieces into which a part is segmented: the pre-tokens that the two
/// patterns find in it. A part that is marked, or too long to count the
/// positions of its segments, is its own and only piece.
pub open spec fn segmentation(
    part: TokenView,
    lookahead: Seq<char>,
    tokenization: Seq<char>,
) -> Seq<TokenView> {
    if part.mask == Mask::Plain && part.offset.begin + part.text.len() <= u32::MAX {
        sub_tokens(part, segmented_spans(part.text, lookahead, tokenization))
    } else {
        seq![part]
    }
}

/// The tokens that each of the pieces is merged into at the level of bytes.
pub open spec fn merged_of_each(pieces: Seq<TokenView>, ranks: Map<PiecePair, i64>) -> Seq<
    Seq<TokenView>,
> {
    Seq::new(pieces.len(), |j: int| merged_tokens(pieces[j], ranks, true))
}

/// The tokens that the pieces are merged into, piece after piece.
pub open spec fn merged_each(pieces: Seq<TokenView>, ranks: Map<PiecePair, i64>) -> Seq<
    TokenView,
> {
    merged_of_each(pieces, ranks).flatten()
}

/// The tokens of a part that holds no special token: the part is folded to
/// lower case where the tokenizer folds, segmented into pre-tokens, and
/// each pre-token is merged.
pub open spec fn part_tokens(part: TokenView, rules: TokenizerView) -> Seq<TokenView> {
    merged_each(
        segmentation(folded_part(part, rules.lower_case), rules.lookahead, rules.tokenization),
        rules.ranks,
    )
}

/// What a part of a text becomes: a special token stays as it is, and
/// every other part is tokenized.
pub open spec fn segment_tokens(part: TokenView, rules: TokenizerView) -> Seq<TokenView> {
    if is_special(part.mask) {
        seq![part]
    } else {
        part_tokens(part, rules)
    }
}

/// What each of the parts of a text becomes.
pub open spec fn segments_of_parts(parts: Seq<TokenView>, rules: TokenizerView) -> Seq<
    Seq<TokenView>,
> {
    Seq::new(parts.len(), |i: int| segment_tokens(parts[i], rules))
}

/// What the parts of a text become, part after part.
pub open spec fn parts_tokens(parts: Seq<TokenView>, rules: TokenizerView) -> Seq<TokenView> {
    segments_of_parts(parts, rules).flatten()
}

/// The parts into which a text is cut at the special tokens of a vocabulary.
pub open spec fn parts_of_text(text: TokenView, vocab: VocabView) -> Seq<TokenView> {
    sub_tokens(text, substr_spans(text.text, text.mask, special_separators(vocab), true))
}

/// The tokens of a text: the text is cut at the special tokens of the
/// vocabulary, each special token stays as it is, what lies between is
/// folded, segmented and merged, and the masks of the tokens are repaired.
pub open spec fn text_tokens(text: TokenView, rules: TokenizerView) -> Seq<TokenView> {
    repaired(parts_tokens(parts_of_text(text, rules.vocab), rules))
}

/// No pieces are merged into no tokens.
pub proof fn lemma_merged_each_empty(pieces: Seq<TokenView>, ranks: Map<PiecePair, i64>)
    ensures
        merged_each(pieces.take(0), ranks) == Seq::<TokenView>::empty(),
{
    assert(merged_of_each(pieces.take(0), ranks) =~= Seq::<Seq<TokenView>>::empty());
}

/// The tokens of one piece more are the tokens so far, followed by those
/// that the piece is merged into.
pub proof fn lemma_merged_each_step(pieces: Seq<TokenView>, index: int, ranks: Map<PiecePair, i64>)
    requires
        0 <= index < pieces.len(),
    ensures
        merged_each(pieces.take(index + 1), ranks) == merged_each(pieces.take(index), ranks)
            + merged_tokens(pieces[index], ranks, true),
{
    let before = merged_of_each(pieces.take(index), ranks);
    let piece_tokens = merged_tokens(pieces[index], ranks, true);
    assert(merged_of_each(pieces.take(index + 1), ranks) =~= before.push(piece_tokens)) by {
        assert forall|j: int| 0 <= j < index + 1 implies #[trigger] merged_of_each(
            pieces.take(index + 1),
            ranks,
        )[j] == before.push(piece_tokens)[j] by {
            if j < index {
                assert(pieces.take(index + 1)[j] == pieces.take(index)[j]);
            }
        }
    }
    before.lemma_flatten_push(piece_tokens);
}

/// The tokens of one part more are the tokens so far, followed by what
/// the part becomes.
pub proof fn lemma_parts_tokens_step(parts: Seq<TokenView>, index: int, rules: TokenizerView)
    requires
        0 <= index < parts.len(),
    ensures
        parts_tokens(parts.take(index + 1), rules) == parts_tokens(parts.take(index), rules)
            + segment_tokens(parts[index], rules),
{
    let before = segments_of_parts(parts.take(index), rules);
    let added = segment_tokens(parts[index], rules);
    assert(segments_of_parts(parts.take(index + 1), rules) =~= before.push(added)) by {
        assert forall|j: int| 0 <= j < index + 1 implies #[trigger] segments_of_parts(
            parts.take(index + 1),
            rules,
        )[j] == before.push(added)[j] by {
            if j < index {
                assert(parts.take(index + 1)[j] == parts.take(index)[j]);
            }
        }
    }
    before.lemma_flatten_push(added);
}

} // verus!
