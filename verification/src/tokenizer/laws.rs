//! What holds of whole texts where the pre-tokens leave nothing out: the
//! pre-tokens spell the text, and decoding gives back what was encoded.
use vstd::prelude::*;
use vstd::seq_lib::lemma_flatten_concat;
use vstd::utf8::{encode_utf8, is_ascii_chars};
use crate::text::{is_blank, is_whitespace_char, trimmed_end};
use crate::tokenizer::base_tokenizer::{
    columns_of, identity_positions, Mask, OffsetSize, positions_bounded, TokenizedInputView,
    TokenView, TruncationStrategy,
};
use crate::tokenizer::encoding::{decoded_tokens, texts_encoding, unless_blank, whole_text};
use crate::tokenizer::gpt2_tokenizer::{
    byte_level_string, is_special, lemma_decoding_inverts_projection, lemma_merged_each_empty,
    lemma_merged_each_step, merged_each, parts_of_text, parts_tokens, segment_tokens, segmentation,
    segments_of_parts, text_tokens, TokenizerView,
};
use crate::tokenizer::merging::{
    bpe_pieces, lemma_bpe_pieces, lemma_byte_char_indices, lemma_encode_utf8_push,
    lemma_piece_start, masks_repaired, merge_input, merged_tokens, piece_start, piece_tokens,
    project_bytes, projected_text, repaired, repaired_mask,
};
use crate::tokenizer::positions::{
    all_positions, frontier, lemma_all_positions_concat, lemma_all_positions_single,
    lemma_ascii_indices, lemma_piece_positions, lemma_position_of_token, positions_of,
};
use crate::tokenizer::pre_tokenization::{
    can_be_cut, first_separator, scan_spans, segmented_spans, SeparatorView, SpanView,
    special_separators, sub_token, sub_tokens, substr_spans,
};
use crate::vocab::base_vocab::{lemma_token_round_trip, token_ids, VocabView};
use crate::vocab::bpe_vocab::PiecePair;

verus! {

/// Whether spans tile a text of the given length: the first begins at the
/// start of the text, each begins where the one before it ends, and the
/// last ends at the end of the text.
pub open spec fn spans_tile(spans: Seq<SpanView>, len: int) -> bool {
    &&& forall|i: int|
        0 <= i < spans.len() ==> spans[i].begin == #[trigger] frontier(spans, i) && spans[i].begin
            <= spans[i].end
    &&& frontier(spans, spans.len() as int) == len
}

/// The stretches of a sequence at the given spans.
pub open spec fn stretches<A>(source: Seq<A>, spans: Seq<SpanView>) -> Seq<Seq<A>> {
    Seq::new(spans.len(), |i: int| source.subrange(spans[i].begin, spans[i].end))
}

/// The texts of tokens.
pub open spec fn texts_of(tokens: Seq<TokenView>) -> Seq<Seq<char>> {
    columns_of(tokens).tokens
}

/// No span of a tiling reaches beyond the text.
pub proof fn lemma_tiles_within(spans: Seq<SpanView>, len: int, k: int)
    requires
        spans_tile(spans, len),
        0 <= k <= spans.len(),
    ensures
        0 <= frontier(spans, k) <= len,
    decreases spans.len() - k,
{
    if k < spans.len() {
        lemma_tiles_within(spans, len, k + 1);
        assert(spans[k].begin == frontier(spans, k));
        if k > 0 {
            assert(spans[k - 1].begin == frontier(spans, k - 1));
        }
    }
    if k > 0 {
        assert(spans[k - 1].begin == frontier(spans, k - 1));
        lemma_tiles_start(spans, len, k - 1);
    }
}

/// Every span of a tiling begins at or behind the start of the text.
pub proof fn lemma_tiles_start(spans: Seq<SpanView>, len: int, k: int)
    requires
        spans_tile(spans, len),
        0 <= k < spans.len(),
    ensures
        0 <= spans[k].begin <= spans[k].end,
    decreases k,
{
    assert(spans[k].begin == frontier(spans, k));
    if k > 0 {
        lemma_tiles_start(spans, len, k - 1);
    }
}

/// The stretches at the first spans of a tiling, one after another, are
/// the sequence up to the end of the last of them.
pub proof fn lemma_tiles_take<A>(source: Seq<A>, spans: Seq<SpanView>, k: int)
    requires
        spans_tile(spans, source.len() as int),
        0 <= k <= spans.len(),
    ensures
        0 <= frontier(spans, k) <= source.len(),
        stretches(source, spans.take(k)).flatten() == source.take(frontier(spans, k)),
    decreases k,
{
    lemma_tiles_within(spans, source.len() as int, k);
    if k == 0 {
        assert(stretches(source, spans.take(0)) =~= Seq::<Seq<A>>::empty());
        assert(source.take(0) =~= Seq::<A>::empty());
    } else {
        lemma_tiles_take(source, spans, k - 1);
        let before = stretches(source, spans.take(k - 1));
        let last = source.subrange(spans[k - 1].begin, spans[k - 1].end);
        assert(stretches(source, spans.take(k)) =~= before.push(last)) by {
            assert forall|i: int| 0 <= i < k implies #[trigger] stretches(source, spans.take(k))[i]
                == before.push(last)[i] by {
                if i < k - 1 {
                    assert(spans.take(k)[i] == spans.take(k - 1)[i]);
                }
            }
        }
        before.lemma_flatten_push(last);
        assert(spans[k - 1].begin == frontier(spans, k - 1));
        assert(source.take(frontier(spans, k - 1)) + last =~= source.take(frontier(spans, k)));
    }
}

/// Pre-tokens that leave nothing out spell the text: where the spans at
/// which a token is cut tile its text, the texts of the tokens that are
/// cut, one after another, are the text; their positions, one after
/// another, are its positions; and the offset of each begins where the
/// offset of the one before it ends, the first at the begin of the offset
/// of the token.
pub proof fn lemma_tiling_spells(parent: TokenView, spans: Seq<SpanView>)
    requires
        can_be_cut(parent),
        spans_tile(spans, parent.text.len() as int),
    ensures
        texts_of(sub_tokens(parent, spans)).flatten() == parent.text,
        positions_of(sub_tokens(parent, spans)).flatten() == parent.reference_offsets,
        forall|i: int|
            0 <= i < spans.len() ==> {
                &&& (#[trigger] sub_tokens(parent, spans)[i]).offset.begin == parent.offset.begin
                    + frontier(spans, i)
                &&& sub_tokens(parent, spans)[i].offset.end == parent.offset.begin + frontier(
                    spans,
                    i + 1,
                )
            },
{
    let n = spans.len() as int;
    let tokens = sub_tokens(parent, spans);
    lemma_tiles_take(parent.text, spans, n);
    lemma_tiles_take(parent.reference_offsets, spans, n);
    assert(spans.take(n) =~= spans);
    assert(texts_of(tokens) =~= stretches(parent.text, spans));
    assert(positions_of(tokens) =~= stretches(parent.reference_offsets, spans));
    assert(parent.text.take(parent.text.len() as int) =~= parent.text);
    assert(parent.reference_offsets.take(parent.reference_offsets.len() as int)
        =~= parent.reference_offsets);
    assert forall|i: int| 0 <= i < spans.len() implies {
        &&& (#[trigger] tokens[i]).offset.begin == parent.offset.begin + frontier(spans, i)
        &&& tokens[i].offset.end == parent.offset.begin + frontier(spans, i + 1)
    } by {
        assert(spans[i].begin == frontier(spans, i));
        lemma_tiles_within(spans, parent.text.len() as int, i);
        lemma_tiles_within(spans, parent.text.len() as int, i + 1);
    }
}

/// The encoding of two texts, one behind the other, is the encoding of the
/// first followed by that of the second.
pub proof fn lemma_encode_utf8_concat(first: Seq<char>, second: Seq<char>)
    ensures
        encode_utf8(first + second) == encode_utf8(first) + encode_utf8(second),
    decreases second.len(),
{
    if second.len() == 0 {
        assert(first + second =~= first);
        assert(encode_utf8(second) =~= Seq::<u8>::empty());
        assert(encode_utf8(first) + encode_utf8(second) =~= encode_utf8(first));
    } else {
        let front = second.drop_last();
        lemma_encode_utf8_concat(first, front);
        lemma_encode_utf8_push(first + front, second.last());
        lemma_encode_utf8_push(front, second.last());
        assert((first + front).push(second.last()) =~= first + second);
        assert(front.push(second.last()) =~= second);
        assert(encode_utf8(first + second) =~= encode_utf8(first) + encode_utf8(second));
    }
}

/// The projection of two texts, one behind the other, is the projection
/// of the first followed by that of the second.
pub proof fn lemma_projected_concat(first: Seq<char>, second: Seq<char>)
    ensures
        projected_text(first + second) == projected_text(first) + projected_text(second),
{
    lemma_encode_utf8_concat(first, second);
    assert(project_bytes(encode_utf8(first) + encode_utf8(second)) =~= project_bytes(
        encode_utf8(first),
    ) + project_bytes(encode_utf8(second)));
}

/// The texts of tokens that stand one list after another.
pub proof fn lemma_texts_concat(first: Seq<TokenView>, second: Seq<TokenView>)
    ensures
        texts_of(first + second).flatten() == texts_of(first).flatten() + texts_of(
            second,
        ).flatten(),
{
    assert(texts_of(first + second) =~= texts_of(first) + texts_of(second));
    lemma_flatten_concat(texts_of(first), texts_of(second));
}

/// The tokens that a pre-token is merged into spell the byte-level
/// projection of the pre-token.
pub proof fn lemma_merged_spell(piece: TokenView, ranks: Map<PiecePair, i64>)
    ensures
        texts_of(merged_tokens(piece, ranks, true)).flatten() == projected_text(piece.text),
{
    let input = merge_input(piece, true);
    let pieces = bpe_pieces(input.0, ranks);
    lemma_bpe_pieces(input.0, ranks);
    assert(texts_of(piece_tokens(pieces, input.1)) =~= pieces);
}

/// The tokens of the first pre-tokens of a tiling spell the projection of
/// the text up to the end of the last of them.
pub proof fn lemma_merged_each_spell(
    parent: TokenView,
    spans: Seq<SpanView>,
    ranks: Map<PiecePair, i64>,
    k: int,
)
    requires
        spans_tile(spans, parent.text.len() as int),
        0 <= k <= spans.len(),
    ensures
        texts_of(merged_each(sub_tokens(parent, spans).take(k), ranks)).flatten()
            == projected_text(parent.text.take(frontier(spans, k))),
    decreases k,
{
    let pieces = sub_tokens(parent, spans);
    if k == 0 {
        lemma_merged_each_empty(pieces, ranks);
        assert(texts_of(Seq::<TokenView>::empty()) =~= Seq::<Seq<char>>::empty());
        assert(parent.text.take(0) =~= Seq::<char>::empty());
        assert(encode_utf8(Seq::<char>::empty()) =~= Seq::<u8>::empty());
        assert(projected_text(Seq::<char>::empty()) =~= Seq::<char>::empty());
    } else {
        lemma_merged_each_spell(parent, spans, ranks, k - 1);
        lemma_merged_each_step(pieces, k - 1, ranks);
        lemma_texts_concat(
            merged_each(pieces.take(k - 1), ranks),
            merged_tokens(pieces[k - 1], ranks, true),
        );
        lemma_merged_spell(pieces[k - 1], ranks);
        lemma_tiles_within(spans, parent.text.len() as int, k - 1);
        lemma_tiles_within(spans, parent.text.len() as int, k);
        assert(spans[k - 1].begin == frontier(spans, k - 1));
        let so_far = parent.text.take(frontier(spans, k - 1));
        let next = parent.text.subrange(spans[k - 1].begin, spans[k - 1].end);
        assert(pieces[k - 1].text == next);
        lemma_projected_concat(so_far, next);
        assert(so_far + next =~= parent.text.take(frontier(spans, k)));
    }
}

/// After the repair no continuation stands right behind a plain token.
pub proof fn lemma_repaired_masks(tokens: Seq<TokenView>)
    ensures
        masks_repaired(repaired(tokens)),
{
    let after = repaired(tokens);
    assert forall|i: int, j: int| 0 <= i && i + 1 == j && j < after.len() implies !((
    #[trigger] after[i]).mask == Mask::Plain && (#[trigger] after[j]).mask
        == Mask::Continuation) by {
        assert(after[i].mask == repaired_mask(tokens, i));
        assert(after[j].mask == repaired_mask(tokens, j));
    }
}

/// Repairing the masks leaves the texts as they are.
pub proof fn lemma_repaired_texts(tokens: Seq<TokenView>)
    ensures
        texts_of(repaired(tokens)) == texts_of(tokens),
{
    assert(texts_of(repaired(tokens)) =~= texts_of(tokens));
}

/// In a well-formed vocabulary the ids of tokens that the vocabulary holds
/// lead back to the tokens.
pub proof fn lemma_ids_round_trip(vocab: VocabView, texts: Seq<Seq<char>>)
    requires
        vocab.wf(),
        forall|i: int| 0 <= i < texts.len() ==> vocab.values.contains_key(#[trigger] texts[i]),
    ensures
        decoded_tokens(vocab, token_ids(vocab, texts), false) == texts,
    decreases texts.len(),
{
    if texts.len() > 0 {
        let front = texts.drop_last();
        assert forall|i: int| 0 <= i < front.len() implies vocab.values.contains_key(
            #[trigger] front[i],
        ) by {
            assert(front[i] == texts[i]);
        }
        lemma_ids_round_trip(vocab, front);
        assert(token_ids(vocab, texts).drop_last() =~= token_ids(vocab, front));
        assert(vocab.values.contains_key(texts[texts.len() - 1]));
        lemma_token_round_trip(vocab, texts.last());
        assert(decoded_tokens(vocab, token_ids(vocab, texts), false) =~= texts);
    } else {
        assert(decoded_tokens(vocab, token_ids(vocab, texts), false) =~= texts);
    }
}

/// A text in which no separator stands anywhere is cut into itself.
pub proof fn lemma_no_separator(text: Seq<char>, separators: Seq<SeparatorView>, at: int)
    requires
        0 <= at <= text.len(),
        text.len() > 0,
        forall|place: int|
            0 <= place < text.len() ==> first_separator(separators, #[trigger] text.skip(place))
                is None,
    ensures
        scan_spans(text, separators, true, at, 0) == seq![
            SpanView { begin: 0, end: text.len() as int, mask: Mask::Plain },
        ],
    decreases text.len() - at,
{
    if at < text.len() {
        assert(first_separator(separators, text.skip(at)) is None);
        lemma_no_separator(text, separators, at + 1);
    }
}

/// No special token in a text: no special token of the vocabulary stands
/// at any place of the text.
pub open spec fn no_special_token(text: Seq<char>, vocab: VocabView) -> bool {
    forall|place: int|
        0 <= place < text.len() ==> first_separator(
            special_separators(vocab),
            #[trigger] text.skip(place),
        ) is None
}

/// The tokens of a text without special tokens, where the tokenizer does
/// not fold: the pre-tokens of the whole text, each merged, with the masks
/// repaired.
pub proof fn lemma_plain_text_tokens(text: Seq<char>, rules: TokenizerView)
    requires
        0 < text.len() <= u32::MAX,
        !rules.lower_case,
        no_special_token(text, rules.vocab),
    ensures
        text_tokens(whole_text(text), rules) == repaired(
            merged_each(
                sub_tokens(
                    whole_text(text),
                    segmented_spans(text, rules.lookahead, rules.tokenization),
                ),
                rules.ranks,
            ),
        ),
{
    let whole = whole_text(text);
    let separators = special_separators(rules.vocab);
    lemma_no_separator(text, separators, 0);
    let span = SpanView { begin: 0, end: text.len() as int, mask: Mask::Plain };
    assert(substr_spans(text, Mask::Plain, separators, true) == seq![span]);
    assert(sub_token(whole, span) == whole) by {
        assert(text.subrange(0, text.len() as int) =~= text);
        assert(whole.reference_offsets.subrange(0, text.len() as int)
            =~= whole.reference_offsets);
    }
    assert(parts_of_text(whole, rules.vocab) =~= seq![whole]);
    let segments = segments_of_parts(seq![whole], rules);
    assert(segments =~= seq![
        merged_each(segmentation(whole, rules.lookahead, rules.tokenization), rules.ranks),
    ]);
    segments.lemma_flatten_one_element();
}

/// Decoding gives back what was encoded. For a text that holds no special
/// token and whose pre-tokens leave no character out, under a tokenizer
/// that does not fold and a well-formed vocabulary that holds every token
/// of the text, the ids of the tokens of the text decode to the text, byte
/// for byte.
pub proof fn lemma_decoding_inverts_encoding(text: Seq<char>, rules: TokenizerView)
    requires
        0 < text.len() <= u32::MAX,
        !rules.lower_case,
        no_special_token(text, rules.vocab),
        spans_tile(segmented_spans(text, rules.lookahead, rules.tokenization), text.len() as int),
        rules.vocab.wf(),
        forall|i: int|
            0 <= i < texts_of(text_tokens(whole_text(text), rules)).len()
                ==> rules.vocab.values.contains_key(
                #[trigger] texts_of(text_tokens(whole_text(text), rules))[i],
            ),
    ensures
        byte_level_string(
            decoded_tokens(
                rules.vocab,
                token_ids(rules.vocab, texts_of(text_tokens(whole_text(text), rules))),
                false,
            ),
        ) == text,
{
    let whole = whole_text(text);
    let spans = segmented_spans(text, rules.lookahead, rules.tokenization);
    let merged = merged_each(sub_tokens(whole, spans), rules.ranks);
    let texts = texts_of(text_tokens(whole, rules));
    lemma_plain_text_tokens(text, rules);
    lemma_repaired_texts(merged);
    lemma_merged_each_spell(whole, spans, rules.ranks, spans.len() as int);
    assert(sub_tokens(whole, spans).take(spans.len() as int) =~= sub_tokens(whole, spans));
    assert(text.take(text.len() as int) =~= text);
    lemma_ids_round_trip(rules.vocab, texts);
    lemma_decoding_inverts_projection(text, texts);
}

/// What `encode` gives for a text decodes to the text. For a text that is
/// not blank and holds no special token, whose pre-tokens leave no
/// character out, under a tokenizer that does not fold and a well-formed
/// vocabulary that holds every token of the text: where the input that
/// the text is encoded into lost no token to truncation, its ids decode to
/// the text.
pub proof fn lemma_decoding_inverts_encode(
    text: Seq<char>,
    rules: TokenizerView,
    input: TokenizedInputView,
    max_len: nat,
    stride: nat,
)
    requires
        !is_blank(text),
        text.len() <= u32::MAX,
        !rules.lower_case,
        no_special_token(text, rules.vocab),
        spans_tile(segmented_spans(text, rules.lookahead, rules.tokenization), text.len() as int),
        rules.vocab.wf(),
        forall|i: int|
            0 <= i < texts_of(text_tokens(whole_text(text), rules)).len()
                ==> rules.vocab.values.contains_key(
                #[trigger] texts_of(text_tokens(whole_text(text), rules))[i],
            ),
        Some(input) == texts_encoding(
            rules.vocab,
            unless_blank(text, text_tokens(whole_text(text), rules)),
            None,
            max_len,
            TruncationStrategy::LongestFirst,
            stride,
        ),
        input.num_truncated_tokens == 0,
    ensures
        byte_level_string(decoded_tokens(rules.vocab, input.token_ids, false)) == text,
{
    let texts = texts_of(text_tokens(whole_text(text), rules));
    let ids = token_ids(rules.vocab, texts);
    lemma_decoding_inverts_encoding(text, rules);
    assert(input.token_ids =~= ids);
}

/// Whether the offset of every token runs from its first position to just
/// behind its last.
pub open spec fn offsets_span_positions(tokens: Seq<TokenView>) -> bool {
    forall|i: int|
        0 <= i < tokens.len() ==> {
            &&& (#[trigger] tokens[i]).reference_offsets.len() > 0
            &&& tokens[i].offset.begin == tokens[i].reference_offsets.first()
            &&& tokens[i].offset.end == tokens[i].reference_offsets.last() + 1
        }
}

/// The tokens that an ASCII pre-token is merged into hold the positions of
/// the pre-token, each once and in their order, and the offset of each
/// runs from its first position to just behind its last.
pub proof fn lemma_ascii_merged(piece: TokenView, ranks: Map<PiecePair, i64>)
    requires
        piece.is_aligned(),
        is_ascii_chars(piece.text),
        positions_bounded(seq![piece]),
    ensures
        all_positions(merged_tokens(piece, ranks, true)) == piece.reference_offsets,
        offsets_span_positions(merged_tokens(piece, ranks, true)),
{
    let input = merge_input(piece, true);
    let pieces = bpe_pieces(input.0, ranks);
    let tokens = piece_tokens(pieces, input.1);
    let count = pieces.len() as int;
    lemma_bpe_pieces(input.0, ranks);
    lemma_ascii_indices(piece.text);
    lemma_byte_char_indices(piece.text);
    assert(input.1 =~= piece.reference_offsets);
    lemma_piece_positions(pieces, input.1, count);
    assert(tokens.take(count) =~= tokens);
    assert(pieces.take(count) =~= pieces);
    assert(input.1.take(input.1.len() as int) =~= input.1);
    assert forall|i: int| 0 <= i < tokens.len() implies {
        &&& (#[trigger] tokens[i]).reference_offsets.len() > 0
        &&& tokens[i].offset.begin == tokens[i].reference_offsets.first()
        &&& tokens[i].offset.end == tokens[i].reference_offsets.last() + 1
    } by {
        lemma_piece_start(pieces, i);
        assert(pieces[i].len() > 0);
        let end = piece_start(pieces, i + 1);
        assert(seq![piece][0].reference_offsets[end - 1] < u32::MAX);
    }
}

/// Tokens whose offsets span their positions stay so when such tokens are
/// put behind them.
pub proof fn lemma_offsets_span_concat(first: Seq<TokenView>, second: Seq<TokenView>)
    requires
        offsets_span_positions(first),
        offsets_span_positions(second),
    ensures
        offsets_span_positions(first + second),
{
    assert forall|i: int| 0 <= i < (first + second).len() implies {
        &&& (#[trigger] (first + second)[i]).reference_offsets.len() > 0
        &&& (first + second)[i].offset.begin == (first + second)[i].reference_offsets.first()
        &&& (first + second)[i].offset.end == (first + second)[i].reference_offsets.last() + 1
    } by {
        if i < first.len() {
            assert((first + second)[i] == first[i]);
        } else {
            assert((first + second)[i] == second[i - first.len()]);
        }
    }
}

/// The tokens of the first pre-tokens of a tiling of an ASCII text hold the
/// positions of the text up to the end of the last of them, each once and
/// in their order.
pub proof fn lemma_ascii_merged_each(
    parent: TokenView,
    spans: Seq<SpanView>,
    ranks: Map<PiecePair, i64>,
    k: int,
)
    requires
        parent.is_aligned(),
        is_ascii_chars(parent.text),
        positions_bounded(seq![parent]),
        spans_tile(spans, parent.text.len() as int),
        0 <= k <= spans.len(),
    ensures
        all_positions(merged_each(sub_tokens(parent, spans).take(k), ranks))
            == parent.reference_offsets.take(frontier(spans, k)),
        offsets_span_positions(merged_each(sub_tokens(parent, spans).take(k), ranks)),
    decreases k,
{
    let pieces = sub_tokens(parent, spans);
    if k == 0 {
        lemma_merged_each_empty(pieces, ranks);
        assert(positions_of(Seq::<TokenView>::empty()) =~= Seq::<Seq<OffsetSize>>::empty());
        assert(parent.reference_offsets.take(0) =~= Seq::<OffsetSize>::empty());
    } else {
        lemma_ascii_merged_each(parent, spans, ranks, k - 1);
        lemma_merged_each_step(pieces, k - 1, ranks);
        lemma_tiles_within(spans, parent.text.len() as int, k - 1);
        lemma_tiles_within(spans, parent.text.len() as int, k);
        assert(spans[k - 1].begin == frontier(spans, k - 1));
        let piece = pieces[k - 1];
        let begin = spans[k - 1].begin;
        let end = spans[k - 1].end;
        assert(is_ascii_chars(piece.text)) by {
            assert forall|i: int| 0 <= i < piece.text.len() implies '\0' <= #[trigger] piece.text[i]
                <= '\u{7f}' by {
                assert(piece.text[i] == parent.text[begin + i]);
            }
        }
        assert(positions_bounded(seq![piece])) by {
            assert forall|i: int, j: int|
                0 <= i < 1 && 0 <= j < seq![piece][i].reference_offsets.len() implies
                #[trigger] seq![piece][i].reference_offsets[j] < u32::MAX by {
                assert(seq![parent][0].reference_offsets[begin + j] < u32::MAX);
            }
        }
        lemma_ascii_merged(piece, ranks);
        let before = merged_each(pieces.take(k - 1), ranks);
        let next = merged_tokens(piece, ranks, true);
        lemma_all_positions_concat(before, next);
        lemma_offsets_span_concat(before, next);
        assert(parent.reference_offsets.take(begin) + parent.reference_offsets.subrange(begin, end)
            =~= parent.reference_offsets.take(end));
    }
}

/// Where tokens hold the positions `0, 1, .., n - 1`, each once and in
/// their order, and the offset of each spans its positions, the first
/// offset begins at zero, each offset begins where the one before it ends,
/// and the last ends at `n`.
pub proof fn lemma_offsets_adjoin(tokens: Seq<TokenView>, n: nat)
    requires
        n <= u32::MAX,
        all_positions(tokens) == identity_positions(n),
        offsets_span_positions(tokens),
    ensures
        tokens.len() > 0 ==> tokens.first().offset.begin == 0 && tokens.last().offset.end == n,
        forall|i: int, j: int|
            0 <= i && i + 1 == j && j < tokens.len() ==> (#[trigger] tokens[i]).offset.end == (
            #[trigger] tokens[j]).offset.begin,
{
    let positions = positions_of(tokens);
    assert forall|i: int| 0 <= i < tokens.len() implies {
        &&& (#[trigger] tokens[i]).offset.begin == positions.take(i).flatten().len()
        &&& tokens[i].offset.end == positions.take(i + 1).flatten().len()
    } by {
        let width = positions[i].len() as int;
        lemma_position_of_token(positions, i, 0);
        lemma_position_of_token(positions, i, width - 1);
        assert(positions.take(i).push(positions[i]) =~= positions.take(i + 1));
        positions.take(i).lemma_flatten_push(positions[i]);
    }
    if tokens.len() > 0 {
        assert(positions.take(0) =~= Seq::<Seq<OffsetSize>>::empty());
        assert(positions.take(tokens.len() as int) =~= positions);
    }
}

/// Every character of an ASCII text is covered once. For an ASCII text
/// that holds no special token and whose pre-tokens leave no character
/// out, under a tokenizer that does not fold: the tokens of the text hold
/// the positions `0, 1, .., n - 1`, each once and in their order; the
/// offset of each token runs from its first position to just behind its
/// last; the first offset begins at zero, each begins where the one before
/// it ends, and the last ends at the end of the text; and no continuation
/// stands right behind a plain token.
pub proof fn lemma_ascii_text_covered(text: Seq<char>, rules: TokenizerView)
    requires
        0 < text.len() < u32::MAX,
        is_ascii_chars(text),
        !rules.lower_case,
        no_special_token(text, rules.vocab),
        spans_tile(segmented_spans(text, rules.lookahead, rules.tokenization), text.len() as int),
    ensures
        all_positions(text_tokens(whole_text(text), rules)) == identity_positions(text.len()),
        offsets_span_positions(text_tokens(whole_text(text), rules)),
        text_tokens(whole_text(text), rules).len() > 0,
        text_tokens(whole_text(text), rules).first().offset.begin == 0,
        text_tokens(whole_text(text), rules).last().offset.end == text.len(),
        forall|i: int, j: int|
            0 <= i && i + 1 == j && j < text_tokens(whole_text(text), rules).len() ==> (
            #[trigger] text_tokens(whole_text(text), rules)[i]).offset.end == (
            #[trigger] text_tokens(whole_text(text), rules)[j]).offset.begin,
        masks_repaired(text_tokens(whole_text(text), rules)),
{
    let whole = whole_text(text);
    let spans = segmented_spans(text, rules.lookahead, rules.tokenization);
    let merged = merged_each(sub_tokens(whole, spans), rules.ranks);
    let tokens = text_tokens(whole, rules);
    lemma_plain_text_tokens(text, rules);
    assert(positions_bounded(seq![whole])) by {
        assert forall|i: int, k: int|
            0 <= i < 1 && 0 <= k < seq![whole][i].reference_offsets.len() implies
            #[trigger] seq![whole][i].reference_offsets[k] < u32::MAX by {}
    }
    lemma_ascii_merged_each(whole, spans, rules.ranks, spans.len() as int);
    assert(sub_tokens(whole, spans).take(spans.len() as int) =~= sub_tokens(whole, spans));
    assert(whole.reference_offsets.take(text.len() as int) =~= whole.reference_offsets);
    assert(positions_of(tokens) =~= positions_of(merged));
    assert(offsets_span_positions(tokens)) by {
        assert forall|i: int| 0 <= i < tokens.len() implies {
            &&& (#[trigger] tokens[i]).reference_offsets.len() > 0
            &&& tokens[i].offset.begin == tokens[i].reference_offsets.first()
            &&& tokens[i].offset.end == tokens[i].reference_offsets.last() + 1
        } by {
            assert(tokens[i].offset == merged[i].offset);
        }
    }
    lemma_offsets_adjoin(tokens, text.len());
    if tokens.len() == 0 {
        assert(positions_of(tokens) =~= Seq::<Seq<OffsetSize>>::empty());
    }
    lemma_repaired_masks(merged);
}

/// Dropping trailing whitespace leaves no more characters than there were.
pub proof fn lemma_trimmed_end_within(s: Seq<char>)
    ensures
        trimmed_end(s) <= s.len(),
    decreases s.len(),
{
    if s.len() > 0 && is_whitespace_char(s.last()) {
        lemma_trimmed_end_within(s.drop_last());
    }
}

/// The spans of a scan lie within the text, behind the begin of the
/// stretch that the scan started with.
pub proof fn lemma_scan_within(
    text: Seq<char>,
    separators: Seq<SeparatorView>,
    add_separators: bool,
    at: int,
    from: int,
)
    requires
        0 <= from <= at <= text.len(),
    ensures
        forall|i: int|
            0 <= i < scan_spans(text, separators, add_separators, at, from).len() ==> from <= (
            #[trigger] scan_spans(text, separators, add_separators, at, from)[i]).begin
                <= scan_spans(text, separators, add_separators, at, from)[i].end <= text.len(),
    decreases text.len() - at,
{
    if at < text.len() {
        match first_separator(separators, text.skip(at)) {
            Some(k) => {
                let behind = at + separators[k].0.len();
                if at < behind <= text.len() {
                    lemma_scan_within(text, separators, add_separators, behind, behind);
                    lemma_trimmed_end_within(text.subrange(from, at));
                }
            },
            None => {
                lemma_scan_within(text, separators, add_separators, at + 1, from);
            },
        }
    }
}

/// Whether the pre-tokens of every plain part leave no character of the
/// part out.
pub open spec fn parts_tile(parts: Seq<TokenView>, rules: TokenizerView) -> bool {
    forall|i: int|
        0 <= i < parts.len() && (#[trigger] parts[i]).mask == Mask::Plain ==> spans_tile(
            segmented_spans(parts[i].text, rules.lookahead, rules.tokenization),
            parts[i].text.len() as int,
        )
}

/// The tokens of an ASCII part hold the positions of the part, each once
/// and in their order, where the pre-tokens of the part leave no character
/// out and the tokenizer does not fold.
pub proof fn lemma_ascii_part(part: TokenView, rules: TokenizerView)
    requires
        part.is_aligned(),
        is_ascii_chars(part.text),
        positions_bounded(seq![part]),
        !rules.lower_case,
        part.mask == Mask::Plain ==> spans_tile(
            segmented_spans(part.text, rules.lookahead, rules.tokenization),
            part.text.len() as int,
        ),
    ensures
        all_positions(segment_tokens(part, rules)) == part.reference_offsets,
{
    if is_special(part.mask) {
        lemma_all_positions_single(part);
    } else {
        let pieces = segmentation(part, rules.lookahead, rules.tokenization);
        if part.mask == Mask::Plain && part.offset.begin + part.text.len() <= u32::MAX {
            let spans = segmented_spans(part.text, rules.lookahead, rules.tokenization);
            lemma_ascii_merged_each(part, spans, rules.ranks, spans.len() as int);
            assert(pieces.take(spans.len() as int) =~= pieces);
            assert(part.reference_offsets.take(part.text.len() as int)
                =~= part.reference_offsets);
        } else {
            lemma_ascii_merged(part, rules.ranks);
            lemma_merged_each_empty(pieces, rules.ranks);
            lemma_merged_each_step(pieces, 0, rules.ranks);
            assert(pieces.take(1) =~= pieces);
            assert(Seq::<TokenView>::empty() + merged_tokens(part, rules.ranks, true)
                =~= merged_tokens(part, rules.ranks, true));
        }
    }
}

/// The tokens of the first parts hold the positions of these parts.
pub proof fn lemma_ascii_parts(parts: Seq<TokenView>, rules: TokenizerView, k: int)
    requires
        0 <= k <= parts.len(),
        !rules.lower_case,
        parts_tile(parts, rules),
        forall|i: int|
            0 <= i < parts.len() ==> (#[trigger] parts[i]).is_aligned() && is_ascii_chars(
                parts[i].text,
            ) && positions_bounded(seq![parts[i]]),
    ensures
        all_positions(parts_tokens(parts.take(k), rules)) == all_positions(parts.take(k)),
    decreases k,
{
    if k == 0 {
        assert(segments_of_parts(parts.take(0), rules) =~= Seq::<Seq<TokenView>>::empty());
        assert(positions_of(Seq::<TokenView>::empty()) =~= Seq::<Seq<OffsetSize>>::empty());
        assert(positions_of(parts.take(0)) =~= Seq::<Seq<OffsetSize>>::empty());
    } else {
        lemma_ascii_parts(parts, rules, k - 1);
        let part = parts[k - 1];
        assert(part.is_aligned());
        lemma_ascii_part(part, rules);
        let before = segments_of_parts(parts.take(k - 1), rules);
        let next = segment_tokens(part, rules);
        assert(segments_of_parts(parts.take(k), rules) =~= before.push(next)) by {
            assert forall|j: int| 0 <= j < k implies #[trigger] segments_of_parts(
                parts.take(k),
                rules,
            )[j] == before.push(next)[j] by {
                if j < k - 1 {
                    assert(parts.take(k)[j] == parts.take(k - 1)[j]);
                }
            }
        }
        before.lemma_flatten_push(next);
        lemma_all_positions_concat(before.flatten(), next);
        assert(parts.take(k) =~= parts.take(k - 1) + seq![part]);
        lemma_all_positions_concat(parts.take(k - 1), seq![part]);
        lemma_all_positions_single(part);
    }
}

/// Every kept character of an ASCII text is covered once. The special
/// tokens cut a text into parts: the special tokens themselves and what
/// lies between them, without the whitespace in front of a special token.
/// For an ASCII text, under a tokenizer that does not fold, where the
/// pre-tokens of every plain part leave no character of the part out: the
/// tokens of the text hold the positions of the parts, each once and in
/// their order.
pub proof fn lemma_ascii_parts_covered(text: Seq<char>, rules: TokenizerView)
    requires
        text.len() < u32::MAX,
        is_ascii_chars(text),
        !rules.lower_case,
        parts_tile(parts_of_text(whole_text(text), rules.vocab), rules),
    ensures
        all_positions(text_tokens(whole_text(text), rules)) == all_positions(
            parts_of_text(whole_text(text), rules.vocab),
        ),
{
    let whole = whole_text(text);
    let spans = substr_spans(text, Mask::Plain, special_separators(rules.vocab), true);
    let parts = parts_of_text(whole, rules.vocab);
    lemma_scan_within(text, special_separators(rules.vocab), true, 0, 0);
    assert forall|i: int| 0 <= i < parts.len() implies (#[trigger] parts[i]).is_aligned()
        && is_ascii_chars(parts[i].text) && positions_bounded(seq![parts[i]]) by {
        let span = spans[i];
        assert(0 <= span.begin <= span.end <= text.len());
        assert forall|j: int| 0 <= j < parts[i].text.len() implies '\0'
            <= #[trigger] parts[i].text[j] <= '\u{7f}' by {
            assert(parts[i].text[j] == text[span.begin + j]);
        }
        assert forall|a: int, b: int|
            0 <= a < 1 && 0 <= b < seq![parts[i]][a].reference_offsets.len() implies
            #[trigger] seq![parts[i]][a].reference_offsets[b] < u32::MAX by {
            assert(seq![parts[i]][a].reference_offsets[b] == whole.reference_offsets[span.begin
                + b]);
        }
    }
    lemma_ascii_parts(parts, rules, parts.len() as int);
    assert(parts.take(parts.len() as int) =~= parts);
    let tokens = parts_tokens(parts, rules);
    assert(positions_of(repaired(tokens)) =~= positions_of(tokens));
}

} // verus!
