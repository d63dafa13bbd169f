//! The positions that tokens keep. Whatever a text goes through on its way
//! to tokens, the positions of the tokens, read from the first token to the
//! last, never go back; and where no character is spread over several
//! tokens, no position is held twice.
use vstd::prelude::*;
use vstd::seq_lib::lemma_flatten_concat;
use vstd::utf8::is_ascii_chars;
use crate::tokenizer::base_tokenizer::{
    identity_positions, Mask, Offset, offset_of_positions, OffsetSize, positions_bounded, TokenView,
};
use crate::tokenizer::merging::{
    all_aligned, bpe_pieces, byte_char_indices, lemma_bpe_pieces, lemma_byte_char_indices,
    lemma_merged_aligned, lemma_piece_start, merge_input, merged_tokens, piece_start, piece_tokens,
    utf8_width,
};
use crate::tokenizer::pre_tokenization::{
    can_be_cut, cut_in_order, lowercase_of, lowercased_upto, spans_ordered, SpanView, sub_token,
    sub_tokens,
};
use crate::vocab::bpe_vocab::PiecePair;

verus! {

/// The positions of each token.
pub open spec fn positions_of(tokens: Seq<TokenView>) -> Seq<Seq<OffsetSize>> {
    Seq::new(tokens.len(), |i: int| tokens[i].reference_offsets)
}

/// The positions of all tokens, from the first token to the last.
pub open spec fn all_positions(tokens: Seq<TokenView>) -> Seq<OffsetSize> {
    positions_of(tokens).flatten()
}

/// Whether positions never go back; where `strict` is set, whether they
/// go up from each to the next.
pub open spec fn in_order(positions: Seq<OffsetSize>, strict: bool) -> bool {
    forall|i: int, j: int|
        0 <= i < j < positions.len() ==> if strict {
            #[trigger] positions[i] < #[trigger] positions[j]
        } else {
            positions[i] <= positions[j]
        }
}

/// Whether a position stands in `source` at an index from `from` up to,
/// and not including, `to`.
pub open spec fn occurs(source: Seq<OffsetSize>, from: int, to: int, position: OffsetSize) -> bool {
    exists|index: int|
        from <= index < to && 0 <= index < source.len() && #[trigger] source[index] == position
}

/// Whether every one of the positions stands in `source` at an index from
/// `from` up to, and not including, `to`.
pub open spec fn drawn_from(
    positions: Seq<OffsetSize>,
    source: Seq<OffsetSize>,
    from: int,
    to: int,
) -> bool {
    forall|k: int| 0 <= k < positions.len() ==> occurs(source, from, to, #[trigger] positions[k])
}

/// Whether positions follow a source: each of them stands in the source in
/// front of index `upto`; they never go back where the source never goes
/// back; and where `apart` is set and the source goes up from each position
/// to the next, so do they.
pub open spec fn follows(
    positions: Seq<OffsetSize>,
    source: Seq<OffsetSize>,
    upto: int,
    apart: bool,
) -> bool {
    &&& drawn_from(positions, source, 0, upto)
    &&& in_order(source, false) ==> in_order(positions, false)
    &&& apart && in_order(source, true) ==> in_order(positions, true)
}

/// Positions that go up from each to the next never go back.
pub proof fn lemma_strict_in_order(positions: Seq<OffsetSize>)
    requires
        in_order(positions, true),
    ensures
        in_order(positions, false),
{
}

/// Positions that follow a source still follow it when positions are added
/// that stand in the source behind all of them.
pub proof fn lemma_follows_append(
    positions: Seq<OffsetSize>,
    added: Seq<OffsetSize>,
    source: Seq<OffsetSize>,
    upto: int,
    begin: int,
    end: int,
    apart: bool,
)
    requires
        follows(positions, source, upto, apart),
        upto <= begin <= end <= source.len(),
        drawn_from(added, source, begin, end),
        in_order(source, false) ==> in_order(added, false),
        apart && in_order(source, true) ==> in_order(added, true),
    ensures
        follows(positions + added, source, end, apart),
{
    let all = positions + added;
    assert forall|k: int| 0 <= k < all.len() implies occurs(source, 0, end, #[trigger] all[k]) by {
        if k < positions.len() {
            assert(occurs(source, 0, upto, positions[k]));
            let index = choose|index: int| 0 <= index < upto && 0 <= index < source.len() &&
                #[trigger] source[index] == positions[k];
            assert(source[index] == all[k]);
        } else {
            assert(occurs(source, begin, end, added[k - positions.len()]));
            let index = choose|index: int| begin <= index < end && 0 <= index < source.len() &&
                #[trigger] source[index] == added[k - positions.len()];
            assert(source[index] == all[k]);
        }
    }
    if in_order(source, false) {
        assert forall|i: int, j: int| 0 <= i < j < all.len() implies all[i] <= all[j] by {
            if j < positions.len() {
                assert(positions[i] <= positions[j]);
            } else if i >= positions.len() {
                assert(added[i - positions.len()] <= added[j - positions.len()]);
            } else {
                assert(occurs(source, 0, upto, positions[i]));
                assert(occurs(source, begin, end, added[j - positions.len()]));
                let a = choose|index: int| 0 <= index < upto && 0 <= index < source.len() &&
                    #[trigger] source[index] == positions[i];
                let b = choose|index: int| begin <= index < end && 0 <= index < source.len() &&
                    #[trigger] source[index] == added[j - positions.len()];
                if a < b {
                    assert(source[a] <= source[b]);
                }
            }
        }
    }
    if apart && in_order(source, true) {
        lemma_strict_in_order(source);
        assert forall|i: int, j: int| 0 <= i < j < all.len() implies all[i] < all[j] by {
            if j < positions.len() {
                assert(positions[i] < positions[j]);
            } else if i >= positions.len() {
                assert(added[i - positions.len()] < added[j - positions.len()]);
            } else {
                assert(occurs(source, 0, upto, positions[i]));
                assert(occurs(source, begin, end, added[j - positions.len()]));
                let a = choose|index: int| 0 <= index < upto && 0 <= index < source.len() &&
                    #[trigger] source[index] == positions[i];
                let b = choose|index: int| begin <= index < end && 0 <= index < source.len() &&
                    #[trigger] source[index] == added[j - positions.len()];
                assert(source[a] < source[b]);
            }
        }
    }
}

/// The positions of tokens that stand one list after another.
pub proof fn lemma_all_positions_concat(first: Seq<TokenView>, second: Seq<TokenView>)
    ensures
        all_positions(first + second) == all_positions(first) + all_positions(second),
{
    assert(positions_of(first + second) =~= positions_of(first) + positions_of(second));
    lemma_flatten_concat(positions_of(first), positions_of(second));
}

/// The positions of a single token.
pub proof fn lemma_all_positions_single(token: TokenView)
    ensures
        all_positions(seq![token]) == token.reference_offsets,
{
    assert(positions_of(seq![token]) =~= seq![token.reference_offsets]);
    seq![token.reference_offsets].lemma_flatten_one_element();
}

/// A stretch of positions is drawn from the place where it stands, and it
/// is in order where the whole is.
pub proof fn lemma_stretch_follows(source: Seq<OffsetSize>, begin: int, end: int)
    requires
        0 <= begin <= end <= source.len(),
    ensures
        drawn_from(source.subrange(begin, end), source, begin, end),
        in_order(source, false) ==> in_order(source.subrange(begin, end), false),
        in_order(source, true) ==> in_order(source.subrange(begin, end), true),
{
    let stretch = source.subrange(begin, end);
    assert forall|k: int| 0 <= k < stretch.len() implies
        occurs(source, begin, end, #[trigger] stretch[k]) by {
        assert(source[begin + k] == stretch[k]);
    }
    if in_order(source, false) {
        assert forall|i: int, j: int| 0 <= i < j < stretch.len() implies
            stretch[i] <= stretch[j] by {
            assert(source[begin + i] <= source[begin + j]);
        }
    }
    if in_order(source, true) {
        assert forall|i: int, j: int| 0 <= i < j < stretch.len() implies
            stretch[i] < stretch[j] by {
            assert(source[begin + i] < source[begin + j]);
        }
    }
}

/// Positions drawn from a stretch of a source are drawn from the source at
/// the place of the stretch, and they follow the source as they follow the
/// stretch.
pub proof fn lemma_drawn_from_stretch(
    positions: Seq<OffsetSize>,
    source: Seq<OffsetSize>,
    begin: int,
    end: int,
)
    requires
        0 <= begin <= end <= source.len(),
        drawn_from(positions, source.subrange(begin, end), 0, end - begin),
    ensures
        drawn_from(positions, source, begin, end),
{
    let stretch = source.subrange(begin, end);
    assert forall|k: int| 0 <= k < positions.len() implies
        occurs(source, begin, end, #[trigger] positions[k]) by {
        assert(occurs(stretch, 0, end - begin, positions[k]));
        let index = choose|index: int| 0 <= index < end - begin && 0 <= index < stretch.len() &&
            #[trigger] stretch[index] == positions[k];
        assert(source[begin + index] == positions[k]);
    }
}

/// The tokens that a text is merged into hold, one after another, exactly
/// the positions of the text that was merged.
pub proof fn lemma_piece_positions(pieces: Seq<Seq<char>>, positions: Seq<OffsetSize>, count: int)
    requires
        pieces.flatten().len() == positions.len(),
        0 <= count <= pieces.len(),
    ensures
        all_positions(piece_tokens(pieces, positions).take(count)) == positions.take(
            piece_start(pieces, count),
        ),
    decreases count,
{
    let tokens = piece_tokens(pieces, positions);
    if count == 0 {
        assert(pieces.take(0) =~= Seq::<Seq<char>>::empty());
        assert(positions_of(tokens.take(0)) =~= Seq::<Seq<OffsetSize>>::empty());
        assert(positions.take(0) =~= Seq::<OffsetSize>::empty());
    } else {
        lemma_piece_positions(pieces, positions, count - 1);
        lemma_piece_start(pieces, count - 1);
        let start = piece_start(pieces, count - 1);
        let end = piece_start(pieces, count);
        assert(tokens.take(count) =~= tokens.take(count - 1) + seq![tokens[count - 1]]);
        lemma_all_positions_concat(tokens.take(count - 1), seq![tokens[count - 1]]);
        lemma_all_positions_single(tokens[count - 1]);
        assert(tokens[count - 1].reference_offsets == positions.subrange(start, end));
        assert(positions.take(start) + positions.subrange(start, end) =~= positions.take(end));
    }
}

/// The indices of the characters to which the bytes of an ASCII text
/// belong count up from zero.
pub proof fn lemma_ascii_indices(text: Seq<char>)
    requires
        is_ascii_chars(text),
    ensures
        byte_char_indices(text) == Seq::new(text.len(), |i: int| i),
    decreases text.len(),
{
    if text.len() > 0 {
        let front = text.drop_last();
        assert(is_ascii_chars(front)) by {
            assert forall|i: int| 0 <= i < front.len() implies '\0' <= #[trigger] front[i]
                <= '\u{7f}' by {
                assert(front[i] == text[i]);
            }
        }
        lemma_ascii_indices(front);
        assert('\0' <= text[text.len() - 1] <= '\u{7f}');
        assert(utf8_width(text.last()) == 1);
        assert(byte_char_indices(text) =~= Seq::new(text.len(), |i: int| i));
    } else {
        assert(byte_char_indices(text) =~= Seq::new(text.len(), |i: int| i));
    }
}

/// The positions of the tokens that a pre-token is merged into follow the
/// positions of the pre-token. They are kept apart where the pre-token is
/// merged as it is, and where it holds ASCII characters only.
pub proof fn lemma_merged_follows(token: TokenView, ranks: Map<PiecePair, i64>, as_bytes: bool)
    requires
        token.is_aligned(),
    ensures
        follows(
            all_positions(merged_tokens(token, ranks, as_bytes)),
            token.reference_offsets,
            token.reference_offsets.len() as int,
            !as_bytes || is_ascii_chars(token.text),
        ),
{
    let input = merge_input(token, as_bytes);
    let pieces = bpe_pieces(input.0, ranks);
    let source = token.reference_offsets;
    lemma_bpe_pieces(input.0, ranks);
    if as_bytes {
        lemma_byte_char_indices(token.text);
    }
    lemma_piece_positions(pieces, input.1, pieces.len() as int);
    assert(pieces.take(pieces.len() as int) =~= pieces);
    assert(piece_tokens(pieces, input.1).take(pieces.len() as int) =~= piece_tokens(
        pieces,
        input.1,
    ));
    assert(input.1.take(input.1.len() as int) =~= input.1);
    let merged = all_positions(merged_tokens(token, ranks, as_bytes));
    assert(merged == input.1);
    if as_bytes {
        let indices = byte_char_indices(token.text);
        assert forall|k: int| 0 <= k < merged.len() implies occurs(
            source,
            0,
            source.len() as int,
            #[trigger] merged[k],
        ) by {
            assert(0 <= indices[k] < token.text.len());
            assert(source[indices[k]] == merged[k]);
        }
        if in_order(source, false) {
            assert forall|i: int, j: int| 0 <= i < j < merged.len() implies merged[i]
                <= merged[j] by {
                assert(0 <= indices[i] < token.text.len());
                assert(0 <= indices[j] < token.text.len());
                assert(indices[i] <= indices[j]);
                if indices[i] < indices[j] {
                    assert(source[indices[i]] <= source[indices[j]]);
                }
            }
        }
        if is_ascii_chars(token.text) {
            lemma_ascii_indices(token.text);
            assert(merged =~= source);
        }
    } else {
        assert forall|k: int| 0 <= k < merged.len() implies occurs(
            source,
            0,
            source.len() as int,
            #[trigger] merged[k],
        ) by {
            assert(source[k] == merged[k]);
        }
    }
}

/// The positions of a text folded to lower case follow the positions of
/// the text, though they may hold a position several times.
pub proof fn lemma_lowercased_follows(text: Seq<char>, positions: Seq<OffsetSize>, n: nat)
    requires
        n <= text.len(),
        n <= positions.len(),
    ensures
        follows(lowercased_upto(text, positions, n).1, positions, n as int, false),
    decreases n,
{
    let all = lowercased_upto(text, positions, n).1;
    if n > 0 {
        lemma_lowercased_follows(text, positions, (n - 1) as nat);
        let before = lowercased_upto(text, positions, (n - 1) as nat).1;
        let added = Seq::new(lowercase_of(text[n - 1]).len(),
            |k: int| positions[n - 1]);
        assert(all == before + added);
        assert forall|k: int| 0 <= k < added.len() implies
            occurs(positions, n - 1, n as int, #[trigger] added[k]) by {
            assert(positions[n - 1] == added[k]);
        }
        lemma_follows_append(before, added, positions, n - 1, n - 1, n as int, false);
    }
}

/// Positions that follow positions which follow a source follow the source.
pub proof fn lemma_follows_through(
    positions: Seq<OffsetSize>,
    between: Seq<OffsetSize>,
    source: Seq<OffsetSize>,
    upto: int,
    apart_first: bool,
    apart_second: bool,
)
    requires
        follows(positions, between, between.len() as int, apart_first),
        follows(between, source, upto, apart_second),
    ensures
        follows(positions, source, upto, apart_first && apart_second),
{
    assert forall|k: int| 0 <= k < positions.len() implies occurs(
        source,
        0,
        upto,
        #[trigger] positions[k],
    ) by {
        assert(occurs(between, 0, between.len() as int, positions[k]));
        let index = choose|index: int|
            0 <= index < between.len() && 0 <= index < between.len()
                && #[trigger] between[index] == positions[k];
        assert(occurs(source, 0, upto, between[index]));
    }
}

/// Tokens whose positions are the same have the same positions taken together.
pub proof fn lemma_same_positions(first: Seq<TokenView>, second: Seq<TokenView>)
    requires
        first.len() == second.len(),
        forall|i: int|
            0 <= i < first.len() ==> (#[trigger] first[i]).reference_offsets
                == second[i].reference_offsets,
    ensures
        all_positions(first) == all_positions(second),
{
    assert(positions_of(first) =~= positions_of(second));
}

/// The positions `0, 1, .., n - 1` go up from each to the next.
pub proof fn lemma_identity_in_order(n: nat)
    requires
        n <= u32::MAX,
    ensures
        in_order(identity_positions(n), true),
{
}

/// Every position of a token stands among the positions of all tokens.
pub proof fn lemma_position_of_token(positions: Seq<Seq<OffsetSize>>, i: int, k: int)
    requires
        0 <= i < positions.len(),
        0 <= k < positions[i].len(),
    ensures
        positions.take(i).flatten().len() + k < positions.flatten().len(),
        positions.flatten()[positions.take(i).flatten().len() + k] == positions[i][k],
{
    let front = positions.take(i);
    assert(positions =~= front + positions.skip(i));
    lemma_flatten_concat(front, positions.skip(i));
    assert(positions.skip(i).flatten() == positions.skip(i).first() + positions.skip(
        i,
    ).drop_first().flatten());
    assert(positions.skip(i).first() == positions[i]);
}

/// Positions that follow the positions `0, 1, .., n - 1` are below `n`, in
/// whichever token they stand.
pub proof fn lemma_positions_within(positions: Seq<Seq<OffsetSize>>, n: nat, apart: bool)
    requires
        n <= u32::MAX,
        follows(
            positions.flatten(),
            identity_positions(n),
            n as int,
            apart,
        ),
    ensures
        forall|i: int, k: int|
            0 <= i < positions.len() && 0 <= k < positions[i].len() ==> #[trigger] positions[i][k]
                < n,
        in_order(positions.flatten(), false),
        apart ==> in_order(positions.flatten(), true),
{
    let source = identity_positions(n);
    lemma_identity_in_order(n);
    lemma_strict_in_order(source);
    assert forall|i: int, k: int|
        0 <= i < positions.len() && 0 <= k < positions[i].len() implies #[trigger] positions[i][k]
        < n by {
        lemma_position_of_token(positions, i, k);
        let at = positions.take(i).flatten().len() + k;
        assert(occurs(source, 0, n as int, positions.flatten()[at]));
    }
}

/// Whether the spans lie apart: a span ends where a later span begins, or
/// before. Tokens without a span do not count.
pub open spec fn spans_apart(offsets: Seq<Option<Offset>>) -> bool {
    forall|i: int, j: int|
        0 <= i < j < offsets.len() && (#[trigger] offsets[i]) is Some &&
            (#[trigger] offsets[j]) is Some
            ==> offsets[i]->0.end <= offsets[j]->0.begin
}

/// Where the positions of tokens go up from each to the next, the spans of
/// the tokens lie apart: a token ends where a later token begins, or
/// before.
pub proof fn lemma_spans_apart(positions: Seq<Seq<OffsetSize>>, i: int, j: int)
    requires
        in_order(positions.flatten(), true),
        0 <= i < j < positions.len(),
        positions[i].len() > 0,
        positions[j].len() > 0,
        forall|a: int, k: int| 0 <= a < positions.len() && 0 <= k < positions[a].len() ==>
            #[trigger] positions[a][k] < u32::MAX,
    ensures
        offset_of_positions(positions[i])->0.end <= offset_of_positions(positions[j])->0.begin,
{
    let flat = positions.flatten();
    let front = positions.take(j);
    assert(positions =~= front + positions.skip(j));
    lemma_flatten_concat(front, positions.skip(j));
    assert(positions.skip(j).flatten() == positions.skip(j).first() +
        positions.skip(j).drop_first().flatten());
    let inner = front.take(i);
    assert(front =~= inner + front.skip(i));
    lemma_flatten_concat(inner, front.skip(i));
    assert(front.skip(i).flatten() == front.skip(i).first() + front.skip(i).drop_first().flatten());
    let at_i = inner.flatten().len() + positions[i].len() - 1;
    let at_j = front.flatten().len() as int;
    assert(front.skip(i).first() == positions[i]);
    assert(positions.skip(j).first() == positions[j]);
    assert(flat[at_i] == positions[i].last());
    assert(flat[at_j] == positions[j].first());
    assert(at_i < at_j);
}

/// Where the positions of tokens go up from each to the next, the spans
/// that run from the first position of each token to just behind its last
/// lie apart.
pub proof fn lemma_all_spans_apart(positions: Seq<Seq<OffsetSize>>)
    requires
        in_order(positions.flatten(), true),
        forall|a: int, k: int|
            0 <= a < positions.len() && 0 <= k < positions[a].len() ==> #[trigger] positions[a][k]
                < u32::MAX,
    ensures
        spans_apart(Seq::new(positions.len(), |i: int| offset_of_positions(positions[i]))),
{
    let offsets = Seq::new(positions.len(), |i: int| offset_of_positions(positions[i]));
    assert forall|i: int, j: int|
        0 <= i < j < offsets.len() && (#[trigger] offsets[i]) is Some && (
        #[trigger] offsets[j]) is Some implies offsets[i]->0.end <= offsets[j]->0.begin by {
        lemma_spans_apart(positions, i, j);
    }
}

/// The spans at which the pieces of a part were cut: those of the
/// segmentation where the part was segmented, and the whole part otherwise.
pub open spec fn spans_of_pieces(pieces: Seq<TokenView>, parent: TokenView, segmented: bool) -> Seq<
    SpanView,
> {
    if segmented && parent.mask == Mask::Plain {
        choose|spans: Seq<SpanView>|
            {
                &&& spans_ordered(spans, parent.text.len() as int)
                &&& forall|i: int| 0 <= i < spans.len() ==>
                    (#[trigger] spans[i]).mask == Mask::Plain
                &&& pieces == #[trigger] sub_tokens(parent, spans)
            }
    } else {
        seq![SpanView { begin: 0, end: parent.text.len() as int, mask: parent.mask }]
    }
}

/// Whether the pieces hold the stretches of the text and of the positions
/// of a parent at the given spans, which lie in order.
pub open spec fn stretches_of(
    pieces: Seq<TokenView>,
    parent: TokenView,
    spans: Seq<SpanView>,
) -> bool {
    &&& parent.is_aligned()
    &&& positions_bounded(seq![parent])
    &&& spans.len() == pieces.len()
    &&& spans_ordered(spans, parent.text.len() as int)
    &&& forall|j: int|
        0 <= j < pieces.len() ==> {
            &&& (#[trigger] pieces[j]).is_aligned()
            &&& pieces[j].reference_offsets == parent.reference_offsets.subrange(
                spans[j].begin,
                spans[j].end,
            )
            &&& pieces[j].text == parent.text.subrange(spans[j].begin, spans[j].end)
        }
}

/// The place up to which the positions of a parent are used up when the
/// first `count` spans are done.
pub open spec fn frontier(spans: Seq<SpanView>, count: int) -> int {
    if count <= 0 {
        0
    } else {
        spans[count - 1].end
    }
}

/// The positions of a single token respect the bound that they respect.
pub proof fn lemma_single_bounded(token: TokenView)
    ensures
        positions_bounded(seq![token]) <==> forall|k: int|
            0 <= k < token.reference_offsets.len() ==> #[trigger] token.reference_offsets[k]
                < u32::MAX,
{
    if positions_bounded(seq![token]) {
        assert forall|k: int| 0 <= k < token.reference_offsets.len() implies
            #[trigger] token.reference_offsets[k] < u32::MAX by {
            assert(seq![token][0].reference_offsets[k] < u32::MAX);
        }
    }
}

/// The pieces of a part hold stretches of the part.
pub proof fn lemma_pieces_of_part(pieces: Seq<TokenView>, parent: TokenView, segmented: bool)
    requires
        parent.is_aligned(),
        positions_bounded(seq![parent]),
        segmented && parent.mask == Mask::Plain ==> cut_in_order(pieces, parent),
        !(segmented && parent.mask == Mask::Plain) ==> pieces == seq![parent],
    ensures
        stretches_of(pieces, parent, spans_of_pieces(pieces, parent, segmented)),
{
    let spans = spans_of_pieces(pieces, parent, segmented);
    if segmented && parent.mask == Mask::Plain {
        assert(sub_tokens(parent, spans).len() == spans.len());
        assert forall|j: int| 0 <= j < pieces.len() implies {
            &&& (#[trigger] pieces[j]).is_aligned()
            &&& pieces[j].reference_offsets == parent.reference_offsets.subrange(
                spans[j].begin,
                spans[j].end,
            )
            &&& pieces[j].text == parent.text.subrange(spans[j].begin, spans[j].end)
        } by {
            assert(0 <= spans[j].begin <= spans[j].end <= parent.text.len());
        }
    } else {
        assert(parent.reference_offsets.subrange(0, parent.reference_offsets.len() as int)
            =~= parent.reference_offsets);
        assert(parent.text.subrange(0, parent.text.len() as int) =~= parent.text);
    }
}

/// Merging the next piece of a part keeps the positions in line: the
/// positions so far, followed by those of the tokens that the piece is
/// merged into, follow the positions of the part up to the end of the
/// piece. The tokens of the piece are aligned and their positions bounded.
pub proof fn lemma_stretch_merged(
    so_far: Seq<OffsetSize>,
    pieces: Seq<TokenView>,
    parent: TokenView,
    spans: Seq<SpanView>,
    index: int,
    ranks: Map<PiecePair, i64>,
)
    requires
        stretches_of(pieces, parent, spans),
        0 <= index < pieces.len(),
        follows(
            so_far,
            parent.reference_offsets,
            frontier(spans, index),
            is_ascii_chars(parent.text),
        ),
    ensures
        pieces[index].is_aligned(),
        forall|k: int|
            0 <= k < pieces[index].reference_offsets.len()
                ==> #[trigger] pieces[index].reference_offsets[k] < u32::MAX,
        positions_bounded(merged_tokens(pieces[index], ranks, true)),
        all_aligned(merged_tokens(pieces[index], ranks, true)),
        follows(
            so_far + all_positions(merged_tokens(pieces[index], ranks, true)),
            parent.reference_offsets,
            frontier(spans, index + 1),
            is_ascii_chars(parent.text),
        ),
{
    let piece = pieces[index];
    let span = spans[index];
    let source = parent.reference_offsets;
    let apart = is_ascii_chars(parent.text);
    assert(0 <= span.begin <= span.end <= parent.text.len());
    if index > 0 {
        assert(spans[index - 1].end <= spans[index].begin);
    }
    lemma_single_bounded(parent);
    assert forall|k: int| 0 <= k < piece.reference_offsets.len() implies
        #[trigger] piece.reference_offsets[k] < u32::MAX by {
        assert(piece.reference_offsets[k] == source[span.begin + k]);
    }
    lemma_merged_bounded(piece, ranks, true);
    lemma_merged_aligned(piece, ranks, true);
    lemma_merged_follows(piece, ranks, true);
    lemma_stretch_follows(source, span.begin, span.end);
    let fresh = all_positions(merged_tokens(piece, ranks, true));
    lemma_drawn_from_stretch(fresh, source, span.begin, span.end);
    if apart {
        assert(is_ascii_chars(piece.text)) by {
            assert forall|k: int| 0 <= k < piece.text.len() implies '\0' <= #[trigger] piece.text[k]
                <= '\u{7f}' by {
                assert(piece.text[k] == parent.text[span.begin + k]);
            }
        }
    }
    lemma_follows_append(so_far, fresh, source, frontier(spans, index), span.begin, span.end,
        apart);
}

/// Positions that follow a source up to some place follow it up to its end.
pub proof fn lemma_follows_to_end(
    positions: Seq<OffsetSize>,
    source: Seq<OffsetSize>,
    upto: int,
    apart: bool,
)
    requires
        follows(positions, source, upto, apart),
    ensures
        follows(positions, source, source.len() as int, apart),
{
    assert forall|k: int| 0 <= k < positions.len() implies occurs(
        source,
        0,
        source.len() as int,
        #[trigger] positions[k],
    ) by {
        assert(occurs(source, 0, upto, positions[k]));
    }
}

/// The positions of merged tokens respect the bound that the positions of
/// the pre-token respect.
pub proof fn lemma_merged_bounded(token: TokenView, ranks: Map<PiecePair, i64>, as_bytes: bool)
    requires
        token.is_aligned(),
        forall|i: int| 0 <= i < token.reference_offsets.len() ==>
            #[trigger] token.reference_offsets[i] < u32::MAX,
    ensures
        positions_bounded(merged_tokens(token, ranks, as_bytes)),
{
    let input = merge_input(token, as_bytes);
    let pieces = bpe_pieces(input.0, ranks);
    let tokens = merged_tokens(token, ranks, as_bytes);
    lemma_bpe_pieces(input.0, ranks);
    if as_bytes {
        lemma_byte_char_indices(token.text);
    }
    assert forall|i: int| 0 <= i < input.1.len() implies #[trigger] input.1[i] < u32::MAX by {}
    assert forall|j: int, k: int|
        0 <= j < tokens.len() && 0 <= k < tokens[j].reference_offsets.len() implies
            #[trigger] tokens[j].reference_offsets[k]
        < u32::MAX by {
        lemma_piece_start(pieces, j);
        let start = piece_start(pieces, j);
        assert(tokens[j].reference_offsets[k] == input.1[start + k]);
    }
}

/// A part that is cut from a text at one of the spans holds a stretch of
/// the text: it is aligned, its offset leaves room for its characters, and
/// its positions are bounded as those of the text are.
pub proof fn lemma_part_of_text(parent: TokenView, spans: Seq<SpanView>, index: int)
    requires
        can_be_cut(parent),
        positions_bounded(seq![parent]),
        spans_ordered(spans, parent.text.len() as int),
        0 <= index < spans.len(),
    ensures
        sub_token(parent, spans[index]).is_aligned(),
        sub_token(parent, spans[index]).offset.begin + sub_token(parent, spans[index]).text.len()
            <= u32::MAX,
        positions_bounded(seq![sub_token(parent, spans[index])]),
{
    let span = spans[index];
    let part = sub_token(parent, span);
    assert(0 <= span.begin <= span.end <= parent.text.len());
    lemma_single_bounded(parent);
    assert forall|k: int| 0 <= k < part.reference_offsets.len() implies
        #[trigger] part.reference_offsets[k] < u32::MAX by {
        assert(part.reference_offsets[k] == parent.reference_offsets[span.begin + k]);
    }
    lemma_single_bounded(part);
}

/// The tokens of the next part of a text keep the positions in line: the
/// positions so far, followed by the positions of the tokens of the part,
/// follow the positions of the text up to the end of the part.
pub proof fn lemma_part_done(
    so_far: Seq<OffsetSize>,
    added: Seq<OffsetSize>,
    parent: TokenView,
    spans: Seq<SpanView>,
    index: int,
    lower_case: bool,
)
    requires
        can_be_cut(parent),
        spans_ordered(spans, parent.text.len() as int),
        0 <= index < spans.len(),
        follows(
            so_far,
            parent.reference_offsets,
            frontier(spans, index),
            !lower_case && is_ascii_chars(parent.text),
        ),
        follows(
            added,
            sub_token(parent, spans[index]).reference_offsets,
            sub_token(parent, spans[index]).reference_offsets.len() as int,
            !lower_case && is_ascii_chars(sub_token(parent, spans[index]).text),
        ) || follows(
            added,
            sub_token(parent, spans[index]).reference_offsets,
            sub_token(parent, spans[index]).reference_offsets.len() as int,
            true,
        ),
    ensures
        follows(
            so_far + added,
            parent.reference_offsets,
            frontier(spans, index + 1),
            !lower_case && is_ascii_chars(parent.text),
        ),
{
    let span = spans[index];
    let part = sub_token(parent, span);
    let source = parent.reference_offsets;
    let apart = !lower_case && is_ascii_chars(parent.text);
    assert(0 <= span.begin <= span.end <= parent.text.len());
    if index > 0 {
        assert(spans[index - 1].end <= spans[index].begin);
    }
    lemma_stretch_follows(source, span.begin, span.end);
    lemma_drawn_from_stretch(added, source, span.begin, span.end);
    if apart {
        assert(is_ascii_chars(part.text)) by {
            assert forall|k: int| 0 <= k < part.text.len() implies '\0' <= #[trigger] part.text[k]
                <= '\u{7f}' by {
                assert(part.text[k] == parent.text[span.begin + k]);
            }
        }
    }
    lemma_follows_append(so_far, added, source, frontier(spans, index), span.begin, span.end,
        apart);
}

/// Tokens that differ from others in their masks only are aligned and
/// bounded as those are, and hold the same positions.
pub proof fn lemma_masks_only(before: Seq<TokenView>, after: Seq<TokenView>)
    requires
        before.len() == after.len(),
        forall|i: int|
            0 <= i < before.len() ==> (#[trigger] after[i]) == (TokenView {
                mask: after[i].mask,
                ..before[i]
            }),
        positions_bounded(before),
        all_aligned(before),
    ensures
        positions_bounded(after),
        all_aligned(after),
        all_positions(after) == all_positions(before),
{
    assert forall|i: int, k: int|
        0 <= i < after.len() && 0 <= k < after[i].reference_offsets.len() implies
        #[trigger] after[i].reference_offsets[k] < u32::MAX by {
        assert(before[i].reference_offsets[k] < u32::MAX);
    }
    assert forall|i: int| 0 <= i < after.len() implies (#[trigger] after[i]).is_aligned() by {
        assert(before[i].is_aligned());
    }
    lemma_same_positions(after, before);
}

} // verus!
