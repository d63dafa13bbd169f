//! Shortening an encoded sequence or sequence pair by a number of tokens,
//! collecting what was removed together with a window of left context.
use vstd::prelude::*;
use crate::error::TokenizerError;
use crate::tokenizer::base_tokenizer::{
    Mask, Offset, OffsetSize, TokenIdsView, TokenIdsWithOffsets, TruncationStrategy,
};

verus! {

/// The first `n` entries of a column that is in use; a column that is not in
/// use stays empty.
pub open spec fn front_of_column<T>(column: Seq<T>, n: int) -> Seq<T> {
    if column.len() > 0 {
        column.take(n)
    } else {
        column
    }
}

/// The entries of a column that is in use from index `from` on; nothing for
/// a column that is not in use.
pub open spec fn back_of_column<T>(column: Seq<T>, from: int) -> Seq<T> {
    if column.len() > 0 {
        column.skip(from)
    } else {
        column
    }
}

/// Number of retained tokens that are copied in front of the removed ones.
pub open spec fn window_len(retained: int, stride: int) -> int {
    if retained <= stride {
        retained
    } else {
        stride
    }
}

/// A sequence after `removed` tokens were cut from its tail. The positions
/// are cut only where masks are in use.
pub open spec fn cut_tail(sequence: TokenIdsView, removed: nat) -> TokenIdsView
    recommends
        removed <= sequence.ids.len(),
{
    let cutoff = sequence.ids.len() - removed;
    TokenIdsView {
        ids: sequence.ids.take(cutoff),
        offsets: front_of_column(sequence.offsets, cutoff),
        reference_offsets: if sequence.masks.len() > 0 && cutoff
            <= sequence.reference_offsets.len() {
            sequence.reference_offsets.take(cutoff)
        } else {
            sequence.reference_offsets
        },
        masks: front_of_column(sequence.masks, cutoff),
    }
}

/// What overflows when `removed` entries are cut from the tail of a column:
/// the removed entries, preceded by the last `stride` retained ones.
pub open spec fn tail_overflow<T>(column: Seq<T>, len: nat, removed: nat, stride: nat) -> Seq<T>
    recommends
        removed <= len,
{
    let cutoff = len - removed;
    back_of_column(column, cutoff - window_len(cutoff, stride as int))
}

/// A sequence without its last token. Offsets, positions and masks lose
/// their last entry where they have one.
pub open spec fn pop_token(sequence: TokenIdsView) -> TokenIdsView {
    TokenIdsView {
        ids: sequence.ids.drop_last(),
        offsets: if sequence.offsets.len() > 0 {
            sequence.offsets.drop_last()
        } else {
            sequence.offsets
        },
        reference_offsets: if sequence.reference_offsets.len() > 0 {
            sequence.reference_offsets.drop_last()
        } else {
            sequence.reference_offsets
        },
        masks: if sequence.masks.len() > 0 {
            sequence.masks.drop_last()
        } else {
            sequence.masks
        },
    }
}

/// Outcome of removing tokens one at a time from a pair.
pub struct PairCut {
    pub first: TokenIdsView,
    pub second: TokenIdsView,
    /// Removed ids, in the order in which they stood in the sequences.
    pub removed_ids: Seq<i64>,
    /// Offsets of the removed tokens, where offsets are in use.
    pub removed_offsets: Seq<Option<Offset>>,
}

/// Removes `count` tokens from a pair, each from the tail of the sequence that
/// is longer at that moment; when both are equally long the second one loses
/// the token. A token removed later stands before those removed earlier.
pub open spec fn longest_first_cut(first: TokenIdsView, second: TokenIdsView, count: nat) -> PairCut
    decreases count,
{
    if count == 0 {
        PairCut { first, second, removed_ids: seq![], removed_offsets: seq![] }
    } else if first.ids.len() > second.ids.len() {
        let rest = longest_first_cut(pop_token(first), second, (count - 1) as nat);
        PairCut {
            first: rest.first,
            second: rest.second,
            removed_ids: rest.removed_ids.push(first.ids.last()),
            removed_offsets: if first.offsets.len() > 0 {
                rest.removed_offsets.push(first.offsets.last())
            } else {
                rest.removed_offsets
            },
        }
    } else {
        let rest = longest_first_cut(first, pop_token(second), (count - 1) as nat);
        PairCut {
            first: rest.first,
            second: rest.second,
            removed_ids: rest.removed_ids.push(second.ids.last()),
            removed_offsets: if second.offsets.len() > 0 {
                rest.removed_offsets.push(second.offsets.last())
            } else {
                rest.removed_offsets
            },
        }
    }
}

/// Whether the strategy can remove `count` tokens from the given sequences.
pub open spec fn can_truncate(
    first: TokenIdsView,
    second: Option<TokenIdsView>,
    count: nat,
    strategy: TruncationStrategy,
) -> bool {
    count == 0 || match second {
        Some(second) => match strategy {
            TruncationStrategy::LongestFirst => first.ids.len() + second.ids.len() >= count,
            TruncationStrategy::OnlyFirst => first.ids.len() >= count,
            TruncationStrategy::OnlySecond => second.ids.len() >= count,
            TruncationStrategy::DoNotTruncate => false,
        },
        None => first.ids.len() >= count && (strategy == TruncationStrategy::LongestFirst
            || strategy == TruncationStrategy::OnlyFirst),
    }
}

/// Outcome of a truncation.
pub struct Truncated {
    pub first: TokenIdsView,
    pub second: Option<TokenIdsView>,
    pub overflow_ids: Seq<i64>,
    pub overflow_offsets: Seq<Option<Offset>>,
}

/// What a truncation that can be carried out yields.
pub open spec fn truncated(
    first: TokenIdsView,
    second: Option<TokenIdsView>,
    count: nat,
    strategy: TruncationStrategy,
    stride: nat,
) -> Truncated
    recommends
        can_truncate(first, second, count, strategy),
{
    if count == 0 {
        Truncated { first, second, overflow_ids: seq![], overflow_offsets: seq![] }
    } else if second is Some && strategy == TruncationStrategy::LongestFirst {
        let cut = longest_first_cut(first, second->0, count);
        let kept = cut.first.ids.len();
        let window = window_len(kept as int, stride as int);
        Truncated {
            first: cut.first,
            second: Some(cut.second),
            overflow_ids: cut.first.ids.skip(kept - window) + cut.removed_ids,
            overflow_offsets: back_of_column(cut.first.offsets, kept - window)
                + cut.removed_offsets,
        }
    } else if second is Some && strategy == TruncationStrategy::OnlySecond {
        let second = second->0;
        Truncated {
            first,
            second: Some(cut_tail(second, count)),
            overflow_ids: tail_overflow(second.ids, second.ids.len(), count, stride),
            overflow_offsets: tail_overflow(second.offsets, second.ids.len(), count, stride),
        }
    } else {
        Truncated {
            first: cut_tail(first, count),
            second,
            overflow_ids: tail_overflow(first.ids, first.ids.len(), count, stride),
            overflow_offsets: tail_overflow(first.offsets, first.ids.len(), count, stride),
        }
    }
}

/// The views of an optional sequence.
pub open spec fn view_of_option(sequence: Option<TokenIdsWithOffsets>) -> Option<TokenIdsView> {
    match sequence {
        Some(s) => Some(s@),
        None => None,
    }
}

/// Cuts `num_tokens_to_remove` tokens from the tail of a sequence given
/// column by column, and returns the removed ids and offsets, each preceded
/// by the last `stride` entries that stay.
pub fn truncate_with_overflow(
    sequence: &mut Vec<i64>,
    offsets: &mut Vec<Option<Offset>>,
    original_positions: &mut Vec<Vec<OffsetSize>>,
    mask: &mut Vec<Mask>,
    num_tokens_to_remove: usize,
    stride: usize,
) -> (r: (Vec<i64>, Vec<Option<Offset>>))
    requires
        num_tokens_to_remove <= old(sequence)@.len(),
        old(offsets)@.len() == 0 || old(offsets)@.len() == old(sequence)@.len(),
        old(mask)@.len() == 0 || old(mask)@.len() == old(sequence)@.len(),
    ensures
        (TokenIdsView {
            ids: final(sequence)@,
            offsets: final(offsets)@,
            reference_offsets: final(original_positions).deep_view(),
            masks: final(mask)@,
        }) == cut_tail(
            TokenIdsView {
                ids: old(sequence)@,
                offsets: old(offsets)@,
                reference_offsets: old(original_positions).deep_view(),
                masks: old(mask)@,
            },
            num_tokens_to_remove as nat,
        ),
        r.0@ == tail_overflow(
            old(sequence)@,
            old(sequence)@.len(),
            num_tokens_to_remove as nat,
            stride as nat,
        ),
        r.1@ == tail_overflow(
            old(offsets)@,
            old(sequence)@.len(),
            num_tokens_to_remove as nat,
            stride as nat,
        ),
{
    let ghost ids_before = sequence@;
    let ghost offsets_before = offsets@;
    let ghost positions_before = original_positions.deep_view();
    let cutoff: usize = sequence.len() - num_tokens_to_remove;
    let removed_ids = sequence.split_off(cutoff);
    let removed_offsets = if !offsets.is_empty() {
        offsets.split_off(cutoff)
    } else {
        Vec::new()
    };
    if !mask.is_empty() {
        mask.truncate(cutoff);
        original_positions.truncate(cutoff);
        assert(original_positions.deep_view() =~= if cutoff <= positions_before.len() {
            positions_before.take(cutoff as int)
        } else {
            positions_before
        });
    }
    let window: usize = if sequence.len() <= stride {
        sequence.len()
    } else {
        stride
    };
    let mut overflow_ids: Vec<i64> = Vec::new();
    let mut overflow_offsets: Vec<Option<Offset>> = Vec::new();
    let mut i: usize = cutoff - window;
    while i < cutoff
        invariant
            window <= cutoff,
            cutoff - window <= i <= cutoff,
            cutoff == sequence@.len(),
            sequence@ == ids_before.take(cutoff as int),
            offsets@ == front_of_column(offsets_before, cutoff as int),
            offsets_before.len() == 0 || offsets_before.len() == ids_before.len(),
            cutoff <= ids_before.len(),
            overflow_ids@ == ids_before.subrange(cutoff - window, i as int),
            overflow_offsets@ == if offsets_before.len() > 0 {
                offsets_before.subrange(cutoff - window, i as int)
            } else {
                Seq::<Option<Offset>>::empty()
            },
        decreases cutoff - i,
    {
        overflow_ids.push(sequence[i]);
        if !offsets.is_empty() {
            overflow_offsets.push(offsets[i]);
        }
        i += 1;
        assert(overflow_ids@ =~= ids_before.subrange(cutoff - window, i as int));
        assert(overflow_offsets@ =~= if offsets_before.len() > 0 {
            offsets_before.subrange(cutoff - window, i as int)
        } else {
            Seq::<Option<Offset>>::empty()
        });
    }
    let mut removed_ids = removed_ids;
    let mut removed_offsets = removed_offsets;
    overflow_ids.append(&mut removed_ids);
    overflow_offsets.append(&mut removed_offsets);
    assert(overflow_ids@ =~= ids_before.skip(cutoff - window));
    assert(overflow_offsets@ =~= back_of_column(offsets_before, cutoff - window));
    (overflow_ids, overflow_offsets)
}

/// Removing tokens one at a time keeps a prefix of each sequence, removes
/// exactly `count` ids, and leaves consistent sequences consistent.
pub proof fn lemma_longest_first_cut(first: TokenIdsView, second: TokenIdsView, count: nat)
    requires
        first.ids.len() + second.ids.len() >= count,
    ensures
        ({
            let cut = longest_first_cut(first, second, count);
            &&& cut.first.ids.len() + cut.second.ids.len() + count == first.ids.len()
                + second.ids.len()
            &&& cut.first.ids == first.ids.take(cut.first.ids.len() as int)
            &&& cut.second.ids == second.ids.take(cut.second.ids.len() as int)
            &&& cut.first.ids.len() <= first.ids.len()
            &&& cut.second.ids.len() <= second.ids.len()
            &&& cut.removed_ids.len() == count
            &&& first.is_consistent() ==> cut.first.is_consistent()
            &&& second.is_consistent() ==> cut.second.is_consistent()
            &&& first.is_complete() ==> cut.first.is_complete()
            &&& second.is_complete() ==> cut.second.is_complete()
        }),
    decreases count,
{
    if count == 0 {
        assert(first.ids.take(first.ids.len() as int) =~= first.ids);
        assert(second.ids.take(second.ids.len() as int) =~= second.ids);
    } else if first.ids.len() > second.ids.len() {
        let popped = pop_token(first);
        lemma_longest_first_cut(popped, second, (count - 1) as nat);
        let cut = longest_first_cut(popped, second, (count - 1) as nat);
        assert(popped.ids.take(cut.first.ids.len() as int) =~= first.ids.take(
            cut.first.ids.len() as int,
        ));
    } else {
        let popped = pop_token(second);
        lemma_longest_first_cut(first, popped, (count - 1) as nat);
        let cut = longest_first_cut(first, popped, (count - 1) as nat);
        assert(popped.ids.take(cut.second.ids.len() as int) =~= second.ids.take(
            cut.second.ids.len() as int,
        ));
    }
}

/// A truncation that can be carried out removes exactly `count` ids from the
/// two sequences taken together, and each sequence keeps a prefix of what
/// it held.
pub proof fn lemma_truncated_removes_count(
    first: TokenIdsView,
    second: Option<TokenIdsView>,
    count: nat,
    strategy: TruncationStrategy,
    stride: nat,
)
    requires
        can_truncate(first, second, count, strategy),
    ensures
        ({
            let t = truncated(first, second, count, strategy, stride);
            let before = first.ids.len() + (if second is Some {
                second->0.ids.len()
            } else {
                0
            });
            let after = t.first.ids.len() + (if t.second is Some {
                t.second->0.ids.len()
            } else {
                0
            });
            &&& after + count == before
            &&& (t.second is Some) == (second is Some)
            &&& t.first.ids == first.ids.take(t.first.ids.len() as int)
            &&& second is Some ==> t.second->0.ids == second->0.ids.take(
                t.second->0.ids.len() as int,
            )
            &&& first.is_complete() ==> t.first.is_complete()
            &&& second is Some && second->0.is_complete() ==> t.second->0.is_complete()
        }),
{
    if count == 0 {
        assert(first.ids.take(first.ids.len() as int) =~= first.ids);
        if second is Some {
            assert(second->0.ids.take(second->0.ids.len() as int) =~= second->0.ids);
        }
    } else if second is Some && strategy == TruncationStrategy::LongestFirst {
        lemma_longest_first_cut(first, second->0, count);
    } else if second is Some && strategy == TruncationStrategy::OnlySecond {
        assert(first.ids.take(first.ids.len() as int) =~= first.ids);
    } else {
        if second is Some {
            assert(second->0.ids.take(second->0.ids.len() as int) =~= second->0.ids);
        }
    }
}

/// Removes the last token of a sequence and hands back its id and, where
/// offsets are in use, its offset.
fn pop_last_token(sequence: &mut TokenIdsWithOffsets) -> (r: (i64, Option<Option<Offset>>))
    requires
        old(sequence)@.ids.len() > 0,
    ensures
        final(sequence)@ == pop_token(old(sequence)@),
        r.0 == old(sequence)@.ids.last(),
        r.1 == if old(sequence)@.offsets.len() > 0 {
            Some(old(sequence)@.offsets.last())
        } else {
            None
        },
{
    let ghost positions_before = sequence.reference_offsets.deep_view();
    let id = sequence.ids.pop().unwrap();
    let offset = if !sequence.offsets.is_empty() {
        sequence.offsets.pop()
    } else {
        None
    };
    sequence.reference_offsets.pop();
    assert(sequence.reference_offsets.deep_view() =~= if positions_before.len() > 0 {
        positions_before.drop_last()
    } else {
        positions_before
    });
    if !sequence.masks.is_empty() {
        sequence.masks.pop();
    }
    (id, offset)
}

/// Copies the last `window` entries of a column in front of `removed`.
fn prepend_window<T: Copy>(column: &Vec<T>, window: usize, removed: Vec<T>) -> (r: Vec<T>)
    requires
        window <= column@.len(),
    ensures
        r@ == column@.skip(column@.len() - window) + removed@,
{
    let start: usize = column.len() - window;
    let mut out: Vec<T> = Vec::new();
    let mut i: usize = start;
    while i < column.len()
        invariant
            start <= i <= column@.len(),
            out@ == column@.subrange(start as int, i as int),
        decreases column@.len() - i,
    {
        out.push(column[i]);
        i += 1;
        assert(out@ =~= column@.subrange(start as int, i as int));
    }
    let ghost tail = removed@;
    let mut removed = removed;
    out.append(&mut removed);
    assert(out@ =~= column@.skip(column@.len() - window) + tail) by {
        assert(column@.subrange(start as int, column@.len() as int) =~= column@.skip(
            start as int,
        ));
    }
    out
}

/// Removes `count` tokens from a pair, the longer sequence losing a token
/// first, and collects the removed ids and offsets in their original order.
fn remove_longest_first(
    first: &mut TokenIdsWithOffsets,
    second: &mut TokenIdsWithOffsets,
    count: usize,
) -> (r: (Vec<i64>, Vec<Option<Offset>>))
    requires
        old(first)@.ids.len() + old(second)@.ids.len() >= count,
    ensures
        (PairCut {
            first: final(first)@,
            second: final(second)@,
            removed_ids: r.0@,
            removed_offsets: r.1@,
        }) == longest_first_cut(old(first)@, old(second)@, count as nat),
{
    let ghost first_before = first@;
    let ghost second_before = second@;
    let mut removed_ids: Vec<i64> = Vec::new();
    let mut removed_offsets: Vec<Option<Offset>> = Vec::new();
    let mut done: usize = 0;
    while done < count
        invariant
            done <= count,
            first@.ids.len() + second@.ids.len() >= count - done,
            ({
                let rest = longest_first_cut(first@, second@, (count - done) as nat);
                let all = longest_first_cut(first_before, second_before, count as nat);
                &&& all.first == rest.first
                &&& all.second == rest.second
                &&& all.removed_ids == rest.removed_ids + removed_ids@
                &&& all.removed_offsets == rest.removed_offsets + removed_offsets@
            }),
        decreases count - done,
    {
        let ghost cur_first = first@;
        let ghost cur_second = second@;
        let ghost ids_so_far = removed_ids@;
        let ghost offsets_so_far = removed_offsets@;
        let ghost rest_before = longest_first_cut(cur_first, cur_second, (count - done) as nat);
        let popped = if first.ids.len() > second.ids.len() {
            pop_last_token(first)
        } else {
            pop_last_token(second)
        };
        removed_ids.insert(0, popped.0);
        match popped.1 {
            Some(offset) => {
                removed_offsets.insert(0, offset);
            },
            None => {},
        }
        done += 1;
        proof {
            let rest = longest_first_cut(first@, second@, (count - done) as nat);
            assert(rest_before.removed_ids == rest.removed_ids.push(popped.0));
            assert(rest.removed_ids.push(popped.0) + ids_so_far =~= rest.removed_ids
                + removed_ids@);
            match popped.1 {
                Some(offset) => {
                    assert(rest_before.removed_offsets == rest.removed_offsets.push(offset));
                    assert(rest.removed_offsets.push(offset) + offsets_so_far
                        =~= rest.removed_offsets + removed_offsets@);
                },
                None => {
                    assert(rest_before.removed_offsets == rest.removed_offsets);
                },
            }
        }
    }
    assert(removed_ids@ =~= Seq::<i64>::empty() + removed_ids@);
    assert(removed_offsets@ =~= Seq::<Option<Offset>>::empty() + removed_offsets@);
    (removed_ids, removed_offsets)
}

/// Shortens a sequence, or a pair of sequences, by `num_tokens_to_remove`
/// tokens as the strategy says. Returns the shortened sequences and what
/// overflowed: the removed ids and offsets, preceded by the last `stride`
/// entries that the truncated sequence keeps. Fails when the strategy cannot
/// remove that many tokens.
pub fn truncate_sequences(
    token_ids_with_offsets_1: TokenIdsWithOffsets,
    token_ids_with_offsets_2: Option<TokenIdsWithOffsets>,
    num_tokens_to_remove: usize,
    truncation_strategy: &TruncationStrategy,
    stride: usize,
) -> (r: Result<
    (TokenIdsWithOffsets, Option<TokenIdsWithOffsets>, Vec<i64>, Vec<Option<Offset>>),
    TokenizerError,
>)
    requires
        token_ids_with_offsets_1@.is_consistent(),
        token_ids_with_offsets_2 matches Some(second) ==> second@.is_consistent(),
    ensures
        r is Ok <==> can_truncate(
            token_ids_with_offsets_1@,
            view_of_option(token_ids_with_offsets_2),
            num_tokens_to_remove as nat,
            *truncation_strategy,
        ),
        r matches Ok(out) ==> (Truncated {
            first: out.0@,
            second: view_of_option(out.1),
            overflow_ids: out.2@,
            overflow_offsets: out.3@,
        }) == truncated(
            token_ids_with_offsets_1@,
            view_of_option(token_ids_with_offsets_2),
            num_tokens_to_remove as nat,
            *truncation_strategy,
            stride as nat,
        ),
        r matches Err(e) ==> e is ValueError,
{
    let mut first = token_ids_with_offsets_1;
    if num_tokens_to_remove == 0 {
        return Ok((first, token_ids_with_offsets_2, Vec::new(), Vec::new()));
    }
    match token_ids_with_offsets_2 {
        Some(second_value) => {
            let mut second = second_value;
            match truncation_strategy {
                TruncationStrategy::LongestFirst => {
                    let enough = if first.ids.len() >= num_tokens_to_remove {
                        true
                    } else {
                        second.ids.len() >= num_tokens_to_remove - first.ids.len()
                    };
                    if enough {
                        let ghost second_before = second@;
                        let removed = remove_longest_first(
                            &mut first,
                            &mut second,
                            num_tokens_to_remove,
                        );
                        proof {
                            lemma_longest_first_cut(
                                token_ids_with_offsets_1@,
                                second_before,
                                num_tokens_to_remove as nat,
                            );
                        }
                        let window: usize = if first.ids.len() <= stride {
                            first.ids.len()
                        } else {
                            stride
                        };
                        let overflow_ids = prepend_window(&first.ids, window, removed.0);
                        let overflow_offsets = if !first.offsets.is_empty() {
                            prepend_window(&first.offsets, window, removed.1)
                        } else {
                            assert(Seq::<Option<Offset>>::empty() + removed.1@ =~= removed.1@);
                            removed.1
                        };
                        Ok((first, Some(second), overflow_ids, overflow_offsets))
                    } else {
                        Err(
                            TokenizerError::ValueError(
                                "Combined sequence length too short for requested truncation amount".to_owned(),
                            ),
                        )
                    }
                },
                TruncationStrategy::OnlyFirst => {
                    if first.ids.len() >= num_tokens_to_remove {
                        let overflow = truncate_with_overflow(
                            &mut first.ids,
                            &mut first.offsets,
                            &mut first.reference_offsets,
                            &mut first.masks,
                            num_tokens_to_remove,
                            stride,
                        );
                        Ok((first, Some(second), overflow.0, overflow.1))
                    } else {
                        Err(
                            TokenizerError::ValueError(
                                "First sequence too short for first only truncation".to_owned(),
                            ),
                        )
                    }
                },
                TruncationStrategy::OnlySecond => {
                    if second.ids.len() >= num_tokens_to_remove {
                        let overflow = truncate_with_overflow(
                            &mut second.ids,
                            &mut second.offsets,
                            &mut second.reference_offsets,
                            &mut second.masks,
                            num_tokens_to_remove,
                            stride,
                        );
                        Ok((first, Some(second), overflow.0, overflow.1))
                    } else {
                        Err(
                            TokenizerError::ValueError(
                                "Second sequence too short for second only truncation".to_owned(),
                            ),
                        )
                    }
                },
                TruncationStrategy::DoNotTruncate => Err(
                    TokenizerError::ValueError(
                        "Truncation needed but no truncation requested".to_owned(),
                    ),
                ),
            }
        },
        None => {
            if first.ids.len() >= num_tokens_to_remove {
                match truncation_strategy {
                    TruncationStrategy::LongestFirst | TruncationStrategy::OnlyFirst => {
                        let overflow = truncate_with_overflow(
                            &mut first.ids,
                            &mut first.offsets,
                            &mut first.reference_offsets,
                            &mut first.masks,
                            num_tokens_to_remove,
                            stride,
                        );
                        Ok((first, None, overflow.0, overflow.1))
                    },
                    TruncationStrategy::OnlySecond => Err(
                        TokenizerError::ValueError(
                            "Invalid truncation strategy for single sentence truncation".to_owned(),
                        ),
                    ),
                    TruncationStrategy::DoNotTruncate => Err(
                        TokenizerError::ValueError(
                            "Truncation needed but no truncation requested".to_owned(),
                        ),
                    ),
                }
            } else {
                Err(
                    TokenizerError::ValueError(
                        "First sequence too short for first only truncation".to_owned(),
                    ),
                )
            }
        },
    }
}

} // verus!
