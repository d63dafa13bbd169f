use gpt2_tokenizer::error::TokenizerError;
use gpt2_tokenizer::tokenizer::{truncate_sequences, truncate_with_overflow, TruncationStrategy};
use gpt2_tokenizer::{Mask, Offset, TokenIdsWithOffsets};

fn sequence(ids: Vec<i64>) -> TokenIdsWithOffsets {
    let n = ids.len();
    TokenIdsWithOffsets {
        offsets: (0..n).map(|i| Some(Offset::new(i as u32, i as u32 + 1))).collect(),
        reference_offsets: (0..n).map(|i| vec![i as u32]).collect(),
        masks: vec![Mask::Plain; n],
        ids,
    }
}

fn value_error(result: Result<(TokenIdsWithOffsets, Option<TokenIdsWithOffsets>, Vec<i64>, Vec<Option<Offset>>), TokenizerError>) -> String {
    match result {
        Err(TokenizerError::ValueError(message)) => message,
        other => panic!("expected a value error, got {:?}", other.map(|out| out.2)),
    }
}

#[test]
fn nothing_to_remove_leaves_the_sequences_alone() {
    let out = truncate_sequences(
        sequence(vec![1, 2, 3]),
        Some(sequence(vec![4])),
        0,
        &TruncationStrategy::DoNotTruncate,
        2,
    )
    .unwrap();
    assert_eq!(out.0, sequence(vec![1, 2, 3]));
    assert_eq!(out.1, Some(sequence(vec![4])));
    assert!(out.2.is_empty());
    assert!(out.3.is_empty());
}

#[test]
fn longest_first_on_a_tie_takes_from_the_second_sequence() {
    let out = truncate_sequences(
        sequence(vec![1, 2, 3]),
        Some(sequence(vec![10, 20, 30])),
        3,
        &TruncationStrategy::LongestFirst,
        0,
    )
    .unwrap();
    assert_eq!(out.0.ids, vec![1, 2]);
    assert_eq!(out.0.offsets.len(), 2);
    assert_eq!(out.0.reference_offsets, vec![vec![0], vec![1]]);
    assert_eq!(out.0.masks.len(), 2);
    assert_eq!(out.1.unwrap().ids, vec![10]);
    assert_eq!(out.2, vec![20, 3, 30]);
    assert_eq!(
        out.3,
        vec![Some(Offset::new(1, 2)), Some(Offset::new(2, 3)), Some(Offset::new(2, 3))]
    );
}

#[test]
fn longest_first_takes_from_the_longer_sequence_until_both_are_level() {
    let out = truncate_sequences(
        sequence(vec![1, 2, 3, 4, 5]),
        Some(sequence(vec![10, 20])),
        3,
        &TruncationStrategy::LongestFirst,
        0,
    )
    .unwrap();
    assert_eq!(out.0.ids, vec![1, 2]);
    assert_eq!(out.1.unwrap().ids, vec![10, 20]);
    assert_eq!(out.2, vec![3, 4, 5]);
}

#[test]
fn longest_first_copies_a_window_of_the_first_sequence() {
    let out = truncate_sequences(
        sequence(vec![1, 2, 3, 4]),
        Some(sequence(vec![10])),
        2,
        &TruncationStrategy::LongestFirst,
        5,
    )
    .unwrap();
    assert_eq!(out.0.ids, vec![1, 2]);
    assert_eq!(out.1.unwrap().ids, vec![10]);
    assert_eq!(out.2, vec![1, 2, 3, 4]);
}

#[test]
fn longest_first_fails_when_there_are_too_few_tokens() {
    let message = value_error(truncate_sequences(
        sequence(vec![1]),
        Some(sequence(vec![2])),
        3,
        &TruncationStrategy::LongestFirst,
        0,
    ));
    assert_eq!(message, "Combined sequence length too short for requested truncation amount");
}

#[test]
fn only_first_cuts_the_tail_of_the_first_sequence() {
    let out = truncate_sequences(
        sequence(vec![1, 2, 3, 4, 5]),
        Some(sequence(vec![10, 20])),
        2,
        &TruncationStrategy::OnlyFirst,
        1,
    )
    .unwrap();
    assert_eq!(out.0, sequence(vec![1, 2, 3]));
    assert_eq!(out.1, Some(sequence(vec![10, 20])));
    assert_eq!(out.2, vec![3, 4, 5]);
    assert_eq!(
        out.3,
        vec![Some(Offset::new(2, 3)), Some(Offset::new(3, 4)), Some(Offset::new(4, 5))]
    );
}

#[test]
fn only_first_fails_when_the_first_sequence_is_too_short() {
    let message = value_error(truncate_sequences(
        sequence(vec![1]),
        Some(sequence(vec![10, 20, 30])),
        2,
        &TruncationStrategy::OnlyFirst,
        0,
    ));
    assert_eq!(message, "First sequence too short for first only truncation");
}

#[test]
fn only_second_cuts_the_tail_of_the_second_sequence() {
    let out = truncate_sequences(
        sequence(vec![1, 2]),
        Some(sequence(vec![10, 20, 30])),
        2,
        &TruncationStrategy::OnlySecond,
        0,
    )
    .unwrap();
    assert_eq!(out.0.ids, vec![1, 2]);
    assert_eq!(out.1.unwrap().ids, vec![10]);
    assert_eq!(out.2, vec![20, 30]);
}

#[test]
fn only_second_fails_when_the_second_sequence_is_too_short() {
    let message = value_error(truncate_sequences(
        sequence(vec![1, 2, 3]),
        Some(sequence(vec![10])),
        2,
        &TruncationStrategy::OnlySecond,
        0,
    ));
    assert_eq!(message, "Second sequence too short for second only truncation");
}

#[test]
fn only_second_fails_without_a_second_sequence() {
    let message = value_error(truncate_sequences(
        sequence(vec![1, 2, 3]),
        None,
        1,
        &TruncationStrategy::OnlySecond,
        0,
    ));
    assert_eq!(message, "Invalid truncation strategy for single sentence truncation");
}

#[test]
fn do_not_truncate_fails_when_tokens_have_to_go() {
    let with_pair = value_error(truncate_sequences(
        sequence(vec![1, 2, 3]),
        Some(sequence(vec![10])),
        1,
        &TruncationStrategy::DoNotTruncate,
        0,
    ));
    assert_eq!(with_pair, "Truncation needed but no truncation requested");
    let single = value_error(truncate_sequences(
        sequence(vec![1, 2, 3]),
        None,
        1,
        &TruncationStrategy::DoNotTruncate,
        0,
    ));
    assert_eq!(single, "Truncation needed but no truncation requested");
}

#[test]
fn a_single_sequence_is_cut_at_its_tail() {
    let out = truncate_sequences(
        sequence(vec![1, 2, 3, 4]),
        None,
        3,
        &TruncationStrategy::LongestFirst,
        2,
    )
    .unwrap();
    assert_eq!(out.0, sequence(vec![1]));
    assert!(out.1.is_none());
    assert_eq!(out.2, vec![1, 2, 3, 4]);
}

#[test]
fn a_single_sequence_that_is_too_short_fails() {
    let message = value_error(truncate_sequences(
        sequence(vec![1]),
        None,
        2,
        &TruncationStrategy::LongestFirst,
        0,
    ));
    assert_eq!(message, "First sequence too short for first only truncation");
}

#[test]
fn truncate_with_overflow_leaves_unused_columns_empty() {
    let mut ids = vec![1, 2, 3, 4];
    let mut offsets: Vec<Option<Offset>> = vec![];
    let mut positions: Vec<Vec<u32>> = vec![vec![0], vec![1], vec![2], vec![3]];
    let mut masks: Vec<Mask> = vec![];
    let overflow = truncate_with_overflow(&mut ids, &mut offsets, &mut positions, &mut masks, 1, 1);
    assert_eq!(ids, vec![1, 2, 3]);
    assert!(offsets.is_empty());
    assert!(masks.is_empty());
    assert_eq!(positions.len(), 4);
    assert_eq!(overflow.0, vec![3, 4]);
    assert!(overflow.1.is_empty());
}
