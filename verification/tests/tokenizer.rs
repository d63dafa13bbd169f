use gpt2_tokenizer::error::TokenizerError;
use gpt2_tokenizer::tokenizer::encoding::{clean_up, encode_tokens};
use gpt2_tokenizer::tokenizer::{Gpt2Tokenizer, LockState, Tokenizer, TruncationStrategy};
use gpt2_tokenizer::vocab::{BpePairVocab, Gpt2Vocab, Vocab};
use gpt2_tokenizer::{Mask, Offset, TokenIdsWithOffsets, TokenRef, TokensWithOffsets};

const VOCAB: &str = "{\"a\":0,\"b\":1,\"ab\":2,\"<|endoftext|>\":3,\"\u{120}\":4,\"\u{120}ab\":5,\"\u{c3}\u{a9}\":6,\"\u{c3}\":7}";
const MERGES: &str = "#version: 0.2\na b\n\u{120} ab\n\u{c3} \u{a9}\n";

fn tokenizer(lower_case: bool) -> Gpt2Tokenizer {
    let vocab = Gpt2Vocab::from_cache(VOCAB).unwrap();
    let merges = BpePairVocab::from_cache(MERGES).unwrap();
    Gpt2Tokenizer::from_existing_vocab_and_merges(vocab, merges, lower_case).unwrap()
}

fn strings(items: &[&str]) -> Vec<String> {
    items.iter().map(|s| s.to_string()).collect()
}

#[test]
fn a_merged_word_is_one_token() {
    let mut gpt2 = tokenizer(false);
    let tokens = gpt2.tokenize_with_offsets("ab");
    assert_eq!(tokens.tokens, strings(&["ab"]));
    assert_eq!(tokens.offsets, vec![Some(Offset { begin: 0, end: 2 })]);
    assert_eq!(tokens.reference_offsets, vec![vec![0, 1]]);
    assert_eq!(tokens.masks, vec![Mask::Plain]);
    let encoded = gpt2.encode("ab", None, 128, &TruncationStrategy::LongestFirst, 0).unwrap();
    assert_eq!(encoded.token_ids, vec![2]);
    assert_eq!(encoded.segment_ids, vec![0]);
    assert_eq!(encoded.special_tokens_mask, vec![0]);
    assert_eq!(encoded.num_truncated_tokens, 0);
    assert!(encoded.overflowing_tokens.is_empty());
}

#[test]
fn the_end_of_text_marker_is_one_token() {
    let mut gpt2 = tokenizer(false);
    let tokens = gpt2.tokenize_with_offsets("<|endoftext|>");
    assert_eq!(tokens.tokens, strings(&["<|endoftext|>"]));
    assert_eq!(tokens.masks, vec![Mask::Unknown]);
    assert_eq!(tokens.offsets, vec![Some(Offset { begin: 0, end: 13 })]);
    let encoded =
        gpt2.encode("<|endoftext|>", None, 128, &TruncationStrategy::LongestFirst, 0).unwrap();
    assert_eq!(encoded.token_ids, vec![3]);
    assert!(gpt2.decode_to_vec(&[3], true).is_empty());
    assert_eq!(gpt2.decode_to_vec(&[3], false), strings(&["<|endoftext|>"]));
}

#[test]
fn a_special_token_that_is_not_the_unknown_one_is_masked_special() {
    let mut gpt2 = tokenizer(false);
    gpt2.add_tokens(&["<sep>"]);
    let tokens = gpt2.tokenize_with_offsets("ab<sep>ab");
    assert_eq!(tokens.tokens, strings(&["ab", "<sep>", "ab"]));
    assert_eq!(tokens.masks, vec![Mask::Plain, Mask::Special, Mask::Plain]);
    assert_eq!(gpt2.convert_tokens_to_ids(&tokens.tokens), vec![2, 8, 2]);
    assert_eq!(gpt2.decode_to_vec(&[2, 8, 2], true), strings(&["ab", "ab"]));
}

#[test]
fn a_leading_space_stays_with_its_word() {
    let mut gpt2 = tokenizer(false);
    let tokens = gpt2.tokenize_with_offsets("ab ab  b");
    assert_eq!(tokens.tokens, strings(&["ab", "\u{120}ab", "\u{120}", "\u{120}", "b"]));
    assert_eq!(
        tokens.offsets,
        vec![
            Some(Offset { begin: 0, end: 2 }),
            Some(Offset { begin: 2, end: 5 }),
            Some(Offset { begin: 5, end: 6 }),
            Some(Offset { begin: 6, end: 7 }),
            Some(Offset { begin: 7, end: 8 }),
        ]
    );
    assert_eq!(
        tokens.masks,
        vec![Mask::Plain, Mask::Plain, Mask::Plain, Mask::Begin, Mask::Continuation]
    );
    assert_eq!(gpt2.tokenize("ab ab  b"), tokens.tokens);
}

#[test]
fn a_text_of_whitespace_has_no_tokens() {
    let mut gpt2 = tokenizer(false);
    for text in ["", " ", " \t\n "] {
        let tokens = gpt2.tokenize_with_offsets(text);
        assert!(tokens.tokens.is_empty());
        assert!(tokens.offsets.is_empty());
        assert!(tokens.reference_offsets.is_empty());
        assert!(tokens.masks.is_empty());
        let encoded = gpt2.encode(text, None, 4, &TruncationStrategy::DoNotTruncate, 0).unwrap();
        assert!(encoded.token_ids.is_empty());
    }
}

#[test]
fn lower_case_is_folded_before_merging() {
    let mut folding = tokenizer(true);
    assert_eq!(folding.tokenize("AB Ab"), strings(&["ab", "\u{120}ab"]));
    let mut keeping = tokenizer(false);
    assert_eq!(keeping.tokenize("AB"), strings(&["A", "B"]));
}

#[test]
fn encoding_and_decoding_give_the_text_back() {
    let mut gpt2 = tokenizer(false);
    let text = "ab ab é";
    let encoded = gpt2.encode(text, None, 128, &TruncationStrategy::LongestFirst, 0).unwrap();
    assert_eq!(encoded.token_ids, vec![2, 5, 4, 6]);
    assert_eq!(
        encoded.token_offsets,
        vec![
            Some(Offset { begin: 0, end: 2 }),
            Some(Offset { begin: 2, end: 5 }),
            Some(Offset { begin: 5, end: 6 }),
            Some(Offset { begin: 6, end: 7 }),
        ]
    );
    assert_eq!(encoded.reference_offsets, vec![vec![0, 1], vec![2, 3, 4], vec![5], vec![6, 6]]);
    assert_eq!(encoded.mask, vec![Mask::Plain, Mask::Plain, Mask::Begin, Mask::Continuation]);
    assert_eq!(gpt2.decode(&encoded.token_ids, false, false), text);
}

#[test]
fn a_token_that_the_vocabulary_lacks_is_encoded_as_unknown() {
    let mut gpt2 = tokenizer(false);
    let encoded = gpt2.encode("ab c", None, 128, &TruncationStrategy::LongestFirst, 0).unwrap();
    assert_eq!(encoded.token_ids, vec![2, 4, 3]);
    assert_eq!(gpt2.decode(&encoded.token_ids, false, false), "ab <|endoftext|>");
    assert_eq!(gpt2.decode(&encoded.token_ids, true, false), "ab ");
}

#[test]
fn an_encoding_holds_at_most_the_maximum_number_of_tokens() {
    let mut gpt2 = tokenizer(false);
    let text = "ab ab ab ab ab";
    for max_len in 0..7 {
        let encoded =
            gpt2.encode(text, None, max_len, &TruncationStrategy::LongestFirst, 0).unwrap();
        assert_eq!(encoded.token_ids.len(), max_len.min(5));
        assert_eq!(encoded.token_ids.len() + encoded.num_truncated_tokens, 5);
        assert_eq!(encoded.overflowing_tokens.len(), encoded.num_truncated_tokens);
        assert_eq!(encoded.segment_ids.len(), encoded.token_ids.len());
        assert_eq!(encoded.special_tokens_mask.len(), encoded.token_ids.len());
        assert_eq!(encoded.token_offsets.len(), encoded.token_ids.len());
        assert_eq!(encoded.reference_offsets.len(), encoded.token_ids.len());
        assert_eq!(encoded.mask.len(), encoded.token_ids.len());
    }
    let encoded = gpt2.encode(text, None, 2, &TruncationStrategy::LongestFirst, 1).unwrap();
    assert_eq!(encoded.token_ids, vec![2, 5]);
    assert_eq!(encoded.overflowing_tokens, vec![5, 5, 5, 5]);
    assert_eq!(encoded.num_truncated_tokens, 3);
}

#[test]
fn a_pair_is_encoded_into_two_segments() {
    let mut gpt2 = tokenizer(false);
    let encoded =
        gpt2.encode("ab ab", Some("b a ab"), 4, &TruncationStrategy::LongestFirst, 0).unwrap();
    assert_eq!(encoded.token_ids, vec![2, 5, 1, 4]);
    assert_eq!(encoded.segment_ids, vec![0, 0, 1, 1]);
    assert_eq!(encoded.special_tokens_mask, vec![0, 0, 0, 0]);
    assert_eq!(encoded.num_truncated_tokens, 2);
    assert_eq!(encoded.overflowing_tokens, vec![0, 5]);
    assert_eq!(
        encoded.token_offsets,
        vec![
            Some(Offset { begin: 0, end: 2 }),
            Some(Offset { begin: 2, end: 5 }),
            Some(Offset { begin: 0, end: 1 }),
            Some(Offset { begin: 1, end: 2 }),
        ]
    );
}

#[test]
fn a_strategy_that_cannot_remove_enough_fails() {
    let mut gpt2 = tokenizer(false);
    for (second, strategy) in [
        (None, TruncationStrategy::DoNotTruncate),
        (None, TruncationStrategy::OnlySecond),
        (Some("ab"), TruncationStrategy::OnlySecond),
        (Some("ab ab ab ab"), TruncationStrategy::OnlyFirst),
    ] {
        match gpt2.encode("ab ab ab", second, 1, &strategy, 0) {
            Err(TokenizerError::ValueError(message)) => assert!(!message.is_empty()),
            other => panic!("expected a value error, got {:?}", other),
        }
    }
}

#[test]
fn lists_are_encoded_text_by_text() {
    let mut gpt2 = tokenizer(false);
    let encoded = gpt2.encode_list(&["ab", "ab ab", ""], 1, &TruncationStrategy::LongestFirst, 0).unwrap();
    let ids: Vec<Vec<i64>> = encoded.iter().map(|e| e.token_ids.clone()).collect();
    assert_eq!(ids, vec![vec![2], vec![2], vec![]]);
    let pairs = gpt2
        .encode_pair_list(&[("ab", "b"), ("a", "ab ab")], 8, &TruncationStrategy::LongestFirst, 0)
        .unwrap();
    let ids: Vec<Vec<i64>> = pairs.iter().map(|e| e.token_ids.clone()).collect();
    assert_eq!(ids, vec![vec![2, 1], vec![0, 2, 5]]);
    assert!(gpt2.encode_list(&["ab ab"], 1, &TruncationStrategy::DoNotTruncate, 0).is_err());
    assert_eq!(gpt2.tokenize_list(&["ab", " "]), vec![strings(&["ab"]), strings(&[])]);
    let with_offsets = gpt2.tokenize_list_with_offsets(&["ab ab"]);
    assert_eq!(with_offsets.len(), 1);
    assert_eq!(with_offsets[0].tokens, strings(&["ab", "\u{120}ab"]));
}

#[test]
fn the_cache_does_not_change_the_tokens() {
    let text = "ab ab ab b";
    let mut plain = tokenizer(false);
    let expected = plain.tokenize_with_offsets(text);
    assert_eq!(plain.cache.len(), 3);
    let again = plain.tokenize_with_offsets(text);
    assert_eq!(again.tokens, expected.tokens);
    assert_eq!(again.reference_offsets, expected.reference_offsets);
    for lock in [LockState::Shared, LockState::Exclusive] {
        let mut contended = tokenizer(false);
        contended.cache.set_lock(lock);
        let tokens = contended.tokenize_with_offsets(text);
        assert_eq!(tokens.tokens, expected.tokens);
        assert_eq!(tokens.offsets, expected.offsets);
        assert_eq!(tokens.masks, expected.masks);
        assert_eq!(contended.cache.len(), 0);
    }
}

#[test]
fn tokens_of_the_byte_level_alphabet_become_text() {
    let gpt2 = tokenizer(false);
    assert_eq!(gpt2.convert_tokens_to_string(strings(&["\u{120}ab", "ab"])), " abab");
    assert_eq!(gpt2.convert_tokens_to_string(strings(&["\u{c3}\u{a9}"])), "é");
    assert_eq!(gpt2.convert_tokens_to_string(strings(&["\u{c3}"])), "\u{fffd}");
    assert_eq!(gpt2.convert_tokens_to_string(strings(&["\u{10a}a\u{10a}"])), "\na\n");
    assert_eq!(gpt2.convert_tokens_to_string(strings(&[" a b ", "c "])), "a b c");
    assert_eq!(gpt2.convert_tokens_to_string(strings(&["ab ##", "cd"])), "abcd");
    assert_eq!(gpt2.convert_tokens_to_string(strings(&["\u{20ac}"])), "€");
    assert_eq!(gpt2.convert_tokens_to_string(vec![]), "");
}

#[test]
fn traces_of_tokenization_are_cleaned_up() {
    let gpt2 = tokenizer(false);
    assert_eq!(
        gpt2.clean_up_tokenization("Hello , world ! I do not know .".to_string()),
        "Hello, world! I don't know."
    );
    assert_eq!(
        clean_up("He 's sure ? They 're here , I 'm not , we 've gone . It is n't ' so '"),
        "He's sure? They're here, I'm not, we've gone. It isn't'so '"
    );
    assert_eq!(clean_up(""), "");
}

#[test]
fn ids_are_decoded_list_by_list() {
    let gpt2 = tokenizer(false);
    assert_eq!(gpt2.decode(&[2, 5, 3], true, true), "ab ab");
    assert_eq!(gpt2.decode(&[], false, true), "");
    assert_eq!(
        gpt2.decode_list(&[vec![2, 5], vec![3], vec![42]], false, false),
        strings(&["ab ab", "<|endoftext|>", "<|endoftext|>"])
    );
}

#[test]
fn sequences_are_joined_without_special_tokens() {
    let gpt2 = tokenizer(false);
    let first = TokenIdsWithOffsets {
        ids: vec![1, 2],
        offsets: vec![None, Some(Offset::new(1, 2))],
        reference_offsets: vec![vec![], vec![1]],
        masks: vec![Mask::Plain, Mask::Begin],
    };
    let second = TokenIdsWithOffsets {
        ids: vec![7],
        offsets: vec![Some(Offset::new(0, 1))],
        reference_offsets: vec![vec![0]],
        masks: vec![Mask::Special],
    };
    let single = gpt2.build_input_with_special_tokens(first.clone(), None);
    assert_eq!(single.token_ids, vec![1, 2]);
    assert_eq!(single.segment_ids, vec![0, 0]);
    assert_eq!(single.special_tokens_mask, vec![0, 0]);
    let joined = gpt2.build_input_with_special_tokens(first, Some(second));
    assert_eq!(joined.token_ids, vec![1, 2, 7]);
    assert_eq!(joined.segment_ids, vec![0, 0, 1]);
    assert_eq!(joined.special_tokens_mask, vec![0, 0, 0]);
    assert_eq!(joined.token_offsets, vec![None, Some(Offset::new(1, 2)), Some(Offset::new(0, 1))]);
    assert_eq!(joined.reference_offsets, vec![vec![], vec![1], vec![0]]);
    assert_eq!(joined.mask, vec![Mask::Plain, Mask::Begin, Mask::Special]);
}

#[test]
fn tokens_are_encoded_without_a_tokenizer() {
    let vocab = Gpt2Vocab::from_cache(VOCAB).unwrap();
    let tokens = TokensWithOffsets {
        tokens: strings(&["ab", "zz", "b"]),
        offsets: vec![Some(Offset::new(0, 2)), Some(Offset::new(2, 4)), Some(Offset::new(4, 5))],
        reference_offsets: vec![vec![0, 1], vec![2, 3], vec![4]],
        masks: vec![Mask::Plain, Mask::Plain, Mask::Plain],
    };
    let encoded =
        encode_tokens(&vocab, tokens, None, 2, &TruncationStrategy::OnlyFirst, 1).unwrap();
    assert_eq!(encoded.token_ids, vec![2, 3]);
    assert_eq!(encoded.overflowing_tokens, vec![3, 1]);
    assert_eq!(encoded.num_truncated_tokens, 1);
    assert_eq!(encoded.mask, vec![Mask::Plain, Mask::Plain]);
    assert_eq!(vocab.token_to_id("zz"), 3);
}

#[test]
fn a_part_of_a_text_is_tokenized_with_its_positions() {
    let mut gpt2 = tokenizer(false);
    let positions = [10u32, 11, 12, 13, 14];
    let tokens = gpt2.tokenize_to_tokens(TokenRef::new("ab ab", &positions));
    let summary: Vec<(&str, Vec<u32>, Offset)> = tokens
        .iter()
        .map(|t| (t.text.as_str(), t.reference_offsets.clone(), t.offset))
        .collect();
    assert_eq!(
        summary,
        vec![
            ("ab", vec![10, 11], Offset { begin: 10, end: 12 }),
            ("\u{120}ab", vec![12, 13, 14], Offset { begin: 12, end: 15 }),
        ]
    );
}

#[test]
fn the_vocabulary_of_a_tokenizer_can_grow() {
    let mut gpt2 = tokenizer(false);
    assert_eq!(gpt2.vocab().values().len(), 8);
    gpt2.add_extra_ids(2);
    assert_eq!(gpt2.vocab().token_to_id("<extra_id_1>"), 9);
    gpt2.vocab_mut().add_tokens(&["more"]);
    assert_eq!(gpt2.tokenize("<extra_id_0>more"), strings(&["<extra_id_0>", "more"]));
}

#[test]
fn the_spans_of_an_ascii_text_lie_apart() {
    let mut gpt2 = tokenizer(false);
    let text = "ab  abba <|endoftext|> a,b ab!";
    let tokens = gpt2.tokenize_with_offsets(text);
    let mut seen = vec![0usize; text.chars().count()];
    let mut last_end = 0u32;
    for (offset, positions) in tokens.offsets.iter().zip(tokens.reference_offsets.iter()) {
        let offset = offset.unwrap();
        assert!(last_end <= offset.begin);
        assert_eq!(positions.first().copied(), Some(offset.begin));
        assert_eq!(positions.last().copied(), Some(offset.end - 1));
        for position in positions {
            seen[*position as usize] += 1;
        }
        last_end = offset.end;
    }
    assert!(seen.iter().all(|count| *count <= 1));
    let kept: usize = seen.iter().sum();
    assert_eq!(kept, text.chars().count() - 1);
    assert_eq!(seen[8], 0);
    for (token, positions) in tokens.tokens.iter().zip(tokens.reference_offsets.iter()) {
        assert_eq!(token.chars().count(), positions.len());
    }
}

#[test]
fn the_bytes_of_a_character_may_stand_in_two_tokens() {
    let mut gpt2 = tokenizer(false);
    let tokens = gpt2.tokenize_with_offsets("\u{20ac}");
    assert_eq!(tokens.tokens, strings(&["\u{e2}", "\u{124}", "\u{ac}"]));
    assert_eq!(tokens.reference_offsets, vec![vec![0], vec![0], vec![0]]);
    assert_eq!(tokens.offsets, vec![Some(Offset { begin: 0, end: 1 }); 3]);
    assert_eq!(tokens.masks, vec![Mask::Begin, Mask::Continuation, Mask::Continuation]);
}

#[test]
fn a_tokenizer_is_built_with_the_patterns_of_the_pre_tokenizer() {
    let gpt2 = tokenizer(true);
    assert_eq!(gpt2.pattern_lookahead.source(), r"\s+\S");
    assert_eq!(
        gpt2.pattern_tokenization.source(),
        r"'s|'t|'re|'ve|'m|'ll|'d| ?\p{L}+| ?\p{N}+| ?[^\s\p{L}\p{N}]+|\s+"
    );
    assert!(gpt2.lower_case);
    assert_eq!(gpt2.cache.len(), 0);
    assert_eq!(gpt2.vocab.get_bos_value(), "<|endoftext|>");
    assert_eq!(gpt2.vocab.get_eos_value(), "<|endoftext|>");
}

#[test]
fn a_pair_is_always_encoded_longest_first() {
    let mut gpt2 = tokenizer(false);
    for max_len in 0..6 {
        let encoded = gpt2
            .encode("ab ab", Some("b a"), max_len, &TruncationStrategy::LongestFirst, 0)
            .unwrap();
        assert_eq!(encoded.token_ids.len(), max_len.min(5));
        assert_eq!(encoded.num_truncated_tokens, 5 - max_len.min(5));
    }
}

#[test]
fn every_character_of_an_ascii_text_is_covered_once() {
    let mut gpt2 = tokenizer(false);
    let text = "ab  abba a,b ab! ";
    let positions: Vec<u32> = (0..text.len() as u32).collect();
    let tokens = gpt2.tokenize_to_tokens(TokenRef::new(text, &positions));
    let all: Vec<u32> = tokens.iter().flat_map(|t| t.reference_offsets.iter().copied()).collect();
    assert_eq!(all, positions);
    assert_eq!(tokens.first().unwrap().offset.begin, 0);
    assert_eq!(tokens.last().unwrap().offset.end, text.len() as u32);
    for token in tokens.iter() {
        assert_eq!(token.offset.begin, token.reference_offsets[0]);
        assert_eq!(token.offset.end, token.reference_offsets[token.reference_offsets.len() - 1] + 1);
    }
    for pair in tokens.windows(2) {
        assert_eq!(pair[0].offset.end, pair[1].offset.begin);
        assert!(!(pair[0].mask == Mask::Plain && pair[1].mask == Mask::Continuation));
    }
    let spelled: String = tokens.iter().map(|t| t.text.as_str()).collect();
    assert_eq!(gpt2.convert_tokens_to_string(vec![spelled]), text);
}

#[test]
fn whitespace_survives_encoding_and_decoding() {
    let mut gpt2 = tokenizer(false);
    let text = " ab  ab \u{e9} ";
    let encoded =
        gpt2.encode(text, None, usize::MAX, &TruncationStrategy::LongestFirst, 0).unwrap();
    assert_eq!(encoded.num_truncated_tokens, 0);
    assert_eq!(encoded.token_ids, vec![5, 4, 5, 4, 6, 4]);
    assert_eq!(gpt2.decode(&encoded.token_ids, false, false).as_bytes(), text.as_bytes());
}
