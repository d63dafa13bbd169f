use gpt2_tokenizer::tokenizer::constants::{byte_to_char, char_to_byte};
use gpt2_tokenizer::tokenizer::merging::bytes_offsets;
use gpt2_tokenizer::tokenizer::{
    bpe, fix_mask, get_pairs, group_common_pairs, split_on_bpe_pairs, BpeCache, LockState,
};
use gpt2_tokenizer::vocab::{BpePairRef, BpePairVocab};
use gpt2_tokenizer::{Mask, Offset, Token, TokenRef};

fn strings(items: &[&str]) -> Vec<String> {
    items.iter().map(|s| s.to_string()).collect()
}

fn table(text: &str) -> BpePairVocab {
    BpePairVocab::from_cache(text).unwrap()
}

fn rank(table: &BpePairVocab, first: &str, second: &str) -> Option<i64> {
    let first = first.to_string();
    let second = second.to_string();
    table.byte_pair_to_id(&BpePairRef { byte_1: &first, byte_2: &second }).copied()
}

#[test]
fn the_merge_table_skips_its_header_and_ranks_pairs_by_line() {
    let table = table("#version: 0.2\na b\n  c d  \n\nx\nab c extra\n");
    assert_eq!(rank(&table, "a", "b"), Some(0));
    assert_eq!(rank(&table, "c", "d"), Some(1));
    assert_eq!(rank(&table, "ab", "c"), Some(2));
    assert_eq!(rank(&table, "b", "a"), None);
    assert_eq!(rank(&table, "#version:", "0.2"), None);
    assert_eq!(rank(&table, "x", ""), None);
}

#[test]
fn a_repeated_pair_has_the_rank_of_its_last_line() {
    let table = table("header\na b\nc d\na b");
    assert_eq!(rank(&table, "a", "b"), Some(2));
    assert_eq!(rank(&table, "c", "d"), Some(1));
}

#[test]
fn an_empty_merge_table_holds_no_pair() {
    assert_eq!(rank(&table(""), "a", "b"), None);
    assert_eq!(rank(&table("a b"), "a", "b"), None);
}

#[test]
fn a_pair_can_be_inserted_and_replaced() {
    let mut table = BpePairVocab::new();
    table.insert("a".to_string(), "b".to_string(), 5);
    table.insert("a".to_string(), "c".to_string(), 6);
    table.insert("a".to_string(), "b".to_string(), 7);
    assert_eq!(rank(&table, "a", "b"), Some(7));
    assert_eq!(rank(&table, "a", "c"), Some(6));
    assert_eq!(rank(&table, "c", "a"), None);
}

#[test]
fn pairs_of_neighbours_are_listed_once() {
    let symbols = strings(&["a", "b", "a", "b", "c"]);
    let pairs = get_pairs(&symbols).unwrap();
    let listed: Vec<(String, String)> =
        pairs.iter().map(|p| (p.byte_1.clone(), p.byte_2.clone())).collect();
    assert_eq!(
        listed,
        vec![
            ("a".to_string(), "b".to_string()),
            ("b".to_string(), "a".to_string()),
            ("b".to_string(), "c".to_string()),
        ]
    );
    assert!(get_pairs(&strings(&["a"])).is_none());
    assert!(get_pairs(&strings(&[])).is_none());
}

#[test]
fn a_round_merges_the_pair_of_lowest_rank_everywhere() {
    let table = table("header\nb c\na b\n");
    let round = group_common_pairs(strings(&["a", "b", "c", "b", "c", "b"]), &table);
    assert_eq!(round.0, strings(&["a", "bc", "bc", "b"]));
    assert!(!round.1);
}

#[test]
fn a_round_without_a_ranked_pair_ends_the_merging() {
    let table = table("header\nx y\n");
    let round = group_common_pairs(strings(&["a", "b"]), &table);
    assert_eq!(round.0, strings(&["a", "b"]));
    assert!(round.1);
    let single = group_common_pairs(strings(&["a"]), &table);
    assert_eq!(single.0, strings(&["a"]));
    assert!(single.1);
}

#[test]
fn a_round_that_leaves_one_symbol_ends_the_merging() {
    let table = table("header\na b\n");
    let round = group_common_pairs(strings(&["a", "b"]), &table);
    assert_eq!(round.0, strings(&["ab"]));
    assert!(round.1);
}

#[test]
fn overlapping_occurrences_are_merged_from_the_left() {
    let table = table("header\na a\n");
    let round = group_common_pairs(strings(&["a", "a", "a"]), &table);
    assert_eq!(round.0, strings(&["aa", "a"]));
}

#[test]
fn bpe_merges_until_no_pair_has_a_rank() {
    let table = table("header\nl l\nh e\nhe ll\n");
    let merged = bpe("hello", &table);
    assert_eq!(merged.0, strings(&["hell", "o"]));
    assert_eq!(merged.1, vec![4, 1]);
}

#[test]
fn bpe_of_an_empty_text_has_no_pieces() {
    let merged = bpe("", &table("header\na b\n"));
    assert!(merged.0.is_empty());
    assert!(merged.1.is_empty());
}

#[test]
fn bpe_counts_characters_not_bytes() {
    let merged = bpe("éa", &table("header\né a\n"));
    assert_eq!(merged.0, strings(&["éa"]));
    assert_eq!(merged.1, vec![2]);
}

#[test]
fn every_byte_of_a_character_has_the_index_of_the_character() {
    assert_eq!(bytes_offsets("aé€😀b"), vec![0, 1, 1, 2, 2, 2, 3, 3, 3, 3, 4]);
    assert!(bytes_offsets("").is_empty());
}

#[test]
fn the_byte_level_alphabet_round_trips() {
    assert_eq!(byte_to_char(b'a'), 'a');
    assert_eq!(byte_to_char(b'!'), '!');
    assert_eq!(byte_to_char(b' '), '\u{120}');
    assert_eq!(byte_to_char(b'\n'), '\u{10a}');
    assert_eq!(byte_to_char(0), '\u{100}');
    assert_eq!(byte_to_char(126), '~');
    assert_eq!(byte_to_char(127), '\u{121}');
    assert_eq!(byte_to_char(160), '\u{142}');
    assert_eq!(byte_to_char(161), '\u{a1}');
    assert_eq!(byte_to_char(172), '\u{ac}');
    assert_eq!(byte_to_char(173), '\u{143}');
    assert_eq!(byte_to_char(174), '\u{ae}');
    assert_eq!(byte_to_char(255), '\u{ff}');
    for b in 0..=255u8 {
        assert_eq!(char_to_byte(byte_to_char(b)), Some(b));
    }
    assert_eq!(char_to_byte(' '), None);
    assert_eq!(char_to_byte('\u{144}'), None);
}

#[test]
fn a_pre_token_is_merged_at_the_level_of_bytes() {
    let table = table("header\n\u{120} a\n\u{120}a b\n");
    let positions = [4u32, 5, 6, 7];
    let token = TokenRef::new(" abc", &positions);
    let mut cache = BpeCache::new();
    let tokens = split_on_bpe_pairs(token, &table, &mut cache, true);
    assert_eq!(
        tokens,
        vec![
            Token {
                text: "\u{120}ab".to_string(),
                offset: Offset { begin: 4, end: 7 },
                reference_offsets: vec![4, 5, 6],
                mask: Mask::Begin,
            },
            Token {
                text: "c".to_string(),
                offset: Offset { begin: 7, end: 8 },
                reference_offsets: vec![7],
                mask: Mask::Continuation,
            },
        ]
    );
}

#[test]
fn a_single_piece_is_plain() {
    let table = table("header\na b\n");
    let positions = [0u32, 1];
    let mut cache = BpeCache::new();
    let tokens = split_on_bpe_pairs(TokenRef::new("ab", &positions), &table, &mut cache, true);
    assert_eq!(tokens.len(), 1);
    assert_eq!(tokens[0].text, "ab");
    assert_eq!(tokens[0].mask, Mask::Plain);
}

#[test]
fn the_bytes_of_a_character_share_its_position() {
    let table = table("header\n");
    let positions = [3u32, 4];
    let mut cache = BpeCache::new();
    let tokens = split_on_bpe_pairs(TokenRef::new("éa", &positions), &table, &mut cache, true);
    let texts: Vec<&str> = tokens.iter().map(|t| t.text.as_str()).collect();
    assert_eq!(texts, vec!["\u{c3}", "\u{a9}", "a"]);
    assert_eq!(tokens[0].reference_offsets, vec![3]);
    assert_eq!(tokens[1].reference_offsets, vec![3]);
    assert_eq!(tokens[2].reference_offsets, vec![4]);
    assert_eq!(tokens[1].offset, Offset { begin: 3, end: 4 });
}

#[test]
fn without_the_projection_the_text_is_merged_as_it_is() {
    let table = table("header\na b\n");
    let positions = [0u32, 1, 2];
    let mut cache = BpeCache::new();
    let tokens = split_on_bpe_pairs(TokenRef::new(" ab", &positions), &table, &mut cache, false);
    let texts: Vec<&str> = tokens.iter().map(|t| t.text.as_str()).collect();
    assert_eq!(texts, vec![" ", "ab"]);
}

#[test]
fn the_tokens_do_not_depend_on_the_cache_or_its_lock() {
    let table = table("header\nl l\nh e\nhe ll\n");
    let positions = [0u32, 1, 2, 3, 4];
    let token = TokenRef::new("hello", &positions);

    let mut cache = BpeCache::new();
    let uncontended = split_on_bpe_pairs(token, &table, &mut cache, true);
    assert_eq!(cache.len(), 1);
    let from_cache = split_on_bpe_pairs(token, &table, &mut cache, true);
    assert_eq!(from_cache, uncontended);
    assert_eq!(cache.len(), 1);

    for lock in [LockState::Shared, LockState::Exclusive] {
        let mut contended = BpeCache::new();
        contended.set_lock(lock);
        assert_eq!(split_on_bpe_pairs(token, &table, &mut contended, true), uncontended);
        assert_eq!(contended.len(), 0);
        assert_eq!(contended.lock, lock);
    }

    cache.set_lock(LockState::Exclusive);
    assert_eq!(split_on_bpe_pairs(token, &table, &mut cache, true), uncontended);
    cache.set_lock(LockState::Shared);
    assert_eq!(split_on_bpe_pairs(token, &table, &mut cache, true), uncontended);
    assert_eq!(cache.len(), 1);
}

#[test]
fn the_cache_is_only_ever_tried() {
    let mut cache = BpeCache::new();
    let merged = (vec!["ab".to_string()], vec![2usize]);
    cache.set_lock(LockState::Shared);
    assert!(!cache.try_insert("ab".to_string(), merged.clone()));
    cache.set_lock(LockState::Free);
    assert!(cache.try_insert("ab".to_string(), merged.clone()));
    assert_eq!(cache.try_get("ab"), Some(&merged));
    assert_eq!(cache.try_get("cd"), None);
    cache.set_lock(LockState::Shared);
    assert_eq!(cache.try_get("ab"), Some(&merged));
    cache.set_lock(LockState::Exclusive);
    assert_eq!(cache.try_get("ab"), None);
}

#[test]
fn a_continuation_after_a_plain_token_becomes_a_begin() {
    let masks = [Mask::Plain, Mask::Continuation, Mask::Continuation, Mask::Special, Mask::Continuation, Mask::Plain];
    let mut tokens: Vec<Token> = masks
        .iter()
        .map(|mask| {
            let mut token = Token::new("x".to_string());
            token.mask = *mask;
            token
        })
        .collect();
    fix_mask(&mut tokens);
    let repaired: Vec<Mask> = tokens.iter().map(|t| t.mask).collect();
    assert_eq!(
        repaired,
        vec![Mask::Plain, Mask::Begin, Mask::Continuation, Mask::Special, Mask::Continuation, Mask::Plain]
    );
    assert!(tokens.iter().all(|t| t.text == "x"));
    let mut none: Vec<Token> = vec![];
    fix_mask(&mut none);
    assert!(none.is_empty());
}
