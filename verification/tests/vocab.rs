use gpt2_tokenizer::error::TokenizerError;
use gpt2_tokenizer::vocab::base_vocab::{
    overlay_get, overlay_set, read_flat_string, read_json_string, register_as_special_value,
    swap_key_values,
};
use gpt2_tokenizer::vocab::{BaseVocab, Gpt2Vocab, SpecialTokenMap, Vocab};

const GPT2_VOCAB: &str = r#"{"a":0,"b":1,"ab":2,"<|endoftext|>":3}"#;

fn entries(items: &[(&str, i64)]) -> Vec<(String, i64)> {
    items.iter().map(|(token, id)| (token.to_string(), *id)).collect()
}

fn special_tokens(unk: &str) -> SpecialTokenMap {
    SpecialTokenMap {
        unk_token: unk.to_string(),
        pad_token: None,
        bos_token: None,
        sep_token: None,
        cls_token: None,
        eos_token: None,
        mask_token: None,
        additional_special_tokens: None,
    }
}

#[test]
fn a_json_object_is_read_as_entries() {
    let mut read = read_json_string(r#"{"b": 1, "a": 0, "c": -7}"#).unwrap();
    read.sort();
    assert_eq!(read, entries(&[("a", 0), ("b", 1), ("c", -7)]));
}

#[test]
fn a_repeated_key_of_a_json_object_counts_once() {
    let read = read_json_string(r#"{"a": 0, "a": 5}"#).unwrap();
    assert_eq!(read, entries(&[("a", 5)]));
}

#[test]
fn text_that_is_no_json_object_is_refused() {
    for text in ["", "not json", r#"["a"]"#, r#"{"a": "b"}"#, r#"{"a": 1.5}"#, r#"{"a": 1"#] {
        match read_json_string(text) {
            Err(TokenizerError::VocabularyParsingError(message)) => assert!(!message.is_empty()),
            other => panic!("expected a parsing error for {:?}, got {:?}", text, other),
        }
    }
}

#[test]
fn a_flat_vocabulary_numbers_its_lines() {
    let read = read_flat_string("[UNK]\nhello\r\n  world \n\nlast").unwrap();
    assert_eq!(
        read,
        entries(&[("[UNK]", 0), ("hello", 1), ("world", 2), ("", 3), ("last", 4)])
    );
    assert!(read_flat_string("").unwrap().is_empty());
    assert_eq!(read_flat_string("a\n").unwrap(), entries(&[("a", 0)]));
}

#[test]
fn swapping_enters_every_entry_under_its_id() {
    let swapped = swap_key_values(&entries(&[("a", 0), ("b", 1), ("c", 0)]));
    assert_eq!(swapped.len(), 2);
    assert_eq!(swapped.get(&0).map(String::as_str), Some("c"));
    assert_eq!(swapped.get(&1).map(String::as_str), Some("b"));
}

#[test]
fn the_overlay_keeps_the_order_of_registration() {
    let mut overlay: Vec<(String, i64)> = vec![];
    overlay_set(&mut overlay, "x", 1);
    overlay_set(&mut overlay, "y", 2);
    overlay_set(&mut overlay, "x", 3);
    assert_eq!(overlay, entries(&[("x", 3), ("y", 2)]));
    assert_eq!(overlay_get(&overlay, "x"), Some(3));
    assert_eq!(overlay_get(&overlay, "z"), None);
}

#[test]
fn a_special_value_is_registered_with_the_id_of_the_values() {
    let vocab = Gpt2Vocab::from_cache(GPT2_VOCAB).unwrap();
    let mut overlay: Vec<(String, i64)> = vec![];
    register_as_special_value("ab", vocab.values(), &mut overlay).unwrap();
    assert_eq!(overlay, entries(&[("ab", 2)]));
    match register_as_special_value("missing", vocab.values(), &mut overlay) {
        Err(TokenizerError::TokenNotFound(message)) => assert_eq!(
            message,
            "The special value missing could not be found in the vocabulary"
        ),
        other => panic!("expected a missing token, got {:?}", other),
    }
    assert_eq!(overlay, entries(&[("ab", 2)]));
}

#[test]
fn the_gpt2_vocabulary_registers_its_marker_once() {
    let vocab = Gpt2Vocab::from_cache(GPT2_VOCAB).unwrap();
    assert_eq!(vocab.get_unknown_value(), "<|endoftext|>");
    assert_eq!(vocab.get_bos_value(), "<|endoftext|>");
    assert_eq!(vocab.get_eos_value(), "<|endoftext|>");
    assert_eq!(vocab.special_values(), &entries(&[("<|endoftext|>", 3)]));
    assert_eq!(vocab.special_indices().get(&3).map(String::as_str), Some("<|endoftext|>"));
    assert_eq!(vocab.values().len(), 4);
    assert_eq!(vocab.indices().len(), 4);
}

#[test]
fn the_begin_and_end_markers_fall_back_to_the_default() {
    let mut vocab = Gpt2Vocab::from_cache(GPT2_VOCAB).unwrap();
    vocab.special_token_map.bos_token = None;
    vocab.special_token_map.eos_token = Some("b".to_string());
    assert_eq!(vocab.get_bos_value(), "<|endoftext|>");
    assert_eq!(vocab.get_eos_value(), "b");
}

#[test]
fn a_gpt2_vocabulary_without_its_marker_is_refused() {
    match Gpt2Vocab::from_cache(r#"{"a":0}"#) {
        Err(TokenizerError::TokenNotFound(message)) => assert_eq!(
            message,
            "The special value <|endoftext|> could not be found in the vocabulary"
        ),
        Err(other) => panic!("expected a missing token, got {:?}", other),
        Ok(_) => panic!("expected a missing token"),
    }
    assert!(matches!(
        Gpt2Vocab::from_cache("{"),
        Err(TokenizerError::VocabularyParsingError(_))
    ));
}

#[test]
fn every_token_of_the_values_comes_back_from_its_id() {
    let vocab = Gpt2Vocab::from_cache(GPT2_VOCAB).unwrap();
    for (token, id) in [("a", 0), ("b", 1), ("ab", 2), ("<|endoftext|>", 3)] {
        assert_eq!(vocab.token_to_id(token), id);
        assert_eq!(vocab.id_to_token(&vocab.token_to_id(token)), token);
    }
}

#[test]
fn what_the_vocabulary_lacks_is_unknown() {
    let vocab = Gpt2Vocab::from_cache(GPT2_VOCAB).unwrap();
    assert_eq!(vocab.token_to_id("zzz"), 3);
    assert_eq!(vocab.id_to_token(&99), "<|endoftext|>");
    assert_eq!(vocab.id_to_token(&-1), "<|endoftext|>");
    assert_eq!(vocab.convert_tokens_to_ids(&["ab", "zzz", "a"]), vec![2, 3, 0]);
}

#[test]
fn a_special_entry_takes_precedence_over_the_values() {
    let mut vocab = Gpt2Vocab::from_cache(GPT2_VOCAB).unwrap();
    vocab.special_values_mut().push(("a".to_string(), 42));
    vocab.special_indices_mut().insert(0, "override".to_string());
    assert_eq!(vocab.token_to_id("a"), 42);
    assert_eq!(vocab.id_to_token(&0), "override");
    assert_eq!(vocab.token_to_id("b"), 1);
}

#[test]
fn the_maps_can_be_changed_through_the_accessors() {
    let mut vocab = Gpt2Vocab::from_cache(GPT2_VOCAB).unwrap();
    vocab.values_mut().insert("c".to_string(), 9);
    vocab.indices_mut().insert(9, "c".to_string());
    assert_eq!(vocab.token_to_id("c"), 9);
    assert_eq!(vocab.id_to_token(&9), "c");
}

#[test]
fn the_base_vocabulary_reads_one_token_per_line() {
    let vocab = BaseVocab::from_cache("[UNK]\nhello\n world \n").unwrap();
    assert_eq!(vocab.get_unknown_value(), "[UNK]");
    assert_eq!(vocab.token_to_id("hello"), 1);
    assert_eq!(vocab.token_to_id("world"), 2);
    assert_eq!(vocab.token_to_id("zzz"), 0);
    assert_eq!(vocab.id_to_token(&2), "world");
    assert_eq!(vocab.id_to_token(&7), "[UNK]");
    assert_eq!(vocab.special_values(), &entries(&[("[UNK]", 0)]));
}

#[test]
fn a_repeated_line_keeps_its_last_number() {
    let vocab = BaseVocab::from_cache("[UNK]\nsame\nother\nsame\n").unwrap();
    assert_eq!(vocab.token_to_id("same"), 3);
    assert_eq!(vocab.id_to_token(&3), "same");
    assert_eq!(vocab.id_to_token(&1), "[UNK]");
    assert_eq!(vocab.id_to_token(&2), "other");
}

#[test]
fn a_base_vocabulary_without_its_unknown_token_is_refused() {
    assert!(matches!(
        BaseVocab::from_cache("hello\nworld\n"),
        Err(TokenizerError::TokenNotFound(_))
    ));
}

#[test]
fn special_tokens_are_registered_in_the_order_of_their_roles() {
    let mut map = special_tokens("u");
    map.mask_token = Some("m".to_string());
    map.pad_token = Some("p".to_string());
    map.bos_token = Some("s".to_string());
    map.sep_token = Some("e".to_string());
    map.cls_token = Some("c".to_string());
    map.eos_token = Some("s".to_string());
    map.additional_special_tokens = Some(vec!["x".to_string(), "y".to_string()]);
    assert_eq!(map.tokens_in_order(), vec!["u", "p", "s", "e", "c", "s", "m", "x", "y"]);
    let values = entries(&[
        ("x", 10),
        ("u", 11),
        ("p", 12),
        ("s", 13),
        ("e", 14),
        ("c", 15),
        ("m", 16),
        ("y", 17),
        ("word", 18),
    ]);
    let vocab = BaseVocab::from_values_and_special_token_map(values, map).unwrap();
    assert_eq!(
        vocab.special_values(),
        &entries(&[("u", 11), ("p", 12), ("s", 13), ("e", 14), ("c", 15), ("m", 16), ("x", 10), ("y", 17)])
    );
    assert_eq!(vocab.special_indices().len(), 8);
    assert_eq!(vocab.id_to_token(&18), "word");
}

#[test]
fn a_configured_token_that_is_missing_fails_the_construction() {
    let mut map = special_tokens("u");
    map.additional_special_tokens = Some(vec!["gone".to_string()]);
    let built = Gpt2Vocab::from_values_and_special_token_map(entries(&[("u", 0)]), map);
    match built {
        Err(TokenizerError::TokenNotFound(message)) => assert_eq!(
            message,
            "The special value gone could not be found in the vocabulary"
        ),
        _ => panic!("expected a missing token"),
    }
}

#[test]
fn added_tokens_get_the_next_ids_and_are_special() {
    let mut vocab = Gpt2Vocab::from_cache(GPT2_VOCAB).unwrap();
    vocab.add_tokens(&["new", "a", "other"]);
    assert_eq!(vocab.token_to_id("new"), 4);
    assert_eq!(vocab.token_to_id("other"), 5);
    assert_eq!(vocab.token_to_id("a"), 0);
    assert_eq!(vocab.id_to_token(&4), "new");
    assert_eq!(vocab.id_to_token(&5), "other");
    assert_eq!(
        vocab.special_values(),
        &entries(&[("<|endoftext|>", 3), ("new", 4), ("other", 5)])
    );
    assert!(vocab.special_indices().contains_key(&4));
    assert!(!vocab.special_indices().contains_key(&0));
    vocab.add_tokens(&["new", "a", "other"]);
    assert_eq!(vocab.values().len(), 6);
    assert_eq!(vocab.special_values().len(), 3);
}

#[test]
fn extra_ids_are_named_by_their_number() {
    let mut vocab = Gpt2Vocab::from_cache(GPT2_VOCAB).unwrap();
    vocab.add_extra_ids(12);
    assert_eq!(vocab.token_to_id("<extra_id_0>"), 4);
    assert_eq!(vocab.token_to_id("<extra_id_9>"), 13);
    assert_eq!(vocab.token_to_id("<extra_id_10>"), 14);
    assert_eq!(vocab.token_to_id("<extra_id_11>"), 15);
    assert_eq!(vocab.id_to_token(&15), "<extra_id_11>");
    assert_eq!(vocab.values().len(), 16);
    vocab.add_extra_ids(0);
    vocab.add_extra_ids(-3);
    assert_eq!(vocab.values().len(), 16);
}
