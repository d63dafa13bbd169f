use gpt2_tokenizer::text::{is_whitespace, replace_all};
use gpt2_tokenizer::tokenizer::pattern::Pattern;
use gpt2_tokenizer::tokenizer::pre_tokenization::{lookahead_segments, Separator, Span};
use gpt2_tokenizer::tokenizer::{
    lowercase, split_on_regex_with_lookahead, split_on_special_tokens, split_on_substr,
};
use gpt2_tokenizer::vocab::{Gpt2Vocab, Vocab};
use gpt2_tokenizer::{Mask, Offset, Token, TokenRef};

fn positions(count: usize) -> Vec<u32> {
    (0..count as u32).collect()
}

fn marker(text: &str, mask: Mask) -> Separator {
    Separator { text: text.to_string(), mask }
}

fn summary<'a>(tokens: &'a [TokenRef<'a>]) -> Vec<(&'a str, u32, u32, Mask)> {
    tokens.iter().map(|t| (t.text, t.offset.begin, t.offset.end, t.mask)).collect()
}

#[test]
fn whitespace_is_what_unicode_calls_white_space() {
    for c in [' ', '\t', '\n', '\r', '\u{b}', '\u{c}', '\u{85}', '\u{a0}', '\u{1680}', '\u{2000}', '\u{200a}', '\u{2028}', '\u{2029}', '\u{202f}', '\u{205f}', '\u{3000}'] {
        assert!(is_whitespace(c), "{:?}", c);
    }
    for c in ['a', '\u{120}', '\u{200b}', '\u{180e}', '0', '\u{feff}'] {
        assert!(!is_whitespace(c), "{:?}", c);
    }
    for code in 0..0x3100u32 {
        if let Some(c) = char::from_u32(code) {
            assert_eq!(is_whitespace(c), c.is_whitespace(), "{:?}", c);
        }
    }
}

#[test]
fn a_text_is_cut_at_its_separators() {
    let text = "hello  <s>world<s>";
    let offsets = positions(18);
    let tokens = split_on_substr(
        TokenRef::new(text, &offsets),
        &vec![marker("<s>", Mask::Special)],
        true,
    );
    assert_eq!(
        summary(&tokens),
        vec![
            ("hello", 0, 5, Mask::Plain),
            ("<s>", 7, 10, Mask::Special),
            ("world", 10, 15, Mask::Plain),
            ("<s>", 15, 18, Mask::Special),
        ]
    );
    assert_eq!(tokens[0].reference_offsets, &[0, 1, 2, 3, 4]);
    assert_eq!(tokens[1].reference_offsets, &[7, 8, 9]);
    assert_eq!(tokens[3].reference_offsets, &[15, 16, 17]);
}

#[test]
fn separators_can_be_left_out() {
    let text = "a,b,,c";
    let offsets = positions(6);
    let tokens = split_on_substr(
        TokenRef::new(text, &offsets),
        &vec![marker(",", Mask::Punctuation)],
        false,
    );
    assert_eq!(
        summary(&tokens),
        vec![("a", 0, 1, Mask::Plain), ("b", 2, 3, Mask::Plain), ("c", 5, 6, Mask::Plain)]
    );
}

#[test]
fn the_tail_of_a_text_keeps_its_whitespace() {
    let text = "<s> tail  ";
    let offsets = positions(10);
    let tokens = split_on_substr(
        TokenRef::new(text, &offsets),
        &vec![marker("<s>", Mask::Special)],
        true,
    );
    assert_eq!(
        summary(&tokens),
        vec![("<s>", 0, 3, Mask::Special), (" tail  ", 3, 10, Mask::Plain)]
    );
}

#[test]
fn whitespace_alone_in_front_of_a_separator_is_dropped() {
    let text = "  <s>";
    let offsets = positions(5);
    let tokens = split_on_substr(
        TokenRef::new(text, &offsets),
        &vec![marker("<s>", Mask::Special)],
        true,
    );
    assert_eq!(summary(&tokens), vec![("<s>", 2, 5, Mask::Special)]);
}

#[test]
fn the_first_separator_that_stands_at_a_place_counts() {
    let text = "x<s>y";
    let offsets = positions(5);
    let separators = vec![
        marker("", Mask::Whitespace),
        marker("<s", Mask::Punctuation),
        marker("<s>", Mask::Special),
    ];
    let tokens = split_on_substr(TokenRef::new(text, &offsets), &separators, true);
    assert_eq!(
        summary(&tokens),
        vec![
            ("x", 0, 1, Mask::Plain),
            ("<s", 1, 3, Mask::Punctuation),
            (">y", 3, 5, Mask::Plain),
        ]
    );
}

#[test]
fn the_scan_goes_on_behind_a_separator() {
    let text = "abcd";
    let offsets = positions(4);
    let separators = vec![marker("abc", Mask::Special), marker("b", Mask::Punctuation)];
    let tokens = split_on_substr(TokenRef::new(text, &offsets), &separators, true);
    assert_eq!(summary(&tokens), vec![("abc", 0, 3, Mask::Special), ("d", 3, 4, Mask::Plain)]);
}

#[test]
fn a_marked_token_is_not_cut() {
    let text = "a<s>b";
    let offsets = positions(5);
    let mut token = TokenRef::new(text, &offsets);
    token.mask = Mask::Special;
    let tokens = split_on_substr(token, &vec![marker("<s>", Mask::Special)], true);
    assert_eq!(summary(&tokens), vec![("a<s>b", 0, 5, Mask::Plain)]);
    let nothing = split_on_substr(TokenRef::new("", &[]), &vec![marker("<s>", Mask::Special)], true);
    assert!(nothing.is_empty());
}

#[test]
fn offsets_count_characters_and_follow_the_parent() {
    let text = "é|ü";
    let offsets = [10u32, 11, 12];
    let mut token = TokenRef::new(text, &offsets);
    token.offset = Offset::new(100, 103);
    let tokens = split_on_substr(token, &vec![marker("|", Mask::Punctuation)], true);
    assert_eq!(
        summary(&tokens),
        vec![
            ("é", 100, 101, Mask::Plain),
            ("|", 101, 102, Mask::Punctuation),
            ("ü", 102, 103, Mask::Plain),
        ]
    );
    assert_eq!(tokens[2].reference_offsets, &[12]);
}

#[test]
fn special_tokens_of_the_vocabulary_cut_the_text() {
    let mut vocab = Gpt2Vocab::from_cache(r#"{"a":0,"<|endoftext|>":1,"<pad>":2}"#).unwrap();
    vocab.add_tokens(&["<new>"]);
    vocab.special_values_mut().push(("<pad>".to_string(), 2));
    let text = "a <pad>b<|endoftext|><new>";
    let offsets = positions(text.chars().count());
    let tokens = split_on_special_tokens(TokenRef::new(text, &offsets), &vocab);
    assert_eq!(
        summary(&tokens),
        vec![
            ("a", 0, 1, Mask::Plain),
            ("<pad>", 2, 7, Mask::Special),
            ("b", 7, 8, Mask::Plain),
            ("<|endoftext|>", 8, 21, Mask::Unknown),
            ("<new>", 21, 26, Mask::Special),
        ]
    );
}

#[test]
fn lower_case_keeps_the_position_of_every_character() {
    let mut token = Token::new("AbÇ".to_string());
    token.mask = Mask::Punctuation;
    lowercase(&mut token);
    assert_eq!(token.text, "abç");
    assert_eq!(token.reference_offsets, vec![0, 1, 2]);
    assert_eq!(token.offset, Offset { begin: 0, end: 3 });
    assert_eq!(token.mask, Mask::Punctuation);
}

#[test]
fn a_mapping_of_several_characters_repeats_the_position() {
    let mut token = Token::new("x\u{130}y".to_string());
    token.reference_offsets = vec![5, 6, 7];
    lowercase(&mut token);
    assert_eq!(token.text, "xi\u{307}y");
    assert_eq!(token.reference_offsets, vec![5, 6, 6, 7]);
    assert_eq!(token.offset, Offset { begin: 5, end: 8 });
}

#[test]
fn lower_case_of_nothing_spans_zero_to_one() {
    let mut token = Token::new(String::new());
    lowercase(&mut token);
    assert_eq!(token.text, "");
    assert!(token.reference_offsets.is_empty());
    assert_eq!(token.offset, Offset { begin: 0, end: 1 });
}

#[test]
fn characters_without_a_position_are_left_out_of_lower_case() {
    let mut token = Token::new("ABC".to_string());
    token.reference_offsets = vec![0, 1];
    lowercase(&mut token);
    assert_eq!(token.text, "ab");
    assert_eq!(token.reference_offsets, vec![0, 1]);
}

#[test]
fn the_lookahead_cuts_in_front_of_the_last_whitespace_character() {
    let hits = vec![
        Span { begin: 2, end: 5, mask: Mask::Plain },
        Span { begin: 7, end: 9, mask: Mask::Plain },
    ];
    assert_eq!(lookahead_segments(&hits, 12), vec![(0, 3), (3, 7), (7, 12)]);
    assert_eq!(lookahead_segments(&vec![], 4), vec![(0, 4)]);
    let short = vec![Span { begin: 1, end: 2, mask: Mask::Plain }];
    assert_eq!(lookahead_segments(&short, 4), vec![(0, 4)]);
    let at_start = vec![Span { begin: 0, end: 2, mask: Mask::Plain }];
    assert_eq!(lookahead_segments(&at_start, 4), vec![(0, 0), (0, 4)]);
}

#[test]
fn a_text_is_segmented_into_pre_tokens() {
    let lookahead = Pattern::compile(r"\s+\S").unwrap();
    let tokenization =
        Pattern::compile(r"'s|'t|'re|'ve|'m|'ll|'d| ?\p{L}+| ?\p{N}+| ?[^\s\p{L}\p{N}]+|\s+").unwrap();
    let text = "I'm  here, at 42!";
    let offsets = positions(text.chars().count());
    let tokens =
        split_on_regex_with_lookahead(TokenRef::new(text, &offsets), &lookahead, &tokenization);
    assert_eq!(
        summary(&tokens),
        vec![
            ("I", 0, 1, Mask::Plain),
            ("'m", 1, 3, Mask::Plain),
            (" ", 3, 4, Mask::Plain),
            (" here", 4, 9, Mask::Plain),
            (",", 9, 10, Mask::Plain),
            (" at", 10, 13, Mask::Plain),
            (" 42", 13, 16, Mask::Plain),
            ("!", 16, 17, Mask::Plain),
        ]
    );
    assert_eq!(tokens[3].reference_offsets, &[4, 5, 6, 7, 8]);
}

#[test]
fn segmentation_counts_characters_not_bytes() {
    let lookahead = Pattern::compile(r"\s+\S").unwrap();
    let tokenization =
        Pattern::compile(r"'s|'t|'re|'ve|'m|'ll|'d| ?\p{L}+| ?\p{N}+| ?[^\s\p{L}\p{N}]+|\s+").unwrap();
    let text = "héé  wörld€";
    let offsets = positions(text.chars().count());
    let tokens =
        split_on_regex_with_lookahead(TokenRef::new(text, &offsets), &lookahead, &tokenization);
    assert_eq!(
        summary(&tokens),
        vec![
            ("héé", 0, 3, Mask::Plain),
            (" ", 3, 4, Mask::Plain),
            (" wörld", 4, 10, Mask::Plain),
            ("€", 10, 11, Mask::Plain),
        ]
    );
}

#[test]
fn what_no_pattern_matches_is_left_out() {
    let lookahead = Pattern::compile(r"\s+\S").unwrap();
    let letters = Pattern::compile(r"\p{L}+").unwrap();
    let text = "ab, cd";
    let offsets = positions(6);
    let tokens = split_on_regex_with_lookahead(TokenRef::new(text, &offsets), &lookahead, &letters);
    assert_eq!(summary(&tokens), vec![("ab", 0, 2, Mask::Plain), ("cd", 4, 6, Mask::Plain)]);
    assert_eq!(tokens[1].reference_offsets, &[4, 5]);
}

#[test]
fn a_marked_token_is_not_segmented() {
    let lookahead = Pattern::compile(r"\s+\S").unwrap();
    let tokenization = Pattern::compile(r"\S+|\s+").unwrap();
    let offsets = positions(5);
    let mut token = TokenRef::new("a b c", &offsets);
    token.mask = Mask::Special;
    let tokens = split_on_regex_with_lookahead(token, &lookahead, &tokenization);
    assert_eq!(tokens, vec![token]);
}

#[test]
fn every_occurrence_is_replaced_from_the_left() {
    let chars: Vec<char> = "aaa b aa".chars().collect();
    let replaced: String = replace_all(&chars, "aa", "x").into_iter().collect();
    assert_eq!(replaced, "xa b x");
    let unchanged: String = replace_all(&chars, "", "x").into_iter().collect();
    assert_eq!(unchanged, "aaa b aa");
    let removed: String = replace_all(&chars, "a", "").into_iter().collect();
    assert_eq!(removed, " b ");
}

#[test]
fn a_leading_space_stays_with_the_word_that_follows() {
    let lookahead = Pattern::compile(r"\s+\S").unwrap();
    let tokenization =
        Pattern::compile(r"'s|'t|'re|'ve|'m|'ll|'d| ?\p{L}+| ?\p{N}+| ?[^\s\p{L}\p{N}]+|\s+").unwrap();
    let text = "Hello world";
    let offsets = positions(11);
    let tokens =
        split_on_regex_with_lookahead(TokenRef::new(text, &offsets), &lookahead, &tokenization);
    assert_eq!(tokens.len(), 2);
    assert_eq!(tokens[0].text, "Hello");
    assert_eq!(tokens[0].offset, Offset { begin: 0, end: 5 });
    assert_eq!(tokens[0].reference_offsets, &[0, 1, 2, 3, 4]);
    assert_eq!(tokens[0].mask, Mask::Plain);
    assert_eq!(tokens[1].text, " world");
    assert_eq!(tokens[1].offset, Offset { begin: 5, end: 11 });
    assert_eq!(tokens[1].reference_offsets, &[5, 6, 7, 8, 9, 10]);
    assert_eq!(tokens[1].mask, Mask::Plain);
}

#[test]
fn the_pre_tokens_of_a_text_spell_the_text() {
    let lookahead = Pattern::compile(r"\s+\S").unwrap();
    let tokenization =
        Pattern::compile(r"'s|'t|'re|'ve|'m|'ll|'d| ?\p{L}+| ?\p{N}+| ?[^\s\p{L}\p{N}]+|\s+").unwrap();
    let text = "  It's 12 o'clock,\tand   we've\n won\u{2019}t  ";
    let offsets = positions(text.chars().count());
    let mut token = TokenRef::new(text, &offsets);
    token.offset = Offset::new(7, 7 + offsets.len() as u32);
    let tokens = split_on_regex_with_lookahead(token, &lookahead, &tokenization);
    let spelled: String = tokens.iter().map(|t| t.text).collect();
    assert_eq!(spelled, text);
    let followed: Vec<u32> =
        tokens.iter().flat_map(|t| t.reference_offsets.iter().copied()).collect();
    assert_eq!(followed, offsets);
    let mut next = 7;
    for piece in &tokens {
        assert_eq!(piece.offset.begin, next);
        assert_eq!(piece.mask, Mask::Plain);
        next = piece.offset.end;
    }
    assert_eq!(next, 7 + offsets.len() as u32);
}

#[test]
fn a_pattern_keeps_its_source() {
    let pattern = Pattern::compile(r"\s+\S").unwrap();
    assert_eq!(pattern.source(), r"\s+\S");
    assert!(Pattern::compile("").is_some());
}

#[test]
fn a_pattern_that_is_no_pattern_is_refused() {
    assert!(Pattern::compile("(unclosed").is_none());
    assert!(Pattern::compile(r"\w{100000}").is_none());
    assert!(Pattern::compile(r"(?=x)").is_none());
}
