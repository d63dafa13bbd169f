use gpt2_tokenizer::{
    ConsolidatableTokens, ConsolidatedTokenIterator, Mask, Offset, Token, TokenRef, TokenTrait,
};

fn token_with(text: &str, mask: Mask) -> Token {
    let mut token = Token::new(text.to_string());
    token.mask = mask;
    token
}

#[test]
fn an_offset_is_an_option_when_it_spans_something() {
    assert_eq!(Offset::new(2, 5).into_option(), Some(Offset { begin: 2, end: 5 }));
    assert_eq!(Offset::new(5, 5).into_option(), None);
    assert_eq!(Offset::new(6, 5).into_option(), None);
}

#[test]
fn a_new_token_counts_its_characters_from_zero() {
    let token = Token::new("wörld".to_string());
    assert_eq!(token.text, "wörld");
    assert_eq!(token.offset, Offset { begin: 0, end: 5 });
    assert_eq!(token.reference_offsets, vec![0, 1, 2, 3, 4]);
    assert_eq!(token.mask, Mask::Plain);
    assert_eq!(token.offset(), Some(Offset { begin: 0, end: 5 }));
    assert_eq!(token.as_str(), "wörld");
}

#[test]
fn an_empty_token_has_no_offset() {
    let token = Token::new(String::new());
    assert_eq!(token.offset(), None);
    assert!(token.reference_offsets.is_empty());
}

#[test]
fn a_token_reference_starts_at_zero() {
    let offsets = [7u32, 8, 9, 10, 11];
    let token = TokenRef::new("world", &offsets);
    assert_eq!(token.offset, Offset { begin: 0, end: 5 });
    assert_eq!(token.reference_offsets, &offsets);
    assert_eq!(token.mask(), Mask::Plain);
    assert_eq!(token.as_str(), "world");
}

#[test]
fn owned_and_borrowed_tokens_convert_into_each_other() {
    let offsets = [7u32, 8, 9, 10, 11];
    let mut borrowed = TokenRef::new("world", &offsets);
    borrowed.mask = Mask::Special;
    let owned = borrowed.to_owned();
    assert_eq!(owned.text, "world");
    assert_eq!(owned.reference_offsets, vec![7, 8, 9, 10, 11]);
    assert_eq!(owned.offset, Offset { begin: 0, end: 5 });
    assert_eq!(owned.mask, Mask::Special);
    assert_eq!(owned.as_ref(), borrowed);
}

#[test]
fn the_default_mask_is_plain() {
    assert_eq!(Mask::default(), Mask::Plain);
}

#[test]
fn consolidated_iterator_groups_runs() {
    let tokens = vec![
        token_with("a", Mask::Plain),
        token_with("b", Mask::Begin),
        token_with("c", Mask::Continuation),
        token_with("d", Mask::Plain),
    ];
    let mut walk = tokens.iter_consolidate_tokens();
    let first = walk.next().unwrap();
    assert_eq!(first.iter().map(|t| t.mask).collect::<Vec<Mask>>(), vec![Mask::Plain]);
    let second = walk.next().unwrap();
    assert_eq!(
        second.iter().map(|t| t.mask).collect::<Vec<Mask>>(),
        vec![Mask::Begin, Mask::Continuation]
    );
    let third = walk.next().unwrap();
    assert_eq!(third.iter().map(|t| t.mask).collect::<Vec<Mask>>(), vec![Mask::Plain]);
    assert!(walk.next().is_none());
    assert!(walk.next().is_none());
}

#[test]
fn consolidated_iterator_keeps_a_leading_continuation_in_the_first_run() {
    let tokens = vec![
        token_with("a", Mask::Continuation),
        token_with("b", Mask::Continuation),
        token_with("c", Mask::Begin),
    ];
    let mut walk = ConsolidatedTokenIterator::new(&tokens);
    assert_eq!(walk.next().unwrap().len(), 2);
    assert_eq!(walk.next().unwrap().len(), 1);
    assert!(walk.next().is_none());
}

#[test]
fn consolidated_iterator_over_nothing_ends_at_once() {
    let tokens: Vec<Token> = vec![];
    let mut walk = tokens.iter_consolidate_tokens();
    assert!(walk.next().is_none());
}

#[test]
fn consolidated_iterator_walks_over_borrowed_tokens() {
    let offsets = [0u32, 1];
    let mut first = TokenRef::new("ab", &offsets);
    first.mask = Mask::Begin;
    let mut second = TokenRef::new("cd", &offsets);
    second.mask = Mask::Continuation;
    let tokens = vec![first, second];
    let mut walk = tokens.iter_consolidate_tokens();
    assert_eq!(walk.next().unwrap().len(), 2);
    assert!(walk.next().is_none());
}
