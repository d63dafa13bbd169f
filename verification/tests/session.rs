use gpt2_tokenizer::token_ids::parse_token_ids;
use gpt2_tokenizer::tokenizer::session::{Initialization, TokenizerSession};

const VOCAB: &str = "{\"a\":0,\"b\":1,\"ab\":2,\"<|endoftext|>\":3,\"\u{120}ab\":4}";
const MERGES: &str = "#version: 0.2\na b\n\u{120} ab\n";

fn staged(session: &mut TokenizerSession, text: &str) {
    let bytes = text.as_bytes();
    let middle = bytes.len() / 2;
    session.upload_data_chunks(bytes[..middle].to_vec());
    session.upload_data_chunks(bytes[middle..].to_vec());
}

fn ready_session() -> TokenizerSession {
    let mut session = TokenizerSession::new();
    staged(&mut session, VOCAB);
    assert_eq!(session.bytes_to_vocab(), "vocab.json loaded successfully.");
    staged(&mut session, MERGES);
    assert_eq!(session.bytes_to_merges(), "merges.txt loaded successfully.");
    assert_eq!(session.initialize_tokenizer(), Initialization::Ready);
    session
}

#[test]
fn a_session_without_a_tokenizer_tokenizes_to_nothing() {
    let mut session = TokenizerSession::new();
    assert_eq!(session.tokenize_text("ab ab".to_string()), (vec![], vec![]));
    staged(&mut session, VOCAB);
    session.bytes_to_vocab();
    assert_eq!(session.tokenize_text("ab ab".to_string()), (vec![], vec![]));
}

#[test]
fn chunks_are_staged_one_behind_the_other() {
    let mut session = TokenizerSession::new();
    assert_eq!(session.staged_len(), 0);
    session.upload_data_chunks(vec![1, 2, 3]);
    session.upload_data_chunks(vec![4]);
    assert_eq!(session.staged, vec![1, 2, 3, 4]);
    assert_eq!(session.staged_len(), 4);
    session.clear_staged();
    assert_eq!(session.staged_len(), 0);
}

#[test]
fn committing_takes_the_staged_bytes() {
    let mut session = TokenizerSession::new();
    staged(&mut session, "héllo");
    assert_eq!(session.bytes_to_vocab(), "vocab.json loaded successfully.");
    assert_eq!(session.vocab_text.as_deref(), Some("héllo"));
    assert_eq!(session.staged_len(), 0);
    staged(&mut session, "wörld");
    assert_eq!(session.bytes_to_merges(), "merges.txt loaded successfully.");
    assert_eq!(session.merges_text.as_deref(), Some("wörld"));
    assert_eq!(session.staged_len(), 0);
}

#[test]
fn bytes_that_are_no_text_are_dropped() {
    let mut session = TokenizerSession::new();
    staged(&mut session, "kept");
    session.bytes_to_vocab();
    session.upload_data_chunks(vec![b'a', 0xff, b'b']);
    assert_eq!(
        session.bytes_to_vocab(),
        "Failed to load vocab.json: invalid utf-8 sequence of 1 bytes from index 1"
    );
    assert_eq!(session.vocab_text.as_deref(), Some("kept"));
    assert_eq!(session.staged_len(), 0);
    session.upload_data_chunks(vec![0xc3]);
    assert_eq!(
        session.bytes_to_merges(),
        "Failed to load merges.txt: incomplete utf-8 byte sequence from index 0"
    );
    assert!(session.merges_text.is_none());
}

#[test]
fn initialization_needs_both_sources() {
    let mut session = TokenizerSession::new();
    assert_eq!(session.initialize_tokenizer(), Initialization::VocabMissing);
    staged(&mut session, MERGES);
    session.bytes_to_merges();
    assert_eq!(session.initialize_tokenizer(), Initialization::VocabMissing);
    assert!(session.merges_text.is_some());
    staged(&mut session, VOCAB);
    session.bytes_to_vocab();
    session.merges_text = None;
    assert_eq!(session.initialize_tokenizer(), Initialization::MergesMissing);
    assert!(session.vocab_text.is_none());
    assert!(session.tokenizer.is_none());
}

#[test]
fn a_refused_vocabulary_fails_the_initialization() {
    for vocab in ["not json", "{\"a\":0}"] {
        let mut session = TokenizerSession::new();
        staged(&mut session, vocab);
        session.bytes_to_vocab();
        staged(&mut session, MERGES);
        session.bytes_to_merges();
        assert_eq!(session.initialize_tokenizer(), Initialization::VocabRefused);
        assert!(session.tokenizer.is_none());
        assert!(session.vocab_text.is_none());
        assert!(session.merges_text.is_none());
        assert_eq!(session.tokenize_text("ab".to_string()), (vec![], vec![]));
    }
}

#[test]
fn every_outcome_of_an_initialization_has_its_message() {
    assert_eq!(Initialization::Ready.message(), "Tokenizer initialized successfully.");
    assert_eq!(Initialization::VocabMissing.message(), "Vocab string not found.");
    assert_eq!(Initialization::MergesMissing.message(), "Merges string not found.");
    assert_eq!(Initialization::VocabRefused.message(), "Failed to load vocab from cache.");
    assert_eq!(Initialization::MergesRefused.message(), "Failed to load merges from cache.");
    assert_eq!(Initialization::PatternRefused.message(), "Failed to prepare the pre-tokenizer.");
}

#[test]
fn a_ready_session_tokenizes_and_shows_the_tokens() {
    let mut session = ready_session();
    assert!(session.vocab_text.is_none());
    assert!(session.merges_text.is_none());
    let shown = session.tokenize_text("ab ab<|endoftext|>b".to_string());
    assert_eq!(shown.0, vec![2, 4, 3, 1]);
    assert_eq!(shown.1, vec!["ab".to_string(), " ab".to_string(), "b".to_string()]);
    assert_eq!(session.tokenize_text("  ".to_string()), (vec![], vec![]));
}

#[test]
fn a_session_hands_out_at_most_128_ids() {
    let mut session = ready_session();
    let text = "ab ".repeat(200);
    let shown = session.tokenize_text(text);
    assert_eq!(shown.0.len(), 128);
    assert_eq!(shown.1.len(), 128);
    assert_eq!(shown.0[0], 2);
    assert!(shown.0[1..].iter().all(|id| *id == 4));
}

#[test]
fn a_failed_initialization_keeps_the_tokenizer_that_is_there() {
    let mut session = ready_session();
    staged(&mut session, "broken");
    session.bytes_to_vocab();
    staged(&mut session, MERGES);
    session.bytes_to_merges();
    assert_eq!(session.initialize_tokenizer(), Initialization::VocabRefused);
    assert_eq!(session.tokenize_text("ab".to_string()).0, vec![2]);
}

#[test]
fn a_list_of_ids_is_read_from_text() {
    assert_eq!(parse_token_ids("[15496, 11, 995]"), vec![15496, 11, 995]);
    assert_eq!(parse_token_ids("  [ 1,2 ,\t-3 , +4 ]\n"), vec![1, 2, -3, 4]);
    assert_eq!(parse_token_ids("7"), vec![7]);
    assert_eq!(parse_token_ids("[[0007]]"), vec![7]);
    assert_eq!(
        parse_token_ids("[9223372036854775807,-9223372036854775808]"),
        vec![i64::MAX, i64::MIN]
    );
}

#[test]
fn a_text_that_is_no_list_of_ids_gives_nothing() {
    for text in [
        "",
        "[]",
        "[1, two, 3]",
        "[1,,2]",
        "[1,2,]",
        "1 2",
        "[1.5]",
        "[-]",
        "[+]",
        "[9223372036854775808]",
        "[-9223372036854775809]",
        "[1] 2]",
        "[1, [2]]",
        "[ 1 2 ]",
    ] {
        assert!(parse_token_ids(text).is_empty(), "{:?}", text);
    }
}
