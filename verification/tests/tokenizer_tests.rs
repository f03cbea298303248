use forge::tokenizer::{Tokenizer, BOS_ID, EOS_ID, PAD_ID, UNK_ID};

#[test]
fn new_knows_only_special_words() {
    let tok = Tokenizer::new();
    assert_eq!(tok.vocab_size(), 4);
    assert_eq!((PAD_ID, UNK_ID, BOS_ID, EOS_ID), (0, 1, 2, 3));
    assert_eq!(tok.decode(&[0, 1, 2, 3]), "");
}

#[test]
fn add_word_gives_next_id() {
    let mut tok = Tokenizer::new();
    tok.add_word("hello");
    assert_eq!(tok.vocab_size(), 5);
    assert_eq!(tok.encode("hello"), vec![2, 4, 3]);
    tok.add_word("world");
    assert_eq!(tok.vocab_size(), 6);
    assert_eq!(tok.encode("world hello"), vec![2, 5, 4, 3]);
}

#[test]
fn add_word_twice_changes_nothing() {
    let mut tok = Tokenizer::new();
    tok.add_word("alpha");
    tok.add_word("beta");
    tok.add_word("alpha");
    assert_eq!(tok.vocab_size(), 6);
    assert_eq!(tok.encode("alpha beta"), vec![2, 4, 5, 3]);
}

#[test]
fn add_word_of_special_word_changes_nothing() {
    let mut tok = Tokenizer::new();
    tok.add_word("<UNK>");
    assert_eq!(tok.vocab_size(), 4);
}

#[test]
fn encode_lowercases_text() {
    let mut tok = Tokenizer::new();
    tok.add_word("hello");
    assert_eq!(tok.encode("HeLLo"), vec![2, 4, 3]);
    assert_eq!(tok.encode("HELLO hello"), vec![2, 4, 4, 3]);
}

#[test]
fn encode_lowercases_beyond_ascii() {
    let mut tok = Tokenizer::new();
    tok.add_word("école");
    assert_eq!(tok.encode("ÉCOLE"), vec![2, 4, 3]);
}

#[test]
fn encode_lowercased_takes_text_as_given() {
    let mut tok = Tokenizer::new();
    tok.add_word("hello");
    assert_eq!(tok.encode_lowercased("hello"), vec![2, 4, 3]);
    assert_eq!(tok.encode_lowercased("Hello"), vec![2, 1, 3]);
}

#[test]
fn encode_drops_punctuation() {
    let mut tok = Tokenizer::new();
    tok.add_word("hello");
    tok.add_word("its");
    assert_eq!(tok.encode("hello!!! it's"), vec![2, 4, 5, 3]);
}

#[test]
fn encode_marks_unknown_words() {
    let mut tok = Tokenizer::new();
    tok.add_word("hello");
    assert_eq!(tok.encode("hello world"), vec![2, 4, 1, 3]);
}

#[test]
fn encode_word_of_punctuation_only_is_unknown() {
    let mut tok = Tokenizer::new();
    tok.add_word("hello");
    assert_eq!(tok.encode("hello ... hello"), vec![2, 4, 1, 4, 3]);
}

#[test]
fn encode_empty_text() {
    let tok = Tokenizer::new();
    assert_eq!(tok.encode(""), vec![2, 3]);
    assert_eq!(tok.encode("   \t\n  "), vec![2, 3]);
}

#[test]
fn encode_splits_on_any_whitespace() {
    let mut tok = Tokenizer::new();
    tok.add_word("a");
    tok.add_word("b");
    assert_eq!(tok.encode("  a\tb\n\na  "), vec![2, 4, 5, 4, 3]);
}

#[test]
fn encode_gives_ids_below_vocab_size() {
    let mut tok = Tokenizer::new();
    tok.add_word("one");
    tok.add_word("two");
    let tokens = tok.encode("one two three <PAD> two");
    assert_eq!(tokens, vec![2, 4, 5, 1, 1, 5, 3]);
    assert!(tokens.iter().all(|&t| t < tok.vocab_size()));
}

#[test]
fn decode_joins_words_with_spaces() {
    let mut tok = Tokenizer::new();
    tok.add_word("hello");
    tok.add_word("world");
    assert_eq!(tok.decode(&[4, 5, 4]), "hello world hello");
}

#[test]
fn decode_hides_special_and_unknown_ids() {
    let mut tok = Tokenizer::new();
    tok.add_word("hello");
    assert_eq!(tok.decode(&[2, 4, 1, 99, 0, 3]), "hello");
    assert_eq!(tok.decode(&[]), "");
}

#[test]
fn decode_hides_words_that_start_with_angle_bracket() {
    let mut tok = Tokenizer::new();
    tok.add_word("<tag>");
    tok.add_word("a<b");
    assert_eq!(tok.decode(&[4, 5]), "a<b");
}

#[test]
fn decode_shows_empty_word() {
    let mut tok = Tokenizer::new();
    tok.add_word("");
    tok.add_word("x");
    assert_eq!(tok.decode(&[4, 5, 4]), " x ");
}

#[test]
fn decode_of_encode_gives_known_cleaned_words() {
    let mut tok = Tokenizer::new();
    tok.add_word("hello");
    tok.add_word("new");
    tok.add_word("world");
    let tokens = tok.encode("Hello, brave NEW world!");
    assert_eq!(tokens, vec![2, 4, 1, 5, 6, 3]);
    assert_eq!(tok.decode(&tokens), "hello new world");
}
