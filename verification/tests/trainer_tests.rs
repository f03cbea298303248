use forge::tokenizer::Tokenizer;
use forge::trainer::Trainer;

#[test]
fn learn_vocabulary_adds_cleaned_words_in_order() {
    let mut tok = Tokenizer::new();
    Trainer::learn_vocabulary("The cat, the DOG!", &mut tok);
    assert_eq!(tok.vocab_size(), 7);
    assert_eq!(tok.encode("the cat dog"), vec![2, 4, 5, 6, 3]);
}

#[test]
fn learn_vocabulary_skips_words_without_letters_or_digits() {
    let mut tok = Tokenizer::new();
    Trainer::learn_vocabulary("!!! ... -- ,", &mut tok);
    assert_eq!(tok.vocab_size(), 4);
}

#[test]
fn learn_vocabulary_lowercased_takes_text_as_given() {
    let mut tok = Tokenizer::new();
    Trainer::learn_vocabulary_lowercased("Big big", &mut tok);
    assert_eq!(tok.vocab_size(), 6);
    assert_eq!(tok.encode_lowercased("Big big"), vec![2, 4, 5, 3]);
}

#[test]
fn after_learning_no_word_is_unknown() {
    let text = "Forge learns; forge grows. 42 times!";
    let mut tok = Tokenizer::new();
    Trainer::learn_vocabulary(text, &mut tok);
    let tokens = tok.encode(text);
    assert_eq!(tokens, vec![2, 4, 5, 4, 6, 7, 8, 3]);
    assert!(!tokens.contains(&1));
}

#[test]
fn bigram_counts_of_a_sequence() {
    assert_eq!(Trainer::bigram_counts(&[0, 1, 0, 1], 2), vec![0, 2, 1, 0]);
    assert_eq!(Trainer::bigram_counts(&[1, 1, 1], 2), vec![0, 0, 0, 2]);
}

#[test]
fn bigram_counts_of_short_sequences_are_zero() {
    assert_eq!(Trainer::bigram_counts(&[], 3), vec![0; 9]);
    assert_eq!(Trainer::bigram_counts(&[2], 3), vec![0; 9]);
    assert_eq!(Trainer::bigram_counts(&[], 0), Vec::<usize>::new());
}

#[test]
fn count_bigrams_of_a_text() {
    let mut tok = Tokenizer::new();
    Trainer::learn_vocabulary("a b a b", &mut tok);
    assert_eq!(tok.vocab_size(), 6);
    let counts = Trainer::count_bigrams("a b a b", &tok);
    assert_eq!(counts.len(), 36);
    let n = 6;
    assert_eq!(counts[2 * n + 4], 1);
    assert_eq!(counts[4 * n + 5], 2);
    assert_eq!(counts[5 * n + 4], 1);
    assert_eq!(counts[5 * n + 3], 1);
    assert_eq!(counts.iter().sum::<usize>(), 5);
}

#[test]
fn grid_sums_to_number_of_pairs() {
    let tokens = [2, 4, 4, 5, 6, 4, 3];
    let counts = Trainer::bigram_counts(&tokens, 7);
    assert_eq!(counts.iter().sum::<usize>(), tokens.len() - 1);
}
