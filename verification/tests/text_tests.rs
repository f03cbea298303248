use forge::text::{clean_word, split_whitespace};

#[test]
fn split_whitespace_gives_runs() {
    assert_eq!(split_whitespace("  a  bb\tc\n"), vec!["a", "bb", "c"]);
    assert_eq!(split_whitespace("single"), vec!["single"]);
    assert!(split_whitespace("").is_empty());
    assert!(split_whitespace(" \t\r\n").is_empty());
}

#[test]
fn split_whitespace_knows_unicode_spaces() {
    assert_eq!(split_whitespace("a\u{3000}b\u{a0}c"), vec!["a", "b", "c"]);
}

#[test]
fn split_pieces_concatenate_to_visible_characters() {
    let text = " the  quick\tbrown\n fox ";
    let joined: String = split_whitespace(text).concat();
    let visible: String = text.chars().filter(|c| !c.is_whitespace()).collect();
    assert_eq!(joined, visible);
    assert!(split_whitespace(text).iter().all(|w| !w.is_empty() && !w.chars().any(char::is_whitespace)));
}

#[test]
fn clean_word_keeps_alphanumeric_characters() {
    assert_eq!(clean_word("it's-42!"), "its42");
    assert_eq!(clean_word("..."), "");
    assert_eq!(clean_word("Ünïcödé"), "Ünïcödé");
    assert_eq!(clean_word("<PAD>"), "PAD");
}

#[test]
fn clean_word_twice_is_clean_word_once() {
    let once = clean_word("a-b_c!d");
    assert_eq!(once, "abcd");
    assert_eq!(clean_word(&once), once);
}
