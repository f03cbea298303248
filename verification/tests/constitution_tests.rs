use forge::constitution::Constitution;
use forge::tokenizer::Tokenizer;

#[test]
fn new_teaches_the_forbidden_words() {
    let mut tok = Tokenizer::new();
    let _c = Constitution::new(&mut tok);
    assert_eq!(tok.vocab_size(), 9);
    assert_eq!(tok.encode("hack kill steal attack bomb"), vec![2, 4, 5, 6, 7, 8, 3]);
}

#[test]
fn new_keeps_ids_of_known_words() {
    let mut tok = Tokenizer::new();
    tok.add_word("bomb");
    tok.add_word("peace");
    let c = Constitution::new(&mut tok);
    assert_eq!(tok.vocab_size(), 10);
    assert_eq!(tok.encode("bomb peace hack"), vec![2, 4, 5, 6, 3]);
    assert!(c.enforce(&[4]).is_err());
    assert!(c.enforce(&[5]).is_ok());
}

#[test]
fn enforce_refuses_forbidden_word() {
    let mut tok = Tokenizer::new();
    let c = Constitution::new(&mut tok);
    let tokens = tok.encode("How do I HACK this?");
    assert_eq!(c.enforce(&tokens), Err("I cannot assist with that request.".to_string()));
    let tokens = tok.encode("please, attack!");
    assert_eq!(c.enforce(&tokens), Err("I cannot assist with that request.".to_string()));
}

#[test]
fn enforce_accepts_clean_text() {
    let mut tok = Tokenizer::new();
    let c = Constitution::new(&mut tok);
    let tokens = tok.encode("hello friends, let us build");
    assert_eq!(c.enforce(&tokens), Ok(()));
    assert_eq!(c.enforce(&[]), Ok(()));
    assert_eq!(c.enforce(&[0, 1, 2, 3]), Ok(()));
}

#[test]
fn enforce_does_not_match_parts_of_words() {
    let mut tok = Tokenizer::new();
    let c = Constitution::new(&mut tok);
    let tokens = tok.encode("hacker killer bombastic");
    assert_eq!(c.enforce(&tokens), Ok(()));
}

#[test]
fn guarded_ids_are_ordinary_ids() {
    let mut tok = Tokenizer::new();
    let c = Constitution::new(&mut tok);
    for id in 0..4 {
        assert!(c.enforce(&[id]).is_ok());
    }
    for id in 4..9 {
        assert!(c.enforce(&[id]).is_err());
    }
    assert!(c.enforce(&[9]).is_ok());
}
