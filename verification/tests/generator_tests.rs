use forge::generator::{context_token, generate_tokens, next_token};

/// Generation whose greedy prediction after id `t` is `successors[t]`, and
/// id 0 after an id past the end.
fn generate_from(successors: &[usize], input: &[usize], max_len: usize) -> Vec<usize> {
    let predict = |t: usize| if t < successors.len() { successors[t] } else { 0 };
    generate_tokens(predict, successors.len(), input, max_len)
}

#[test]
fn context_token_is_last_or_pad() {
    assert_eq!(context_token(&[]), 0);
    assert_eq!(context_token(&[5, 7]), 7);
}

#[test]
fn next_token_stops_at_end_of_sentence() {
    assert_eq!(next_token(3, false, 0), None);
    assert_eq!(next_token(3, true, 9), None);
}

#[test]
fn next_token_takes_prediction_or_replacement() {
    assert_eq!(next_token(5, false, 9), Some(5));
    assert_eq!(next_token(5, true, 9), Some(9));
    assert_eq!(next_token(0, false, 9), Some(0));
}

#[test]
fn generation_stops_at_predicted_end() {
    let successors = [3, 3, 3, 3, 3];
    assert_eq!(generate_from(&successors, &[2, 4], 8), vec![2, 4]);
}

#[test]
fn generation_with_zero_length_returns_input() {
    let successors = [5, 5, 5, 5, 5, 5];
    assert_eq!(generate_from(&successors, &[2, 4, 3], 0), vec![2, 4, 3]);
}

#[test]
fn generation_appends_predictions_or_ordinary_ids() {
    let successors = [5, 5, 5, 5, 5, 5];
    for _ in 0..50 {
        let out = generate_from(&successors, &[2], 8);
        assert_eq!(out.len(), 9);
        assert_eq!(out[0], 2);
        assert!(out[1..].iter().all(|&t| t == 4 || t == 5));
    }
}

#[test]
fn generation_sometimes_replaces_predictions() {
    let successors = [9; 10];
    let mut replaced = 0;
    for _ in 0..20 {
        let out = generate_from(&successors, &[2], 10);
        assert_eq!(out.len(), 11);
        for &t in &out[1..] {
            assert!((4..10).contains(&t));
            if t != 9 {
                replaced += 1;
            }
        }
    }
    assert!(replaced > 0);
}

#[test]
fn generation_from_nothing_starts_after_pad() {
    let successors = [7, 3, 3, 3, 3, 3, 3, 3];
    let out = generate_from(&successors, &[], 1);
    assert_eq!(out.len(), 1);
    assert!((4..8).contains(&out[0]));
}

#[test]
fn generation_after_unknown_id_predicts_pad() {
    let successors = [3, 3, 3, 3];
    for _ in 0..20 {
        let out = generate_from(&successors, &[100], 1);
        assert_eq!(out.len(), 2);
        assert!(out[1] == 0 || out[1] == 4);
    }
}

#[test]
fn generation_with_small_vocabulary_draws_from_four() {
    let successors: [usize; 0] = [];
    for _ in 0..20 {
        let out = generate_from(&successors, &[1], 3);
        assert_eq!(out.len(), 4);
        assert!(out[1..].iter().all(|&t| t == 0 || t == 4));
    }
}

#[test]
fn generation_asks_the_predictor_about_the_last_token() {
    let seen = std::cell::RefCell::new(Vec::new());
    let predict = |t: usize| {
        seen.borrow_mut().push(t);
        if t == 5 { 7 } else { 3 }
    };
    let out = generate_tokens(predict, 4, &[2, 5], 4);
    assert_eq!(out.len(), 3);
    assert_eq!(&out[..2], &[2, 5]);
    let seen = seen.into_inner();
    assert_eq!(seen[0], 5);
    assert_eq!(seen[1], out[2]);
}
