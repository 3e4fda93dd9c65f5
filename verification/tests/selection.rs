use qwordle::selection::{is_disjoint_pair, select_words, ExhaustionError};
use std::collections::HashSet;

fn words(list: &[&str]) -> Vec<String> {
    list.iter().map(|w| w.to_string()).collect()
}

fn word_bank() -> Vec<String> {
    words(&[
        "arise", "count", "lymph", "stack", "shunt", "audio", "wrist", "blend", "chomp", "fjord",
        "glyph", "quick", "vixen", "waltz", "zebra", "brick", "dwelt", "jumpy", "nymph", "vodka",
    ])
}

#[test]
fn test_select_words() {
    let words = select_words(&word_bank(), 100).unwrap();
    let all_chars: HashSet<char> = words.join("").chars().collect();
    assert_eq!(10, all_chars.len());
}

#[test]
fn select_words_returns_two_words_of_the_bank() {
    let bank = word_bank();
    for _ in 0..50 {
        let pair = select_words(&bank, 100).unwrap();
        assert_eq!(2, pair.len());
        assert!(bank.contains(&pair[0]));
        assert!(bank.contains(&pair[1]));
        assert_ne!(pair[0], pair[1]);
        assert!(is_disjoint_pair(&pair));
    }
}

#[test]
fn select_words_pairs_the_one_word_that_shares_no_letter() {
    let bank = words(&["arise", "raise", "count", "aisle"]);
    for _ in 0..20 {
        let mut pair = select_words(&bank, 255).unwrap();
        pair.sort();
        assert!(pair == words(&["arise", "count"]) || pair == words(&["count", "raise"])
            || pair == words(&["aisle", "count"]));
    }
}

#[test]
fn select_words_fails_without_a_single_draw() {
    assert_eq!(Err(ExhaustionError { iterations: 0 }), select_words(&word_bank(), 0));
}

#[test]
fn select_words_fails_when_all_words_share_letters() {
    let bank = words(&["arise", "raise", "aisle", "stare"]);
    assert_eq!(Err(ExhaustionError { iterations: 100 }), select_words(&bank, 100));
}

#[test]
fn select_words_fails_when_the_bank_is_too_small() {
    assert_eq!(Err(ExhaustionError { iterations: 10 }), select_words(&words(&["arise"]), 10));
    assert_eq!(Err(ExhaustionError { iterations: 10 }), select_words(&Vec::new(), 10));
}

#[test]
fn select_words_does_not_draw_one_place_twice() {
    let bank = words(&["", "arise"]);
    for _ in 0..20 {
        let mut pair = select_words(&bank, 100).unwrap();
        pair.sort();
        assert_eq!(words(&["", "arise"]), pair);
    }
    let twice = words(&["", ""]);
    assert_eq!(Ok(words(&["", ""])), select_words(&twice, 100));
}

#[test]
fn exhaustion_message_names_the_number_of_draws() {
    let error = ExhaustionError { iterations: 100 };
    assert_eq!("Could not find non-overlapping words in 100 iterations", error.message());
    let error = ExhaustionError { iterations: 0 };
    assert_eq!("Could not find non-overlapping words in 0 iterations", error.message());
}

#[test]
fn is_disjoint_pair_accepts_two_words_without_a_shared_letter() {
    assert!(is_disjoint_pair(&words(&["arise", "count"])));
    assert!(is_disjoint_pair(&words(&["lymph", "stack"])));
}

#[test]
fn is_disjoint_pair_rejects_a_shared_letter() {
    assert!(!is_disjoint_pair(&words(&["arise", "stack"])));
    assert!(!is_disjoint_pair(&words(&["count", "count"])));
}

#[test]
fn is_disjoint_pair_rejects_a_repeated_letter_in_either_word() {
    assert!(!is_disjoint_pair(&words(&["hello", "stack"])));
    assert!(!is_disjoint_pair(&words(&["stack", "hello"])));
}

#[test]
fn is_disjoint_pair_rejects_any_other_number_of_words() {
    assert!(!is_disjoint_pair(&Vec::new()));
    assert!(!is_disjoint_pair(&words(&["arise"])));
    assert!(!is_disjoint_pair(&words(&["arise", "count", "lymph"])));
}
