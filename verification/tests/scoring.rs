use qwordle::game::GameState;
use qwordle::score::{classify_letter, has_letter, LetterResult, Touched};
use std::collections::HashSet;

use LetterResult::{CorrectLetterCorrectPlace, CorrectLetterWrongPlace, WrongLetter};

fn words(list: &[&str]) -> Vec<String> {
    list.iter().map(|w| w.to_string()).collect()
}

fn valid_words() -> Vec<String> {
    words(&[
        "arise", "count", "lymph", "audio", "sever", "shunt", "wrist", "stack", "melee", "tacit",
        "eerie", "civic",
    ])
}

fn session(max_guesses: u8) -> GameState {
    GameState::with_answers(words(&["arise", "count"]), valid_words(), max_guesses)
}

fn codes(letters: &str) -> HashSet<u32> {
    letters.chars().map(|c| c as u32).collect()
}

#[test]
fn stack_scores_against_both_answers() {
    let mut state = session(6);
    let result = state.check_guess(&String::from("stack"));
    assert_eq!("stack", result.word);
    assert_eq!(
        vec![
            CorrectLetterWrongPlace,
            CorrectLetterWrongPlace,
            CorrectLetterWrongPlace,
            CorrectLetterWrongPlace,
            WrongLetter
        ],
        result.letter_results
    );
    assert!(result.both_words);
}

#[test]
fn count_scores_in_place_against_the_second_answer_only() {
    let mut state = session(6);
    let result = state.check_guess(&String::from("count"));
    assert_eq!(vec![CorrectLetterCorrectPlace; 5], result.letter_results);
    assert!(!result.both_words);
}

#[test]
fn lymph_scores_nothing() {
    let mut state = session(6);
    let result = state.check_guess(&String::from("lymph"));
    assert_eq!(vec![WrongLetter; 5], result.letter_results);
    assert!(!result.both_words);
}

#[test]
fn wrist_scores_in_place_against_both_answers() {
    let mut state = session(6);
    let result = state.check_guess(&String::from("wrist"));
    assert_eq!(
        vec![
            WrongLetter,
            CorrectLetterCorrectPlace,
            CorrectLetterCorrectPlace,
            CorrectLetterCorrectPlace,
            CorrectLetterCorrectPlace
        ],
        result.letter_results
    );
    assert!(result.both_words);
}

#[test]
fn a_repeated_letter_is_scored_once() {
    let mut state = session(6);
    let result = state.check_guess(&String::from("sever"));
    assert_eq!(
        vec![
            CorrectLetterWrongPlace,
            CorrectLetterWrongPlace,
            WrongLetter,
            CorrectLetterWrongPlace
        ],
        result.letter_results
    );
    assert!(!result.both_words);

    let result = state.check_guess(&String::from("melee"));
    assert_eq!(vec![WrongLetter, CorrectLetterWrongPlace, WrongLetter], result.letter_results);

    let result = state.check_guess(&String::from("tacit"));
    assert_eq!(
        vec![
            CorrectLetterWrongPlace,
            CorrectLetterWrongPlace,
            CorrectLetterWrongPlace,
            CorrectLetterWrongPlace
        ],
        result.letter_results
    );
    assert!(result.both_words);

    let result = state.check_guess(&String::from("eerie"));
    assert_eq!(
        vec![CorrectLetterWrongPlace, CorrectLetterWrongPlace, CorrectLetterWrongPlace],
        result.letter_results
    );
}

#[test]
fn as_many_letters_are_scored_as_the_guess_has_distinct_letters() {
    let mut state = session(6);
    for guess in valid_words() {
        let distinct: HashSet<char> = guess.chars().collect();
        let result = state.check_guess(&guess);
        assert_eq!(distinct.len(), result.letter_results.len());
    }
}

#[test]
fn scoring_again_gives_the_same_result() {
    let mut state = session(6);
    for guess in valid_words() {
        let first = state.check_guess(&guess);
        let found = state.get_found_letters().clone();
        let eliminated = state.get_eliminated_letters().clone();
        let second = state.check_guess(&guess);
        assert_eq!(first.word, second.word);
        assert_eq!(first.letter_results, second.letter_results);
        assert_eq!(first.both_words, second.both_words);
        assert_eq!(&found, state.get_found_letters());
        assert_eq!(&eliminated, state.get_eliminated_letters());
    }
}

#[test]
fn scoring_notes_the_letters_found_and_eliminated() {
    let mut state = session(6);
    assert!(state.get_found_letters().is_empty());
    assert!(state.get_eliminated_letters().is_empty());
    state.check_guess(&String::from("stack"));
    assert_eq!(&codes("stac"), state.get_found_letters());
    assert_eq!(&codes("k"), state.get_eliminated_letters());
    state.check_guess(&String::from("lymph"));
    assert_eq!(&codes("stac"), state.get_found_letters());
    assert_eq!(&codes("klymph"), state.get_eliminated_letters());
    state.check_guess(&String::from("sever"));
    assert_eq!(&codes("stacer"), state.get_found_letters());
    assert_eq!(&codes("klymphv"), state.get_eliminated_letters());
    assert_eq!(codes("abcdefgijnoqrstuwxz"), state.get_unguessed_letters());
}

#[test]
fn the_first_answer_comes_before_the_second_within_a_tier() {
    let valid = words(&["abc", "cab", "bca", "cba"]);
    let mut state = GameState::with_answers(words(&["abc", "cab"]), valid, 6);
    let result = state.check_guess(&String::from("bca"));
    assert_eq!(vec![CorrectLetterWrongPlace; 3], result.letter_results);
    assert!(!result.both_words);
}

#[test]
fn in_place_in_the_second_answer_outranks_out_of_place_in_the_first() {
    let valid = words(&["abc", "cab", "bca", "cba"]);
    let mut state = GameState::with_answers(words(&["abc", "cab"]), valid, 6);
    let result = state.check_guess(&String::from("cab"));
    assert_eq!(vec![CorrectLetterCorrectPlace; 3], result.letter_results);
    assert!(!result.both_words);
    let result = state.check_guess(&String::from("cba"));
    assert_eq!(
        vec![CorrectLetterCorrectPlace, CorrectLetterCorrectPlace, CorrectLetterWrongPlace],
        result.letter_results
    );
    assert!(result.both_words);
}

#[test]
fn classify_letter_follows_the_order_of_precedence() {
    let (a, b) = ("arise", "count");
    assert_eq!((CorrectLetterCorrectPlace, Touched::First), classify_letter('a', 0, a, b));
    assert_eq!((CorrectLetterCorrectPlace, Touched::Second), classify_letter('c', 0, a, b));
    assert_eq!((CorrectLetterWrongPlace, Touched::First), classify_letter('a', 1, a, b));
    assert_eq!((CorrectLetterWrongPlace, Touched::Second), classify_letter('c', 1, a, b));
    assert_eq!((WrongLetter, Touched::Neither), classify_letter('z', 4, a, b));
    assert_eq!((CorrectLetterCorrectPlace, Touched::First), classify_letter('a', 0, "abc", "abd"));
    assert_eq!((CorrectLetterCorrectPlace, Touched::Second), classify_letter('c', 0, "abc", "cab"));
    assert_eq!((CorrectLetterWrongPlace, Touched::First), classify_letter('b', 0, "abc", "cab"));
}

#[test]
fn has_letter_looks_through_the_whole_word() {
    assert!(has_letter("arise", 'a'));
    assert!(has_letter("arise", 'e'));
    assert!(!has_letter("arise", 'z'));
    assert!(!has_letter("", 'a'));
}
