use qwordle::game::GameState;

fn words(list: &[&str]) -> Vec<String> {
    list.iter().map(|w| w.to_string()).collect()
}

fn session(max_guesses: u8) -> GameState {
    let valid = words(&["arise", "count", "lymph", "audio", "sever", "stack"]);
    GameState::with_answers(words(&["arise", "count"]), valid, max_guesses)
}

#[test]
fn the_prompt_asks_for_the_next_guess() {
    let state = session(6);
    let prompt = state.next_prompt();
    assert_eq!(words(&["Guess 1/6:"]), prompt.lines);
    assert!(!prompt.over);
}

#[test]
fn the_prompt_ends_a_lost_game() {
    let mut state = session(1);
    let reply = state.play_turn(&String::from("lymph"));
    assert!(!reply.over);
    let prompt = state.next_prompt();
    assert_eq!(words(&["Bad luck! The answers were ARISE and COUNT"]), prompt.lines);
    assert!(prompt.over);
}

#[test]
fn the_prompt_ends_a_won_game() {
    let mut state = session(6);
    state.play_turn(&String::from("count"));
    let prompt = state.next_prompt();
    assert_eq!(words(&["Congratulations! The answers were ARISE and COUNT"]), prompt.lines);
    assert!(prompt.over);
}

#[test]
fn a_word_that_may_not_be_guessed_is_refused() {
    let mut state = session(6);
    let reply = state.play_turn(&String::from("zzzzz"));
    assert_eq!(words(&["Not a valid word! Please guess again"]), reply.lines);
    assert!(!reply.over);
    assert_eq!(words(&["Guess 1/6:"]), state.next_prompt().lines);
}

#[test]
fn a_wrong_guess_is_rendered_and_followed_by_an_empty_line() {
    let mut state = session(6);
    let reply = state.play_turn(&String::from("lymph"));
    assert_eq!(words(&["LYMPH  (same word)", ""]), reply.lines);
    assert!(!reply.over);
    assert_eq!(words(&["Guess 2/6:"]), state.next_prompt().lines);
}

#[test]
fn an_answer_is_rendered_and_ends_the_game() {
    let mut state = session(6);
    let reply = state.play_turn(&String::from("count"));
    assert_eq!(
        words(&[
            "\x1b[92mC\x1b[0m\x1b[92mO\x1b[0m\x1b[92mU\x1b[0m\x1b[92mN\x1b[0m\x1b[92mT\x1b[0m",
            "Congratulations! The answers were ARISE and COUNT"
        ]),
        reply.lines
    );
    assert!(reply.over);
    assert!(state.is_won());
}
