//! The lines that a session shows to the player.

use crate::game::GameState;
use crate::score::{is_correct, GuessOutcome, GuessResult, LetterResult};
use crate::text::{decimal, push_decimal, to_upper, upper, upper_word};
use vstd::prelude::*;

verus! {

/// The result for a guessed word as it is shown to the player.
#[derive(Debug)]
pub struct ProcessedGuessResult {
    /// Whether the guess is one of the answers.
    pub is_correct: bool,
    /// The guess in upper case, each scored letter in its colour.
    pub message: String,
}

/// A `ProcessedGuessResult` as a mathematical value.
pub struct ProcessedOutcome {
    /// Whether the guess is one of the answers.
    pub is_correct: bool,
    /// The guess in upper case, each scored letter in its colour.
    pub message: Seq<char>,
}

impl View for ProcessedGuessResult {
    type V = ProcessedOutcome;

    open spec fn view(&self) -> ProcessedOutcome {
        ProcessedOutcome { is_correct: self.is_correct, message: self.message@ }
    }
}

/// The line that names both answers.
pub open spec fn answers_text(a: Seq<char>, b: Seq<char>) -> Seq<char> {
    "The answers were "@ + upper_word(a) + " and "@ + upper_word(b)
}

/// The line shown when the game is lost.
pub open spec fn lost_text(a: Seq<char>, b: Seq<char>) -> Seq<char> {
    "Bad luck! "@ + answers_text(a, b)
}

/// The line shown when the game is won.
pub open spec fn won_text(a: Seq<char>, b: Seq<char>) -> Seq<char> {
    "Congratulations! "@ + answers_text(a, b)
}

/// The prompt for the next guess after `count` guesses of `max`.
pub open spec fn guess_count_text(count: nat, max: nat) -> Seq<char> {
    "Guess "@ + decimal(count + 1) + "/"@ + decimal(max) + ":"@
}

/// A letter in upper case: bright green if it is in place, bright yellow if
/// it is out of place, plain if it is in neither answer.
pub open spec fn render(result: LetterResult, letter: char) -> Seq<char> {
    match result {
        LetterResult::CorrectLetterCorrectPlace => "\x1b[92m"@.push(upper(letter)) + "\x1b[0m"@,
        LetterResult::CorrectLetterWrongPlace => "\x1b[93m"@.push(upper(letter)) + "\x1b[0m"@,
        LetterResult::WrongLetter => seq![upper(letter)],
    }
}

/// The first `n` results, each rendered with the letter at its own place in
/// `word`.
pub open spec fn rendered_within(results: Seq<LetterResult>, word: Seq<char>, n: nat) -> Seq<
    char,
> {
    Seq::new(n, |i: int| render(results[i], word[i])).flatten()
}

/// The results, each rendered with the letter at its own place in `word`.
pub open spec fn rendered(results: Seq<LetterResult>, word: Seq<char>) -> Seq<char> {
    rendered_within(results, word, results.len())
}

/// What is said after a guess that is not an answer.
pub open spec fn remark(both_words: bool) -> Seq<char> {
    if both_words {
        "  (both words)"@
    } else {
        "  (same word)"@
    }
}

/// What is shown for a scored guess against the answers `a` and `b`.
pub open spec fn processed(scored: GuessOutcome, a: Seq<char>, b: Seq<char>) -> ProcessedOutcome {
    let correct = is_correct(scored.word, a, b);
    ProcessedOutcome {
        is_correct: correct,
        message: if correct {
            rendered(scored.letter_results, scored.word)
        } else {
            rendered(scored.letter_results, scored.word) + remark(scored.both_words)
        },
    }
}

/// Rendering one more result appends the rendering of that result.
pub proof fn lemma_rendered_step(results: Seq<LetterResult>, word: Seq<char>, n: nat)
    ensures
        rendered_within(results, word, n + 1) == rendered_within(results, word, n) + render(
            results[n as int],
            word[n as int],
        ),
{
    let each = |i: int| render(results[i], word[i]);
    assert(Seq::new(n + 1, each) == Seq::new(n, each).push(each(n as int)));
    Seq::new(n, each).lemma_flatten_push(each(n as int));
}

impl GameState {
    /// The line that names both answers.
    pub fn answers_string(&self) -> (text: String)
        ensures
            text@ == answers_text(self@.answer_a, self@.answer_b),
    {
        let mut text = String::from_str("The answers were ");
        text.append(to_upper(self.first_answer().as_str()).as_str());
        text.append(" and ");
        text.append(to_upper(self.second_answer().as_str()).as_str());
        text
    }

    /// The line to show to the player if the game is lost.
    pub fn game_lost_message(&self) -> (text: String)
        ensures
            text@ == lost_text(self@.answer_a, self@.answer_b),
    {
        let mut text = String::from_str("Bad luck! ");
        text.append(self.answers_string().as_str());
        text
    }

    /// The line to show to the player if the game is won.
    pub fn game_won_message(&self) -> (text: String)
        ensures
            text@ == won_text(self@.answer_a, self@.answer_b),
    {
        let mut text = String::from_str("Congratulations! ");
        text.append(self.answers_string().as_str());
        text
    }

    /// The prompt for the next guess: its number and the number of guesses
    /// allowed.
    pub fn guess_count_message(&self) -> (text: String)
        ensures
            text@ == guess_count_text(self@.guess_count, self@.max_guesses),
    {
        let mut text = String::from_str("Guess ");
        push_decimal(&mut text, self.guesses_taken() as u16 + 1);
        text.append("/");
        push_decimal(&mut text, self.guesses_allowed() as u16);
        text.append(":");
        text
    }

    /// Says whether the guess was correct and renders its result for the
    /// player: each letter result with the letter at its own place in the
    /// guess, so there are no more results than letters. The session stays as
    /// it is.
    pub fn process_guess(&mut self, guess_result: &GuessResult) -> (shown: ProcessedGuessResult)
        requires
            guess_result.letter_results@.len() <= guess_result.word@.len(),
        ensures
            *final(self) == *old(self),
            shown@ == processed(guess_result@, old(self)@.answer_a, old(self)@.answer_b),
    {
        let mut message = String::new();
        let guess = &guess_result.word;
        let ghost results = guess_result.letter_results@;
        let ghost word = guess@;
        assert(rendered_within(results, word, 0) =~= Seq::<char>::empty());
        let mut i: usize = 0;
        while i < guess_result.letter_results.len()
            invariant
                i <= guess_result.letter_results.len(),
                results == guess_result.letter_results@,
                word == guess_result.word@,
                guess == &guess_result.word,
                results.len() <= word.len(),
                message@ == rendered_within(results, word, i as nat),
            decreases guess_result.letter_results.len() - i,
        {
            let letter_upper = guess.as_str().get_char(i).to_ascii_uppercase();
            let ghost before = message@;
            match guess_result.letter_results[i] {
                LetterResult::CorrectLetterCorrectPlace => {
                    message.append("\x1b[92m");
                    message.push(letter_upper);
                    message.append("\x1b[0m");
                },
                LetterResult::CorrectLetterWrongPlace => {
                    message.append("\x1b[93m");
                    message.push(letter_upper);
                    message.append("\x1b[0m");
                },
                LetterResult::WrongLetter => {
                    message.push(letter_upper);
                },
            }
            proof {
                lemma_rendered_step(results, word, i as nat);
                assert(message@ =~= before + render(results[i as int], word[i as int]));
            }
            i += 1;
        }
        let is_correct = *self.first_answer() == *guess || *self.second_answer() == *guess;
        if !is_correct {
            if guess_result.both_words {
                message.append("  (both words)");
            } else {
                message.append("  (same word)");
            }
        }
        ProcessedGuessResult { is_correct: is_correct, message: message }
    }
}

} // verus!
