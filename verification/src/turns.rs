//! One game, turn by turn: what is shown before a guess is read, what is
//! shown after it, and when the game is over. Reading the guess and showing
//! the lines is left to the caller.

use crate::game::{invalid_word_message, GameState, GameView, SessionStatus};
use crate::messages::{guess_count_text, lost_text, processed, won_text};
use crate::score::outcome;
use crate::letters::texts;
use vstd::prelude::*;

verus! {

/// The lines to show next, and whether the game is over after them.
#[derive(Debug)]
pub struct Turn {
    /// The lines, in the order in which they are shown.
    pub lines: Vec<String>,
    /// Whether the game is over.
    pub over: bool,
}

/// A `Turn` as a mathematical value.
pub struct TurnView {
    /// The lines, in the order in which they are shown.
    pub lines: Seq<Seq<char>>,
    /// Whether the game is over.
    pub over: bool,
}

impl View for Turn {
    type V = TurnView;

    open spec fn view(&self) -> TurnView {
        TurnView { lines: texts(self.lines@), over: self.over }
    }
}

/// What is shown before a guess is read: the prompt while the game is in
/// progress, and else the line that ends the game.
pub open spec fn prompt_of(session: GameView) -> TurnView {
    match session.status() {
        SessionStatus::InProgress => TurnView {
            lines: seq![guess_count_text(session.guess_count, session.max_guesses)],
            over: false,
        },
        SessionStatus::Lost => TurnView {
            lines: seq![lost_text(session.answer_a, session.answer_b)],
            over: true,
        },
        SessionStatus::Won => TurnView {
            lines: seq![won_text(session.answer_a, session.answer_b)],
            over: true,
        },
    }
}

/// What is shown after `guess` was read in `session`: the refusal of a word
/// that may not be guessed; else the rendered guess, followed by the line
/// that ends the game if the guess is an answer, and by an empty line if not.
pub open spec fn reply_to(session: GameView, guess: Seq<char>) -> TurnView {
    if !session.is_valid(guess) {
        TurnView { lines: seq![invalid_word_message()], over: false }
    } else {
        let shown = processed(
            outcome(guess, session.answer_a, session.answer_b),
            session.answer_a,
            session.answer_b,
        );
        if shown.is_correct {
            TurnView {
                lines: seq![shown.message, won_text(session.answer_a, session.answer_b)],
                over: true,
            }
        } else {
            TurnView { lines: seq![shown.message, Seq::empty()], over: false }
        }
    }
}

impl GameState {
    /// What to show before the next guess is read.
    pub fn next_prompt(&self) -> (turn: Turn)
        ensures
            turn@ == prompt_of(self@),
    {
        let mut lines: Vec<String> = Vec::new();
        let over = if self.is_won() {
            lines.push(self.game_won_message());
            true
        } else if self.out_of_guesses() {
            lines.push(self.game_lost_message());
            true
        } else {
            lines.push(self.guess_count_message());
            false
        };
        let turn = Turn { lines: lines, over: over };
        assert(turn@.lines =~= prompt_of(self@).lines);
        turn
    }

    /// Takes the guess that was read while the game is in progress, and says
    /// what to show for it.
    pub fn play_turn(&mut self, guess: &String) -> (turn: Turn)
        requires
            old(self)@.status() == SessionStatus::InProgress,
        ensures
            final(self)@.wf(),
            final(self)@ == old(self)@.submit(guess@),
            turn@ == reply_to(old(self)@, guess@),
    {
        let mut lines: Vec<String> = Vec::new();
        let over = match self.guess(guess) {
            Err(message) => {
                lines.push(message);
                false
            },
            Ok(result) => {
                let shown = self.process_guess(&result);
                lines.push(shown.message);
                if shown.is_correct {
                    lines.push(self.game_won_message());
                } else {
                    lines.push(String::new());
                }
                shown.is_correct
            },
        };
        let turn = Turn { lines: lines, over: over };
        assert(turn@.lines =~= reply_to(old(self)@, guess@).lines);
        turn
    }
}

} // verus!
