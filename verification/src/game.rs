//! The session of one game: two fixed answers, the words that may be
//! guessed, the count of guesses, and the letters found and eliminated so far.

use crate::letters::{
    check_repeated_letters, codes, distinct_letters, is_repetition_map, lemma_letter_code_injective,
    lemma_recorded_positions_ascending, letter_code, texts,
};
use crate::score::{
    classify_letter, eliminated_by, found_by, is_correct, is_first_occurrence,
    lemma_first_occurrence_is_new, lemma_first_occurrences_step, lemma_first_position,
    lemma_scored_count, letter_outcomes_within, outcome, touched, touches_within, GuessResult,
    LetterResult, Touched,
};
use crate::selection::{
    all_pairs_fit, has_answer_pair, is_answer_pair, select_words, ExhaustionError,
};
use std::collections::HashSet;
use vstd::prelude::*;

verus! {

/// How far a session has come.
#[derive(Debug, Clone, Copy, PartialEq, Eq, Structural)]
pub enum SessionStatus {
    /// Guesses are still taken.
    InProgress,
    /// A guess was one of the answers.
    Won,
    /// The guesses are used up and none was an answer.
    Lost,
}

/// A session as a mathematical value.
pub struct GameView {
    /// The first answer.
    pub answer_a: Seq<char>,
    /// The second answer.
    pub answer_b: Seq<char>,
    /// The words that may be guessed.
    pub valid_words: Seq<Seq<char>>,
    /// The number of guesses taken.
    pub guess_count: nat,
    /// The number of guesses allowed.
    pub max_guesses: nat,
    /// Whether a guess was one of the answers.
    pub won: bool,
    /// The guessed letters that occur in an answer.
    pub found: Set<char>,
    /// The guessed letters that occur in neither answer.
    pub eliminated: Set<char>,
}

/// The longest word whose positions fit the single byte in which a
/// repetition map records them.
pub const MAX_WORD_LENGTH: usize = 256;

/// Every word of `bank` and of `valid_words` has `len` letters.
pub open spec fn words_have_length(
    bank: Seq<Seq<char>>,
    valid_words: Seq<Seq<char>>,
    len: nat,
) -> bool {
    &&& forall|i: int| 0 <= i < bank.len() ==> (#[trigger] bank[i]).len() == len
    &&& forall|i: int| 0 <= i < valid_words.len() ==> (#[trigger] valid_words[i]).len() == len
}

/// All words of `bank` and of `valid_words` have one length, which is at most
/// `MAX_WORD_LENGTH`.
pub open spec fn pools_fit(bank: Seq<Seq<char>>, valid_words: Seq<Seq<char>>) -> bool {
    exists|len: nat| len <= MAX_WORD_LENGTH && words_have_length(bank, valid_words, len)
}

impl GameView {
    /// What holds of every session: the answers and the valid words have one
    /// length, the count is within the limit, each found letter occurs in an
    /// answer and no eliminated letter does.
    pub open spec fn wf(self) -> bool {
        &&& self.answer_a.len() == self.answer_b.len()
        &&& self.answer_a.len() <= MAX_WORD_LENGTH
        &&& forall|i: int|
            0 <= i < self.valid_words.len() ==> (#[trigger] self.valid_words[i]).len()
                == self.answer_a.len()
        &&& self.guess_count <= self.max_guesses <= u8::MAX
        &&& forall|c: char|
            self.found.contains(c) ==> self.answer_a.contains(c) || self.answer_b.contains(c)
        &&& forall|c: char|
            self.eliminated.contains(c) ==> !self.answer_a.contains(c) && !self.answer_b.contains(
                c,
            )
    }

    /// A session before the first guess.
    pub open spec fn fresh(
        answer_a: Seq<char>,
        answer_b: Seq<char>,
        valid_words: Seq<Seq<char>>,
        max_guesses: nat,
    ) -> GameView {
        GameView {
            answer_a,
            answer_b,
            valid_words,
            guess_count: 0,
            max_guesses,
            won: false,
            found: Set::empty(),
            eliminated: Set::empty(),
        }
    }

    /// Won once a guess was an answer; else lost once the guesses are used
    /// up; else in progress.
    pub open spec fn status(self) -> SessionStatus {
        if self.won {
            SessionStatus::Won
        } else if self.guess_count >= self.max_guesses {
            SessionStatus::Lost
        } else {
            SessionStatus::InProgress
        }
    }

    /// The word may be guessed.
    pub open spec fn is_valid(self, guess: Seq<char>) -> bool {
        self.valid_words.contains(guess)
    }

    /// The guess is one of the answers.
    pub open spec fn is_answer(self, guess: Seq<char>) -> bool {
        is_correct(guess, self.answer_a, self.answer_b)
    }

    /// The session after `guess` was scored: its letters are found or
    /// eliminated.
    pub open spec fn scored(self, guess: Seq<char>) -> GameView {
        GameView {
            found: self.found.union(found_by(guess, self.answer_a, self.answer_b)),
            eliminated: self.eliminated.union(eliminated_by(guess, self.answer_a, self.answer_b)),
            ..self
        }
    }

    /// The session after `guess` was submitted. A word that may not be
    /// guessed changes nothing. Any other is scored and counted, and wins the
    /// game if it is an answer.
    pub open spec fn submit(self, guess: Seq<char>) -> GameView {
        if self.is_valid(guess) {
            GameView {
                guess_count: self.guess_count + 1,
                won: self.won || self.is_answer(guess),
                ..self.scored(guess)
            }
        } else {
            self
        }
    }

    /// The session after the guesses were submitted one after the other.
    pub open spec fn submit_all(self, guesses: Seq<Seq<char>>) -> GameView
        decreases guesses.len(),
    {
        if guesses.len() == 0 {
            self
        } else {
            self.submit_all(guesses.drop_last()).submit(guesses.last())
        }
    }
}

/// The number is the code of a letter.
pub open spec fn is_letter_code(k: u32) -> bool {
    exists|c: char| letter_code(c) == k
}

/// The letters whose codes are in `codes`.
pub open spec fn letters_of_codes(codes: Set<u32>) -> Set<char> {
    Set::new(|c: char| codes.contains(letter_code(c)))
}

/// The codes of the letters in `letters`.
pub open spec fn codes_of_letters(letters: Set<char>) -> Set<u32> {
    Set::new(|k: u32| exists|c: char| letters.contains(c) && letter_code(c) == k)
}

/// The game state whilst in operation.
pub struct GameState {
    answers: Vec<String>,
    valid_words: Vec<String>,
    guess_count: u8,
    max_guesses: u8,
    won: bool,
    found_chars: HashSet<u32>,
    eliminated_chars: HashSet<u32>,
}

impl View for GameState {
    type V = GameView;

    closed spec fn view(&self) -> GameView {
        GameView {
            answer_a: self.answers@[0]@,
            answer_b: self.answers@[1]@,
            valid_words: texts(self.valid_words@),
            guess_count: self.guess_count as nat,
            max_guesses: self.max_guesses as nat,
            won: self.won,
            found: letters_of_codes(self.found_chars@),
            eliminated: letters_of_codes(self.eliminated_chars@),
        }
    }
}

/// Whether every word of `words` has `len` letters.
fn all_of_length(words: &Vec<String>, len: usize) -> (all: bool)
    ensures
        all == forall|i: int| 0 <= i < words@.len() ==> (#[trigger] texts(words@)[i]).len() == len,
{
    let ghost letters = texts(words@);
    let mut i: usize = 0;
    while i < words.len()
        invariant
            i <= words.len(),
            letters == texts(words@),
            forall|k: int| 0 <= k < i ==> (#[trigger] letters[k]).len() == len,
        decreases words.len() - i,
    {
        if words[i].as_str().unicode_len() != len {
            assert(letters[i as int].len() != len);
            return false;
        }
        i += 1;
    }
    true
}

/// Whether all words of `word_bank` and of `valid_words` have one length, and
/// that at most `MAX_WORD_LENGTH`.
pub fn check_pools(word_bank: &Vec<String>, valid_words: &Vec<String>) -> (fit: bool)
    ensures
        fit == pools_fit(texts(word_bank@), texts(valid_words@)),
{
    let ghost bank = texts(word_bank@);
    let ghost valid = texts(valid_words@);
    if word_bank.len() == 0 && valid_words.len() == 0 {
        assert(words_have_length(bank, valid, 0));
        return true;
    }
    let len = if word_bank.len() > 0 {
        word_bank[0].as_str().unicode_len()
    } else {
        valid_words[0].as_str().unicode_len()
    };
    let fit = len <= MAX_WORD_LENGTH && all_of_length(word_bank, len) && all_of_length(
        valid_words,
        len,
    );
    proof {
        if fit {
            assert(words_have_length(bank, valid, len as nat));
        }
        if pools_fit(bank, valid) {
            let l = choose|l: nat| l <= MAX_WORD_LENGTH && words_have_length(bank, valid, l);
            if word_bank.len() > 0 {
                assert(bank[0].len() == l);
            } else {
                assert(valid[0].len() == l);
            }
            assert(words_have_length(bank, valid, len as nat));
        }
    }
    fit
}

impl GameState {
    /// What holds of every session: there are two answers, the two hash sets
    /// hold codes of letters only, and the session that the fields stand for
    /// is well formed.
    #[verifier::type_invariant]
    closed spec fn inv(&self) -> bool {
        &&& self.answers@.len() == 2
        &&& forall|k: u32| self.found_chars@.contains(k) ==> is_letter_code(k)
        &&& forall|k: u32| self.eliminated_chars@.contains(k) ==> is_letter_code(k)
        &&& self@.wf()
    }

    /// A session with the given two answers, before the first guess. The
    /// answers and the valid words are of one length, as `check_pools` tells.
    pub fn with_answers(answers: Vec<String>, valid_words: Vec<String>, max_guesses: u8) -> (state:
        GameState)
        requires
            answers@.len() == 2,
            pools_fit(texts(answers@), texts(valid_words@)),
        ensures
            state@.wf(),
            state@ == GameView::fresh(
                answers@[0]@,
                answers@[1]@,
                texts(valid_words@),
                max_guesses as nat,
            ),
    {
        broadcast use vstd::std_specs::hash::group_hash_axioms;

        proof {
            let bank = texts(answers@);
            let valid = texts(valid_words@);
            let len = choose|len: nat|
                len <= MAX_WORD_LENGTH && words_have_length(bank, valid, len);
            assert(bank[0].len() == len && bank[1].len() == len);
            assert(letters_of_codes(Set::<u32>::empty()) =~= Set::empty());
        }
        GameState {
            answers: answers,
            valid_words: valid_words,
            guess_count: 0,
            max_guesses: max_guesses,
            won: false,
            found_chars: HashSet::new(),
            eliminated_chars: HashSet::new(),
        }
    }

    /// A session with two answers picked from the word bank, before the first
    /// guess. The words of the bank and the valid words are of one length, as
    /// `check_pools` tells. Fails if no two words without a shared letter come
    /// up in 100 draws.
    pub fn new(word_bank: &Vec<String>, valid_words: Vec<String>, max_guesses: u8) -> (created:
        Result<GameState, ExhaustionError>)
        requires
            pools_fit(texts(word_bank@), texts(valid_words@)),
        ensures
            match created {
                Ok(state) => {
                    &&& state@.wf()
                    &&& state@ == GameView::fresh(
                        state@.answer_a,
                        state@.answer_b,
                        texts(valid_words@),
                        max_guesses as nat,
                    )
                    &&& is_answer_pair(seq![state@.answer_a, state@.answer_b], texts(word_bank@))
                },
                Err(e) => e.iterations == 100,
            },
            !has_answer_pair(texts(word_bank@)) ==> created is Err,
            all_pairs_fit(texts(word_bank@)) ==> created is Ok,
    {
        match select_words(word_bank, 100) {
            Err(e) => Err(e),
            Ok(answers) => {
                proof {
                    let bank = texts(word_bank@);
                    let valid = texts(valid_words@);
                    let pair = texts(answers@);
                    let len = choose|len: nat|
                        len <= MAX_WORD_LENGTH && words_have_length(bank, valid, len);
                    assert(words_have_length(pair, valid, len));
                    assert(pair == seq![answers@[0]@, answers@[1]@]);
                }
                Ok(GameState::with_answers(answers, valid_words, max_guesses))
            },
        }
    }

    /// Whether the maximum number of guesses has been met.
    pub fn out_of_guesses(&self) -> (out: bool)
        ensures
            out == (self@.guess_count >= self@.max_guesses),
    {
        self.guess_count >= self.max_guesses
    }

    /// How far the session has come.
    pub fn status(&self) -> (status: SessionStatus)
        ensures
            status == self@.status(),
            self@.wf(),
    {
        proof {
            use_type_invariant(self);
        }
        if self.won {
            SessionStatus::Won
        } else if self.guess_count >= self.max_guesses {
            SessionStatus::Lost
        } else {
            SessionStatus::InProgress
        }
    }

    /// Whether a guess was one of the answers.
    pub fn is_won(&self) -> (won: bool)
        ensures
            won == (self@.status() == SessionStatus::Won),
    {
        self.won
    }

    /// Whether the guesses are used up and none was an answer.
    pub fn is_lost(&self) -> (lost: bool)
        ensures
            lost == (self@.status() == SessionStatus::Lost),
    {
        !self.won && self.guess_count >= self.max_guesses
    }

    /// The number of guesses that are left.
    pub fn attempts_remaining(&self) -> (left: u8)
        ensures
            left == self@.max_guesses - self@.guess_count,
    {
        proof {
            use_type_invariant(self);
        }
        self.max_guesses - self.guess_count
    }

    /// Whether `guess` is in the list of valid words. A word that is has as
    /// many letters as the answers.
    pub fn validate_guess(&self, guess: &String) -> (valid: bool)
        ensures
            valid == self@.is_valid(guess@),
            valid ==> guess@.len() == self@.answer_a.len(),
    {
        proof {
            use_type_invariant(self);
        }
        let ghost words = self@.valid_words;
        let mut i: usize = 0;
        while i < self.valid_words.len()
            invariant
                i <= self.valid_words.len(),
                words == texts(self.valid_words@),
                forall|k: int| 0 <= k < i ==> words[k] != guess@,
                forall|k: int|
                    0 <= k < words.len() ==> (#[trigger] words[k]).len() == self@.answer_a.len(),
            decreases self.valid_words.len() - i,
        {
            if self.valid_words[i] == *guess {
                assert(words[i as int] == guess@);
                return true;
            }
            i += 1;
        }
        false
    }

    /// Scores `guess`, which has as many letters as the answers, against the
    /// two answers and takes note of its letters.
    ///
    /// Only the first occurrence of each letter of the guess is scored. The
    /// letters that occur in an answer join the found letters, the others the
    /// eliminated letters.
    pub fn check_guess(&mut self, guess: &String) -> (result: GuessResult)
        requires
            guess@.len() == old(self)@.answer_a.len(),
        ensures
            final(self)@.wf(),
            final(self)@ == old(self)@.scored(guess@),
            result@ == outcome(guess@, old(self)@.answer_a, old(self)@.answer_b),
            result.letter_results@.len() == distinct_letters(guess@).len(),
            result.letter_results@.len() <= guess@.len(),
    {
        broadcast use vstd::std_specs::hash::group_hash_axioms;

        proof {
            use_type_invariant(&*self);
        }
        let ghost a = self@.answer_a;
        let ghost b = self@.answer_b;
        let ghost word = guess@;
        let ghost found_at_first = self@.found;
        let ghost eliminated_at_first = self@.eliminated;

        // The session has to be well formed whenever one of its fields
        // changes, so the two sets are filled outside it.
        let mut found: HashSet<u32> = HashSet::new();
        let mut eliminated: HashSet<u32> = HashSet::new();
        proof {
            assert(letters_of_codes(Set::<u32>::empty()) =~= Set::empty());
            let emptied = GameState { found_chars: found, ..*self };
            assert(emptied@.valid_words == self@.valid_words);
        }
        std::mem::swap(&mut self.found_chars, &mut found);
        proof {
            let emptied = GameState { eliminated_chars: eliminated, ..*self };
            assert(emptied@.valid_words == self@.valid_words);
        }
        std::mem::swap(&mut self.eliminated_chars, &mut eliminated);

        let mut letter_results: Vec<LetterResult> = Vec::new();
        let mut in_first = false;
        let mut in_second = false;
        let repeated_guess_letters = check_repeated_letters(guess.as_str());
        let mut i: usize = 0;
        proof {
            assert(found_by(word.take(0), a, b) =~= Set::empty());
            assert(eliminated_by(word.take(0), a, b) =~= Set::empty());
            assert(letters_of_codes(found@) =~= found_at_first.union(
                found_by(word.take(0), a, b),
            ));
            assert(letters_of_codes(eliminated@) =~= eliminated_at_first.union(
                eliminated_by(word.take(0), a, b),
            ));
            assert(letter_outcomes_within(word, a, b, 0) =~= Seq::<LetterResult>::empty());
        }
        for letter in it: guess.chars()
            invariant
                it.seq() == word,
                i == it.index(),
                word.len() == a.len(),
                word.len() == b.len(),
                word.len() <= MAX_WORD_LENGTH,
                self.answers@.len() == 2,
                a == self.answers@[0]@,
                b == self.answers@[1]@,
                forall|k: u32| found@.contains(k) ==> is_letter_code(k),
                forall|k: u32| eliminated@.contains(k) ==> is_letter_code(k),
                letters_of_codes(found@) == found_at_first.union(
                    found_by(word.take(i as int), a, b),
                ),
                letters_of_codes(eliminated@) == eliminated_at_first.union(
                    eliminated_by(word.take(i as int), a, b),
                ),
                letter_results@ == letter_outcomes_within(word, a, b, i as nat),
                in_first == touches_within(word, a, b, Touched::First, i as int),
                in_second == touches_within(word, a, b, Touched::Second, i as int),
                repeated_guess_letters is None <==> word.no_duplicates(),
                repeated_guess_letters matches Some(m) ==> is_repetition_map(m@, word),
        {
            let ghost before = word.take(i as int);
            let ghost found_before = letters_of_codes(found@);
            let ghost eliminated_before = letters_of_codes(eliminated@);
            let key: u32 = letter as u32;
            // Only the first occurrence of a repeated letter tells anything,
            // as no answer repeats a letter.
            let first = match &repeated_guess_letters {
                None => true,
                Some(map) => {
                    proof {
                        assert(codes(word)[i as int] == key);
                        lemma_first_position(word, i as int);
                        lemma_recorded_positions_ascending(word, letter);
                    }
                    let indices = map.get(&key).unwrap();
                    indices[0] == (i % 256) as u8
                },
            };
            proof {
                lemma_first_position(word, i as int);
                lemma_first_occurrences_step(word, i as nat);
                lemma_first_occurrence_is_new(word, i as int);
                assert(word.take(i + 1) == before.push(letter));
                assert(first == is_first_occurrence(word, i as int));
            }
            if first {
                let (result, which) = classify_letter(
                    letter,
                    i,
                    self.answers[0].as_str(),
                    self.answers[1].as_str(),
                );
                match which {
                    Touched::First => {
                        in_first = true;
                    },
                    Touched::Second => {
                        in_second = true;
                    },
                    Touched::Neither => {},
                }
                match result {
                    LetterResult::WrongLetter => {
                        eliminated.insert(key);
                    },
                    _ => {
                        found.insert(key);
                    },
                }
                letter_results.push(result);
                proof {
                    assert(touched(word[i as int], i as int, a, b) == which);
                    assert(letter_code(letter) == key);
                    assert(a[i as int] == letter ==> a.contains(letter));
                    assert(b[i as int] == letter ==> b.contains(letter));
                }
            }
            proof {
                let after = word.take(i + 1);
                assert forall|c: char| after.contains(c) <==> before.contains(c) || c
                    == letter by {
                    vstd::seq_lib::lemma_seq_contains_after_push(before, letter, c);
                }
                let in_answer = a.contains(letter) || b.contains(letter);
                assert forall|c: char|
                    letters_of_codes(found@).contains(c) <==> found_before.contains(c) || (first
                        && in_answer && c == letter) by {
                    if letter_code(c) == key {
                        lemma_letter_code_injective(c, letter);
                    }
                }
                assert forall|c: char|
                    letters_of_codes(eliminated@).contains(c) <==> eliminated_before.contains(c)
                        || (first && !in_answer && c == letter) by {
                    if letter_code(c) == key {
                        lemma_letter_code_injective(c, letter);
                    }
                }
                assert(!first ==> before.contains(letter));
                assert forall|c: char|
                    letters_of_codes(found@).contains(c) <==> found_at_first.union(
                        found_by(after, a, b),
                    ).contains(c) by {
                    assert(found_before.contains(c) <==> found_at_first.contains(c) || found_by(
                        before,
                        a,
                        b,
                    ).contains(c));
                }
                assert forall|c: char|
                    letters_of_codes(eliminated@).contains(c) <==> eliminated_at_first.union(
                        eliminated_by(after, a, b),
                    ).contains(c) by {
                    assert(eliminated_before.contains(c) <==> eliminated_at_first.contains(c)
                        || eliminated_by(before, a, b).contains(c));
                }
                assert(letters_of_codes(found@) =~= found_at_first.union(found_by(after, a, b)));
                assert(letters_of_codes(eliminated@) =~= eliminated_at_first.union(
                    eliminated_by(after, a, b),
                ));
                assert(in_first == touches_within(word, a, b, Touched::First, i + 1));
                assert(in_second == touches_within(word, a, b, Touched::Second, i + 1));
            }
            i += 1;
        }
        proof {
            assert(word.take(word.len() as int) == word);
            lemma_scored_count(word, a, b);
            assert forall|c: char| letters_of_codes(found@).contains(c) implies a.contains(c)
                || b.contains(c) by {
                assert(found_at_first.contains(c) || found_by(word, a, b).contains(c));
            }
            assert forall|c: char| letters_of_codes(eliminated@).contains(c) implies !a.contains(
                c,
            ) && !b.contains(c) by {
                assert(eliminated_at_first.contains(c) || eliminated_by(word, a, b).contains(c));
            }
        }
        self.found_chars = found;
        self.eliminated_chars = eliminated;
        GuessResult {
            word: guess.clone(),
            letter_results: letter_results,
            both_words: in_first && in_second,
        }
    }

    /// Counts one guess.
    fn increment_guess_count(&mut self)
        requires
            old(self)@.guess_count < old(self)@.max_guesses,
        ensures
            final(self)@ == (GameView {
                guess_count: old(self)@.guess_count + 1,
                ..old(self)@
            }),
    {
        proof {
            use_type_invariant(&*self);
            let counted = GameState { guess_count: (self.guess_count + 1) as u8, ..*self };
            assert(counted@.valid_words == self@.valid_words);
        }
        self.guess_count += 1;
    }

    /// Takes a guess while the session is in progress.
    ///
    /// A word that is not in the list of valid words is turned down with
    /// `invalid_word_message()` and the session stays as it is. Any other
    /// guess is scored and counted, and wins the game if it is one of the
    /// answers.
    pub fn guess(&mut self, guess: &String) -> (result: Result<GuessResult, String>)
        requires
            old(self)@.status() == SessionStatus::InProgress,
        ensures
            final(self)@.wf(),
            final(self)@ == old(self)@.submit(guess@),
            match result {
                Ok(scored) => old(self)@.is_valid(guess@) && scored@ == outcome(
                    guess@,
                    old(self)@.answer_a,
                    old(self)@.answer_b,
                ) && scored.letter_results@.len() <= guess@.len(),
                Err(message) => !old(self)@.is_valid(guess@) && *final(self) == *old(self)
                    && message@ == invalid_word_message(),
            },
    {
        proof {
            use_type_invariant(&*self);
        }
        if !self.validate_guess(guess) {
            return Err(String::from_str("Not a valid word! Please guess again"));
        }
        let result = self.check_guess(guess);
        self.increment_guess_count();
        proof {
            use_type_invariant(&*self);
        }
        if self.answers[0] == *guess || self.answers[1] == *guess {
            self.won = true;
        }
        Ok(result)
    }

    /// The codes of the letters that were found in an answer so far.
    pub fn get_found_letters(&self) -> (found: &HashSet<u32>)
        ensures
            found@ == codes_of_letters(self@.found),
    {
        proof {
            use_type_invariant(self);
            lemma_codes_of_letters(self.found_chars@);
        }
        &self.found_chars
    }

    /// The codes of the letters that were found in neither answer so far.
    pub fn get_eliminated_letters(&self) -> (eliminated: &HashSet<u32>)
        ensures
            eliminated@ == codes_of_letters(self@.eliminated),
    {
        proof {
            use_type_invariant(self);
            lemma_codes_of_letters(self.eliminated_chars@);
        }
        &self.eliminated_chars
    }

    /// The codes of the letters `a` to `z` that are not eliminated.
    pub fn get_unguessed_letters(&self) -> (unguessed: HashSet<u32>)
        ensures
            unguessed@ == codes_of_letters(alphabet().difference(self@.eliminated)),
    {
        broadcast use vstd::std_specs::hash::group_hash_axioms;

        let mut unguessed: HashSet<u32> = HashSet::new();
        let mut code: u32 = 97;
        while code <= 122
            invariant
                97 <= code <= 123,
                forall|k: u32|
                    unguessed@.contains(k) <==> 97 <= k < code && !self.eliminated_chars@.contains(
                        k,
                    ),
            decreases 123 - code,
        {
            if !self.eliminated_chars.contains(&code) {
                unguessed.insert(code);
            }
            code += 1;
        }
        proof {
            let letters = alphabet().difference(self@.eliminated);
            assert forall|k: u32| unguessed@.contains(k) <==> codes_of_letters(letters).contains(
                k,
            ) by {
                if unguessed@.contains(k) {
                    let c = k as char;
                    assert(letter_code(c) == k);
                    assert(letters.contains(c));
                }
                if codes_of_letters(letters).contains(k) {
                    let c = choose|c: char| letters.contains(c) && letter_code(c) == k;
                    lemma_alphabet_codes(c);
                }
            }
            assert(unguessed@ =~= codes_of_letters(letters));
        }
        unguessed
    }

    /// Both answers, once the game is won or lost.
    pub fn reveal_answers(&self) -> (answers: Option<(String, String)>)
        ensures
            match answers {
                Some((a, b)) => self@.status() != SessionStatus::InProgress && a@
                    == self@.answer_a && b@ == self@.answer_b,
                None => self@.status() == SessionStatus::InProgress,
            },
    {
        proof {
            use_type_invariant(self);
        }
        if self.won || self.guess_count >= self.max_guesses {
            Some((self.answers[0].clone(), self.answers[1].clone()))
        } else {
            None
        }
    }

    /// The first answer.
    pub(crate) fn first_answer(&self) -> (answer: &String)
        ensures
            answer@ == self@.answer_a,
    {
        proof {
            use_type_invariant(self);
        }
        &self.answers[0]
    }

    /// The second answer.
    pub(crate) fn second_answer(&self) -> (answer: &String)
        ensures
            answer@ == self@.answer_b,
    {
        proof {
            use_type_invariant(self);
        }
        &self.answers[1]
    }

    /// The number of guesses taken so far.
    pub(crate) fn guesses_taken(&self) -> (count: u8)
        ensures
            count == self@.guess_count,
    {
        self.guess_count
    }

    /// The number of guesses allowed.
    pub(crate) fn guesses_allowed(&self) -> (count: u8)
        ensures
            count == self@.max_guesses,
    {
        self.max_guesses
    }
}

/// The text with which a word that may not be guessed is turned down.
pub open spec fn invalid_word_message() -> Seq<char> {
    "Not a valid word! Please guess again"@
}

/// The letters `a` to `z`.
pub open spec fn alphabet() -> Set<char> {
    Set::new(|c: char| 'a' <= c && c <= 'z')
}

/// The letters `a` to `z` have the codes 97 to 122.
pub proof fn lemma_alphabet_codes(c: char)
    ensures
        alphabet().contains(c) <==> 97 <= letter_code(c) <= 122,
{
}

/// A set of letter codes holds the codes of its letters and nothing else.
pub proof fn lemma_codes_of_letters(codes: Set<u32>)
    requires
        forall|k: u32| codes.contains(k) ==> is_letter_code(k),
    ensures
        codes_of_letters(letters_of_codes(codes)) == codes,
{
    let letters = letters_of_codes(codes);
    assert forall|k: u32| codes_of_letters(letters).contains(k) <==> codes.contains(k) by {
        if codes.contains(k) {
            assert(is_letter_code(k));
            let c = choose|c: char| letter_code(c) == k;
            assert(letters.contains(c));
        }
    }
    assert(codes_of_letters(letters) =~= codes);
}

/// A word that may not be guessed leaves the session as it is: it is not
/// counted.
pub proof fn lemma_invalid_guess_changes_nothing(session: GameView, guess: Seq<char>)
    requires
        !session.is_valid(guess),
    ensures
        session.submit(guess) == session,
        session.submit(guess).guess_count == session.guess_count,
{
}

/// A valid guess that is one of the answers wins the game at once, however
/// many guesses are left.
pub proof fn lemma_answer_wins(session: GameView, guess: Seq<char>)
    requires
        session.is_valid(guess),
        session.is_answer(guess),
    ensures
        session.submit(guess).status() == SessionStatus::Won,
{
}

/// Scoring a guess a second time changes nothing: its letters are found or
/// eliminated already, and the answers against which it scores are the same.
pub proof fn lemma_scored_twice(session: GameView, guess: Seq<char>)
    ensures
        session.scored(guess).scored(guess) == session.scored(guess),
        session.scored(guess).answer_a == session.answer_a,
        session.scored(guess).answer_b == session.answer_b,
        outcome(guess, session.scored(guess).answer_a, session.scored(guess).answer_b) == outcome(
            guess,
            session.answer_a,
            session.answer_b,
        ),
{
    let once = session.scored(guess);
    let twice = once.scored(guess);
    assert(twice.found =~= once.found);
    assert(twice.eliminated =~= once.eliminated);
}

/// A guess in a well-formed session in progress leaves a well-formed session
/// with the same answers, valid words and limit, in which no letter has left
/// the found or the eliminated letters.
pub proof fn lemma_submit_keeps(session: GameView, guess: Seq<char>)
    requires
        session.wf(),
        session.status() == SessionStatus::InProgress,
    ensures
        session.submit(guess).wf(),
        session.submit(guess).answer_a == session.answer_a,
        session.submit(guess).answer_b == session.answer_b,
        session.submit(guess).valid_words == session.valid_words,
        session.submit(guess).max_guesses == session.max_guesses,
        session.found.subset_of(session.submit(guess).found),
        session.eliminated.subset_of(session.submit(guess).eliminated),
{
}

/// Valid guesses of which none is an answer are all counted and do not win.
pub proof fn lemma_wrong_guesses_count(session: GameView, guesses: Seq<Seq<char>>)
    requires
        forall|i: int|
            0 <= i < guesses.len() ==> session.is_valid(#[trigger] guesses[i])
                && !session.is_answer(guesses[i]),
    ensures
        session.submit_all(guesses).guess_count == session.guess_count + guesses.len(),
        session.submit_all(guesses).won == session.won,
        session.submit_all(guesses).max_guesses == session.max_guesses,
        session.submit_all(guesses).answer_a == session.answer_a,
        session.submit_all(guesses).answer_b == session.answer_b,
        session.submit_all(guesses).valid_words == session.valid_words,
    decreases guesses.len(),
{
    if guesses.len() > 0 {
        let front = guesses.drop_last();
        assert forall|i: int| 0 <= i < front.len() implies session.is_valid(#[trigger] front[i])
            && !session.is_answer(front[i]) by {
            assert(front[i] == guesses[i]);
        }
        lemma_wrong_guesses_count(session, front);
        assert(session.is_valid(guesses[guesses.len() - 1]));
    }
}

/// A session that starts with no guess taken is lost after as many valid
/// guesses as are allowed, if none of them is an answer, and is in progress
/// until the last of them.
pub proof fn lemma_lost_after_max_guesses(session: GameView, guesses: Seq<Seq<char>>)
    requires
        session.guess_count == 0,
        !session.won,
        guesses.len() == session.max_guesses,
        forall|i: int|
            0 <= i < guesses.len() ==> session.is_valid(#[trigger] guesses[i])
                && !session.is_answer(guesses[i]),
    ensures
        session.submit_all(guesses).status() == SessionStatus::Lost,
        forall|n: int|
            0 <= n < guesses.len() ==> (#[trigger] session.submit_all(guesses.take(n))).status()
                == SessionStatus::InProgress,
{
    lemma_wrong_guesses_count(session, guesses);
    assert forall|n: int| 0 <= n < guesses.len() implies (#[trigger] session.submit_all(
        guesses.take(n),
    )).status() == SessionStatus::InProgress by {
        let front = guesses.take(n);
        assert forall|i: int| 0 <= i < front.len() implies session.is_valid(#[trigger] front[i])
            && !session.is_answer(front[i]) by {
            assert(front[i] == guesses[i]);
        }
        lemma_wrong_guesses_count(session, front);
    }
}

} // verus!
