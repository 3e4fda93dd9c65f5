//! What a guess scores against two answers at once.
//!
//! Only the first occurrence of a letter in the guess is scored. A scored
//! letter is held against the first answer before the second, and a match in
//! place outranks a match out of place.

use crate::letters::{
    distinct_letters, lemma_distinct_count, lemma_distinct_letters, lemma_positions_ascending,
    letter_codes, positions,
};
use vstd::prelude::*;

verus! {

/// The result for a single letter of a guess.
#[derive(Debug, Clone, Copy, PartialEq, Eq, Structural)]
pub enum LetterResult {
    /// The letter stands at this place in one of the answers.
    CorrectLetterCorrectPlace,
    /// The letter occurs in one of the answers, at another place.
    CorrectLetterWrongPlace,
    /// The letter occurs in neither answer.
    WrongLetter,
}

/// The answer that a scored letter counts for.
#[derive(Debug, Clone, Copy, PartialEq, Eq, Structural)]
pub enum Touched {
    /// The first answer.
    First,
    /// The second answer.
    Second,
    /// Neither answer.
    Neither,
}

/// The result for a guessed word.
#[derive(Debug)]
pub struct GuessResult {
    /// The guess.
    pub word: String,
    /// The results of the scored letters, in the order of the guess.
    pub letter_results: Vec<LetterResult>,
    /// Whether the guess has letters of both answers.
    pub both_words: bool,
}

/// A `GuessResult` as a mathematical value.
pub struct GuessOutcome {
    /// The guess.
    pub word: Seq<char>,
    /// The results of the scored letters, in the order of the guess.
    pub letter_results: Seq<LetterResult>,
    /// Whether the guess has letters of both answers.
    pub both_words: bool,
}

impl View for GuessResult {
    type V = GuessOutcome;

    open spec fn view(&self) -> GuessOutcome {
        GuessOutcome {
            word: self.word@,
            letter_results: self.letter_results@,
            both_words: self.both_words,
        }
    }
}

/// The letter at position `i` occurs nowhere before `i`.
pub open spec fn is_first_occurrence(word: Seq<char>, i: int) -> bool {
    forall|j: int| 0 <= j < i ==> word[j] != word[i]
}

/// The first occurrences among the first `n` positions of `guess`, ascending.
pub open spec fn first_occurrences(guess: Seq<char>, n: nat) -> Seq<int> {
    Seq::new(n, |i: int| i).filter(|i: int| is_first_occurrence(guess, i))
}

/// The positions of `guess` that are scored: the first occurrence of each
/// letter.
pub open spec fn scored_positions(guess: Seq<char>) -> Seq<int> {
    first_occurrences(guess, guess.len())
}

/// The result for the letter `c` at position `i` against the answers `a` and
/// `b`.
pub open spec fn classify(c: char, i: int, a: Seq<char>, b: Seq<char>) -> LetterResult {
    if a[i] == c || b[i] == c {
        LetterResult::CorrectLetterCorrectPlace
    } else if a.contains(c) || b.contains(c) {
        LetterResult::CorrectLetterWrongPlace
    } else {
        LetterResult::WrongLetter
    }
}

/// The answer that the letter `c` at position `i` counts for: in place
/// before out of place, and within either the first answer before the second.
pub open spec fn touched(c: char, i: int, a: Seq<char>, b: Seq<char>) -> Touched {
    if a[i] == c {
        Touched::First
    } else if b[i] == c {
        Touched::Second
    } else if a.contains(c) {
        Touched::First
    } else if b.contains(c) {
        Touched::Second
    } else {
        Touched::Neither
    }
}

/// Some scored letter among the first `n` of `guess` counts for the answer
/// `which`.
pub open spec fn touches_within(
    guess: Seq<char>,
    a: Seq<char>,
    b: Seq<char>,
    which: Touched,
    n: int,
) -> bool {
    exists|i: int|
        0 <= i < n && is_first_occurrence(guess, i) && #[trigger] touched(guess[i], i, a, b)
            == which
}

/// Some scored letter of `guess` counts for the answer `which`.
pub open spec fn touches(guess: Seq<char>, a: Seq<char>, b: Seq<char>, which: Touched) -> bool {
    touches_within(guess, a, b, which, guess.len() as int)
}

/// The results of the scored letters among the first `n` of `guess`.
pub open spec fn letter_outcomes_within(
    guess: Seq<char>,
    a: Seq<char>,
    b: Seq<char>,
    n: nat,
) -> Seq<LetterResult> {
    first_occurrences(guess, n).map_values(|i: int| classify(guess[i], i, a, b))
}

/// The results of the scored letters of `guess`, in the order of the guess.
pub open spec fn letter_outcomes(guess: Seq<char>, a: Seq<char>, b: Seq<char>) -> Seq<
    LetterResult,
> {
    letter_outcomes_within(guess, a, b, guess.len())
}

/// What `guess` scores against the answers `a` and `b`.
pub open spec fn outcome(guess: Seq<char>, a: Seq<char>, b: Seq<char>) -> GuessOutcome {
    GuessOutcome {
        word: guess,
        letter_results: letter_outcomes(guess, a, b),
        both_words: touches(guess, a, b, Touched::First) && touches(guess, a, b, Touched::Second),
    }
}

/// The letters of `guess` that occur in one of the answers.
pub open spec fn found_by(guess: Seq<char>, a: Seq<char>, b: Seq<char>) -> Set<char> {
    Set::new(|c: char| guess.contains(c) && (a.contains(c) || b.contains(c)))
}

/// The letters of `guess` that occur in neither answer.
pub open spec fn eliminated_by(guess: Seq<char>, a: Seq<char>, b: Seq<char>) -> Set<char> {
    Set::new(|c: char| guess.contains(c) && !a.contains(c) && !b.contains(c))
}

/// The guess is one of the two answers, letter for letter.
pub open spec fn is_correct(guess: Seq<char>, a: Seq<char>, b: Seq<char>) -> bool {
    guess == a || guess == b
}

/// Taking one more position into account appends that position if it is a
/// first occurrence, and changes nothing otherwise.
pub proof fn lemma_first_occurrences_step(guess: Seq<char>, n: nat)
    ensures
        first_occurrences(guess, n + 1) == if is_first_occurrence(guess, n as int) {
            first_occurrences(guess, n).push(n as int)
        } else {
            first_occurrences(guess, n)
        },
{
    let id = |i: int| i;
    let first = |i: int| is_first_occurrence(guess, i);
    assert(Seq::new(n + 1, id) == Seq::new(n, id).push(n as int));
    Seq::new(n, id).lemma_filter_push(n as int, first);
}

/// A position is a first occurrence exactly if its letter does not occur
/// before it.
pub proof fn lemma_first_occurrence_is_new(guess: Seq<char>, n: int)
    requires
        0 <= n < guess.len(),
    ensures
        is_first_occurrence(guess, n) <==> !guess.take(n).contains(guess[n]),
{
    if guess.take(n).contains(guess[n]) {
        let j = choose|j: int| 0 <= j < n && guess.take(n)[j] == guess[n];
        assert(guess[j] == guess[n]);
    } else {
        assert forall|j: int| 0 <= j < n implies guess[j] != guess[n] by {
            assert(guess.take(n)[j] == guess[j]);
        }
    }
}

/// The first position in a letter's position list is the letter's first
/// occurrence.
pub proof fn lemma_first_position(word: Seq<char>, i: int)
    requires
        0 <= i < word.len(),
    ensures
        positions(word, word[i]).len() > 0,
        positions(word, word[i])[0] == i <==> is_first_occurrence(word, i),
{
    let p = positions(word, word[i]);
    lemma_positions_ascending(word, word[i]);
    assert(p.contains(i));
    let k = choose|k: int| 0 <= k < p.len() && p[k] == i;
    if is_first_occurrence(word, i) {
        if k > 0 {
            assert(p[0] < p[k]);
            assert(word[p[0]] == word[i]);
        }
    }
    if p[0] == i {
        assert forall|j: int| 0 <= j < i implies word[j] != word[i] by {
            if word[j] == word[i] {
                assert(p.contains(j));
                let l = choose|l: int| 0 <= l < p.len() && p[l] == j;
                if l > 0 {
                    assert(p[0] < p[l]);
                }
            }
        }
    }
}

/// The scored letters among the first `n` are the distinct letters among the
/// first `n`, in the order of their first occurrence.
pub proof fn lemma_scored_letters_within(guess: Seq<char>, n: nat)
    requires
        n <= guess.len(),
    ensures
        first_occurrences(guess, n).map_values(|i: int| guess[i]) == distinct_letters(
            guess.take(n as int),
        ),
        forall|k: int|
            0 <= k < first_occurrences(guess, n).len() ==> 0 <= #[trigger] first_occurrences(
                guess,
                n,
            )[k] < n,
    decreases n,
{
    let letter = |i: int| guess[i];
    if n == 0 {
        assert(first_occurrences(guess, 0) == Seq::<int>::empty());
        assert(first_occurrences(guess, 0).map_values(letter) == Seq::<char>::empty());
    } else {
        let m = (n - 1) as nat;
        lemma_scored_letters_within(guess, m);
        lemma_first_occurrences_step(guess, m);
        lemma_first_occurrence_is_new(guess, m as int);
        let word = guess.take(n as int);
        assert(word.drop_last() == guess.take(m as int));
        assert(word.last() == guess[m as int]);
        if is_first_occurrence(guess, m as int) {
            assert(first_occurrences(guess, m).push(m as int).map_values(letter)
                == first_occurrences(guess, m).map_values(letter).push(guess[m as int]));
        }
    }
}

/// As many letters are scored as the guess has distinct letters.
pub proof fn lemma_scored_count(guess: Seq<char>, a: Seq<char>, b: Seq<char>)
    ensures
        letter_outcomes(guess, a, b).len() == scored_positions(guess).len(),
        scored_positions(guess).len() == distinct_letters(guess).len(),
        scored_positions(guess).len() == letter_codes(guess).len(),
        scored_positions(guess).len() <= guess.len(),
{
    lemma_scored_letters_within(guess, guess.len());
    assert(guess.take(guess.len() as int) == guess);
    let d = distinct_letters(guess);
    assert(scored_positions(guess).map_values(|i: int| guess[i]).len() == d.len());
    lemma_distinct_letters(guess);
    lemma_distinct_count(d);
    lemma_distinct_count(guess);
}

/// Two results for the same guess against the same answers are equal.
pub proof fn lemma_scoring_is_repeatable(
    first: GuessResult,
    second: GuessResult,
    guess: Seq<char>,
    a: Seq<char>,
    b: Seq<char>,
)
    requires
        first@ == outcome(guess, a, b),
        second@ == outcome(guess, a, b),
    ensures
        first@ == second@,
        first.word@ == second.word@,
        first.letter_results@ == second.letter_results@,
        first.both_words == second.both_words,
{
}

/// Whether `letter` occurs in `word`.
pub fn has_letter(word: &str, letter: char) -> (found: bool)
    ensures
        found == word@.contains(letter),
{
    for c in it: word.chars()
        invariant
            it.seq() == word@,
            !word@.take(it.index() as int).contains(letter),
    {
        if c == letter {
            return true;
        }
        proof {
            let i = it.index() as int;
            assert(word@.take(i + 1) == word@.take(i).push(word@[i]));
            vstd::seq_lib::lemma_seq_contains_after_push(word@.take(i), word@[i], letter);
        }
    }
    assert(word@.take(word@.len() as int) == word@);
    false
}

/// The result for `letter` at position `i` of a guess, and the answer that it
/// counts for. Both answers reach to position `i`.
pub fn classify_letter(letter: char, i: usize, answer_a: &str, answer_b: &str) -> (r: (
    LetterResult,
    Touched,
))
    requires
        i < answer_a@.len(),
        i < answer_b@.len(),
    ensures
        r.0 == classify(letter, i as int, answer_a@, answer_b@),
        r.1 == touched(letter, i as int, answer_a@, answer_b@),
{
    if letter == answer_a.get_char(i) {
        (LetterResult::CorrectLetterCorrectPlace, Touched::First)
    } else if letter == answer_b.get_char(i) {
        (LetterResult::CorrectLetterCorrectPlace, Touched::Second)
    } else if has_letter(answer_a, letter) {
        (LetterResult::CorrectLetterWrongPlace, Touched::First)
    } else if has_letter(answer_b, letter) {
        (LetterResult::CorrectLetterWrongPlace, Touched::Second)
    } else {
        (LetterResult::WrongLetter, Touched::Neither)
    }
}

} // verus!
