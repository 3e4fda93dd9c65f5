//! Choosing the two answers: two words are drawn at random from the word
//! bank, again and again, until they share no letter.

use crate::letters::{check_repeated_letters, texts};
use crate::text::{decimal, push_decimal};
use rand::rngs::ThreadRng;
use rand::seq::SliceRandom;
use vstd::prelude::*;

verus! {

/// `rand::rngs::ThreadRng`, the random number generator that belongs to the
/// current thread. It is handed on to `rand` as it is.
#[verifier::external_type_specification]
#[verifier::external_body]
pub struct ExThreadRng(ThreadRng);

/// `rand::thread_rng` hands out the generator of the current thread. Nothing
/// is claimed of the generator.
pub assume_specification[ rand::thread_rng ]() -> (rng: ThreadRng)
;

/// `drawn[k]` is the word at place `places[k]` of `bank`, and no place is
/// used twice.
pub open spec fn drawn_at(places: Seq<int>, drawn: Seq<Seq<char>>, bank: Seq<Seq<char>>) -> bool {
    &&& places.len() == drawn.len()
    &&& places.no_duplicates()
    &&& forall|k: int|
        0 <= k < places.len() ==> 0 <= #[trigger] places[k] < bank.len() && drawn[k]
            == bank[places[k]]
}

/// `drawn` holds `amount` words from different places of `bank`, or one from
/// every place if `bank` has fewer.
pub open spec fn is_sample(drawn: Seq<Seq<char>>, bank: Seq<Seq<char>>, amount: nat) -> bool {
    &&& drawn.len() == if bank.len() < amount {
        bank.len()
    } else {
        amount
    }
    &&& exists|places: Seq<int>| drawn_at(places, drawn, bank)
}

/// Two words of which the one written after the other has no letter twice:
/// neither repeats a letter, and they share none.
pub open spec fn shares_no_letter(words: Seq<Seq<char>>) -> bool {
    words.len() == 2 && (words[0] + words[1]).no_duplicates()
}

/// `pair` holds two words from different places of `bank` that share no
/// letter.
pub open spec fn is_answer_pair(pair: Seq<Seq<char>>, bank: Seq<Seq<char>>) -> bool {
    &&& shares_no_letter(pair)
    &&& exists|i: int, j: int|
        0 <= i < bank.len() && 0 <= j < bank.len() && i != j && pair[0] == #[trigger] bank[i]
            && pair[1] == #[trigger] bank[j]
}

/// `bank` holds, at two different places, two words that share no letter.
pub open spec fn has_answer_pair(bank: Seq<Seq<char>>) -> bool {
    exists|i: int, j: int|
        0 <= i < bank.len() && 0 <= j < bank.len() && i != j && (#[trigger] bank[i]
            + #[trigger] bank[j]).no_duplicates()
}

/// `bank` holds at least two words, and any two at different places share no
/// letter.
pub open spec fn all_pairs_fit(bank: Seq<Seq<char>>) -> bool {
    &&& bank.len() >= 2
    &&& forall|i: int, j: int|
        0 <= i < bank.len() && 0 <= j < bank.len() && i != j ==> (#[trigger] bank[i]
            + #[trigger] bank[j]).no_duplicates()
}

/// No two words without a shared letter were drawn in the allowed number of
/// draws.
#[derive(Debug, Clone, Copy, PartialEq, Eq, Structural)]
pub struct ExhaustionError {
    /// The number of draws that were allowed.
    pub iterations: u8,
}

impl ExhaustionError {
    /// The text of the error.
    pub open spec fn message_text(self) -> Seq<char> {
        "Could not find non-overlapping words in "@ + decimal(self.iterations as nat)
            + " iterations"@
    }

    /// The text of the error.
    pub fn message(&self) -> (text: String)
        ensures
            text@ == self.message_text(),
    {
        let mut text = String::from_str("Could not find non-overlapping words in ");
        push_decimal(&mut text, self.iterations as u16);
        text.append(" iterations");
        text
    }
}

/// Two words written one after the other have no repeated letter exactly if
/// neither has one and no letter occurs in both.
pub proof fn lemma_pair_is_disjoint(a: Seq<char>, b: Seq<char>)
    ensures
        (a + b).no_duplicates() <==> a.no_duplicates() && b.no_duplicates() && forall|c: char|
            !(a.contains(c) && b.contains(c)),
{
    let joined = a + b;
    if joined.no_duplicates() {
        assert forall|i: int, j: int| 0 <= i < a.len() && 0 <= j < a.len() && i != j implies a[i]
            != a[j] by {
            assert(joined[i] == a[i] && joined[j] == a[j]);
        }
        assert forall|i: int, j: int| 0 <= i < b.len() && 0 <= j < b.len() && i != j implies b[i]
            != b[j] by {
            assert(joined[a.len() + i] == b[i] && joined[a.len() + j] == b[j]);
        }
        assert forall|c: char| !(a.contains(c) && b.contains(c)) by {
            if a.contains(c) && b.contains(c) {
                let i = choose|i: int| 0 <= i < a.len() && a[i] == c;
                let j = choose|j: int| 0 <= j < b.len() && b[j] == c;
                assert(joined[i] == c && joined[a.len() + j] == c);
            }
        }
    }
    if a.no_duplicates() && b.no_duplicates() && forall|c: char|
        !(a.contains(c) && b.contains(c)) {
        assert forall|i: int, j: int| 0 <= i < a.len() && 0 <= j < b.len() implies a[i]
            != b[j] by {
            assert(a.contains(a[i]));
            assert(b.contains(b[j]));
        }
        vstd::seq_lib::lemma_no_dup_in_concat(a, b);
    }
}

/// Every answer pair from a bank is a pair of different, letter-unique words
/// with no letter in common.
pub proof fn lemma_answer_pair_is_disjoint(pair: Seq<Seq<char>>, bank: Seq<Seq<char>>)
    requires
        is_answer_pair(pair, bank),
    ensures
        (pair[0] + pair[1]).no_duplicates(),
        pair[0].no_duplicates(),
        pair[1].no_duplicates(),
        forall|c: char| !(pair[0].contains(c) && pair[1].contains(c)),
        has_answer_pair(bank),
{
    lemma_pair_is_disjoint(pair[0], pair[1]);
}

/// Draws two words with `SliceRandom::choose_multiple` of `rand`, which picks
/// two different places of the slice at random, or every place if there are
/// fewer than two, and hands out the words at those places in a random order.
/// Which places are picked is not claimed.
#[verifier::external_body]
fn draw_two(word_bank: &Vec<String>, rng: &mut ThreadRng) -> (drawn: Vec<String>)
    ensures
        is_sample(texts(drawn@), texts(word_bank@), 2),
{
    word_bank.choose_multiple(rng, 2).cloned().collect()
}

/// Whether `words` are two words that share no letter and repeat none.
pub fn is_disjoint_pair(words: &Vec<String>) -> (disjoint: bool)
    ensures
        disjoint == shares_no_letter(texts(words@)),
{
    if words.len() != 2 {
        return false;
    }
    let mut joined = words[0].clone();
    joined.append(words[1].as_str());
    assert(joined@ == texts(words@)[0] + texts(words@)[1]);
    match check_repeated_letters(joined.as_str()) {
        None => true,
        Some(_) => false,
    }
}

/// Picks two words from the word bank that share no letter.
///
/// Up to `max_iterations` times two words are drawn from different places of
/// the bank; the first two that share no letter are returned. If none did,
/// the error says how many draws were allowed. Which words are drawn is left
/// to chance, so the outcome is certain only where every draw or no draw
/// gives two such words.
pub fn select_words(word_bank: &Vec<String>, max_iterations: u8) -> (selected: Result<
    Vec<String>,
    ExhaustionError,
>)
    ensures
        match selected {
            Ok(pair) => is_answer_pair(texts(pair@), texts(word_bank@)),
            Err(e) => e.iterations == max_iterations,
        },
        max_iterations == 0 ==> selected is Err,
        !has_answer_pair(texts(word_bank@)) ==> selected is Err,
        max_iterations > 0 && all_pairs_fit(texts(word_bank@)) ==> selected is Ok,
{
    let ghost bank = texts(word_bank@);
    let mut count: u8 = 0;
    while count < max_iterations
        invariant
            count <= max_iterations,
            bank == texts(word_bank@),
            all_pairs_fit(bank) ==> count == 0,
        decreases max_iterations - count,
    {
        let mut rng = rand::thread_rng();
        let drawn = draw_two(word_bank, &mut rng);
        let ghost pair = texts(drawn@);
        let ghost places = choose|places: Seq<int>| drawn_at(places, pair, bank);
        if is_disjoint_pair(&drawn) {
            proof {
                assert(pair[0] == bank[places[0]] && pair[1] == bank[places[1]]);
                lemma_answer_pair_is_disjoint(pair, bank);
            }
            return Ok(drawn);
        }
        proof {
            if all_pairs_fit(bank) {
                assert(pair[0] == bank[places[0]] && pair[1] == bank[places[1]]);
                assert((bank[places[0]] + bank[places[1]]).no_duplicates());
            }
        }
        count += 1;
    }
    Err(ExhaustionError { iterations: max_iterations })
}

} // verus!
