//! The letters of a word: which occur, where, and whether any occurs twice.
//!
//! Hash sets and hash maps are keyed by a letter's code point: a letter `c`
//! is kept as `c as u32`.

use std::collections::HashMap;
use std::collections::HashSet;
use vstd::prelude::*;

verus! {

/// The words of a list, each as its sequence of letters.
pub open spec fn texts(words: Seq<String>) -> Seq<Seq<char>> {
    words.map_values(|w: String| w@)
}

/// The number under which a letter is kept in a hash set or as a hash-map key.
pub open spec fn letter_code(c: char) -> u32 {
    c as u32
}

/// The codes of a word's letters, in the word's order.
pub open spec fn codes(word: Seq<char>) -> Seq<u32> {
    word.map_values(|c: char| letter_code(c))
}

/// The codes of the letters that occur in `word`.
pub open spec fn letter_codes(word: Seq<char>) -> Set<u32> {
    codes(word).to_set()
}

/// The zero-based positions at which `c` occurs in `word`, ascending.
pub open spec fn positions(word: Seq<char>, c: char) -> Seq<int>
    decreases word.len(),
{
    if word.len() == 0 {
        Seq::empty()
    } else if word.last() == c {
        positions(word.drop_last(), c).push(word.len() - 1)
    } else {
        positions(word.drop_last(), c)
    }
}

/// A position as a repetition map records it: in a single byte.
pub open spec fn recorded(p: int) -> u8 {
    (p % 256) as u8
}

/// The position list that a repetition map of `word` holds for the letter `c`.
pub open spec fn recorded_positions(word: Seq<char>, c: char) -> Seq<u8> {
    positions(word, c).map_values(|p: int| recorded(p))
}

/// `m` maps the code of each letter of `word`, and nothing else, to the
/// positions of that letter.
pub open spec fn is_repetition_map(m: Map<u32, Vec<u8>>, word: Seq<char>) -> bool {
    &&& m.dom() == letter_codes(word)
    &&& forall|i: int|
        0 <= i < word.len() ==> (#[trigger] m[letter_code(word[i])])@ == recorded_positions(
            word,
            word[i],
        )
}

/// The letters of `word` in the order of their first occurrence, each once.
pub open spec fn distinct_letters(word: Seq<char>) -> Seq<char>
    decreases word.len(),
{
    if word.len() == 0 {
        Seq::empty()
    } else if word.drop_last().contains(word.last()) {
        distinct_letters(word.drop_last())
    } else {
        distinct_letters(word.drop_last()).push(word.last())
    }
}

/// The lengths of the position lists that `word` has for `letters`, added up.
pub open spec fn total_occurrences(word: Seq<char>, letters: Seq<char>) -> nat
    decreases letters.len(),
{
    if letters.len() == 0 {
        0
    } else {
        total_occurrences(word, letters.drop_last()) + positions(word, letters.last()).len()
    }
}

/// Different letters have different codes.
pub proof fn lemma_letter_code_injective(a: char, b: char)
    requires
        letter_code(a) == letter_code(b),
    ensures
        a == b,
{
}

/// Appending a letter to a word appends its position to that letter's list
/// and leaves the other lists as they are.
pub proof fn lemma_positions_push(word: Seq<char>, x: char, c: char)
    ensures
        positions(word.push(x), c) == if x == c {
            positions(word, c).push(word.len() as int)
        } else {
            positions(word, c)
        },
{
    assert(word.push(x).drop_last() == word);
}

/// The position list of a letter holds exactly the positions of that letter,
/// in ascending order.
pub proof fn lemma_positions_ascending(word: Seq<char>, c: char)
    ensures
        forall|k: int|
            0 <= k < positions(word, c).len() ==> 0 <= #[trigger] positions(word, c)[k]
                < word.len() && word[positions(word, c)[k]] == c,
        forall|k: int, l: int|
            0 <= k < l < positions(word, c).len() ==> positions(word, c)[k] < positions(
                word,
                c,
            )[l],
        forall|i: int|
            0 <= i < word.len() && word[i] == c ==> positions(word, c).contains(i),
        positions(word, c).len() <= word.len(),
    decreases word.len(),
{
    if word.len() > 0 {
        let front = word.drop_last();
        lemma_positions_ascending(front, c);
        let p = positions(word, c);
        let q = positions(front, c);
        assert forall|i: int| 0 <= i < word.len() && word[i] == c implies p.contains(i) by {
            if i < front.len() {
                assert(front[i] == c);
                let k = choose|k: int| 0 <= k < q.len() && q[k] == i;
                assert(p[k] == i);
            } else {
                assert(p[p.len() - 1] == i);
            }
        }
    }
}

/// A letter has an empty position list exactly if it does not occur.
pub proof fn lemma_positions_empty(word: Seq<char>, c: char)
    ensures
        positions(word, c).len() == 0 <==> !word.contains(c),
{
    lemma_positions_ascending(word, c);
    if word.contains(c) {
        let i = choose|i: int| 0 <= i < word.len() && word[i] == c;
        assert(positions(word, c).contains(i));
    } else if positions(word, c).len() > 0 {
        let p = positions(word, c)[0];
        assert(word[p] == c);
    }
}

/// In a word of at most 256 letters every recorded position is the position
/// itself, so the recorded lists are ascending too.
pub proof fn lemma_recorded_positions_ascending(word: Seq<char>, c: char)
    requires
        word.len() <= 256,
    ensures
        recorded_positions(word, c).len() == positions(word, c).len(),
        forall|k: int|
            0 <= k < positions(word, c).len() ==> #[trigger] recorded_positions(word, c)[k]
                == positions(word, c)[k],
        forall|k: int, l: int|
            0 <= k < l < recorded_positions(word, c).len() ==> recorded_positions(word, c)[k]
                < recorded_positions(word, c)[l],
{
    lemma_positions_ascending(word, c);
    let p = positions(word, c);
    let r = recorded_positions(word, c);
    assert forall|k: int| 0 <= k < p.len() implies #[trigger] r[k] == p[k] by {
        assert(0 <= p[k] < 256);
    }
}

/// The distinct letters of a word are the letters of the word, each once.
pub proof fn lemma_distinct_letters(word: Seq<char>)
    ensures
        distinct_letters(word).no_duplicates(),
        forall|c: char| distinct_letters(word).contains(c) <==> word.contains(c),
        codes(distinct_letters(word)).to_set() == letter_codes(word),
    decreases word.len(),
{
    let d = distinct_letters(word);
    if word.len() > 0 {
        let front = word.drop_last();
        let x = word.last();
        lemma_distinct_letters(front);
        let e = distinct_letters(front);
        assert(word == front.push(x));
        assert forall|c: char| d.contains(c) <==> word.contains(c) by {
            vstd::seq_lib::lemma_seq_contains_after_push(front, x, c);
            vstd::seq_lib::lemma_seq_contains_after_push(e, x, c);
        }
    }
    assert forall|k: u32| codes(d).to_set().contains(k) <==> letter_codes(word).contains(k) by {
        if codes(d).to_set().contains(k) {
            let i = choose|i: int| 0 <= i < d.len() && codes(d)[i] == k;
            assert(d.contains(d[i]));
            let j = choose|j: int| 0 <= j < word.len() && word[j] == d[i];
            assert(codes(word)[j] == k);
        }
        if letter_codes(word).contains(k) {
            let j = choose|j: int| 0 <= j < word.len() && codes(word)[j] == k;
            assert(word.contains(word[j]));
            let i = choose|i: int| 0 <= i < d.len() && d[i] == word[j];
            assert(codes(d)[i] == k);
        }
    }
    assert(codes(d).to_set() =~= letter_codes(word));
}

/// Appending a letter to the word adds one to the total of a duplicate-free
/// list of letters if the letter is among them, and nothing otherwise.
proof fn lemma_total_occurrences_push(word: Seq<char>, x: char, letters: Seq<char>)
    requires
        letters.no_duplicates(),
    ensures
        total_occurrences(word.push(x), letters) == total_occurrences(word, letters)
            + if letters.contains(x) {
            1nat
        } else {
            0nat
        },
    decreases letters.len(),
{
    if letters.len() > 0 {
        let front = letters.drop_last();
        let c = letters.last();
        lemma_total_occurrences_push(word, x, front);
        lemma_positions_push(word, x, c);
        assert(letters == front.push(c));
        vstd::seq_lib::lemma_seq_contains_after_push(front, c, x);
        if c == x {
            assert(!front.contains(x)) by {
                if front.contains(x) {
                    let i = choose|i: int| 0 <= i < front.len() && front[i] == x;
                    assert(letters[i] == letters[letters.len() - 1]);
                }
            }
        }
    }
}

/// The position lists of a word's distinct letters together hold as many
/// positions as the word has letters.
pub proof fn lemma_total_occurrences(word: Seq<char>)
    ensures
        total_occurrences(word, distinct_letters(word)) == word.len(),
    decreases word.len(),
{
    if word.len() > 0 {
        let front = word.drop_last();
        let x = word.last();
        let e = distinct_letters(front);
        assert(word == front.push(x));
        lemma_total_occurrences(front);
        lemma_distinct_letters(front);
        lemma_total_occurrences_push(front, x, e);
        if !front.contains(x) {
            lemma_positions_push(front, x, x);
            lemma_positions_empty(front, x);
            assert(e.push(x).drop_last() == e);
        }
    }
}

/// A word has as many distinct letters as it has letters exactly if no
/// letter occurs twice.
pub proof fn lemma_distinct_count(word: Seq<char>)
    ensures
        letter_codes(word).finite(),
        letter_codes(word).len() <= word.len(),
        letter_codes(word).len() == word.len() <==> word.no_duplicates(),
{
    let f = |c: char| letter_code(c);
    assert(vstd::relations::injective(f)) by {
        assert forall|a: char, b: char| #[trigger] f(a) == #[trigger] f(b) implies a == b by {
            lemma_letter_code_injective(a, b);
        }
    }
    word.lemma_no_duplicates_injective(f);
    vstd::seq_lib::seq_to_set_is_finite(codes(word));
    codes(word).lemma_cardinality_of_set();
    if codes(word).no_duplicates() {
        codes(word).unique_seq_to_set();
    }
    if letter_codes(word).len() == word.len() {
        codes(word).lemma_no_dup_set_cardinality();
    }
}

/// The lengths of the lists that `m` holds for `letters`, added up.
pub open spec fn total_recorded(m: Map<u32, Vec<u8>>, letters: Seq<char>) -> nat
    decreases letters.len(),
{
    if letters.len() == 0 {
        0
    } else {
        total_recorded(m, letters.drop_last()) + m[letter_code(letters.last())]@.len()
    }
}

/// For letters of the word, the lists of its repetition map are as long as
/// the position lists of the letters.
proof fn lemma_total_recorded(m: Map<u32, Vec<u8>>, word: Seq<char>, letters: Seq<char>)
    requires
        is_repetition_map(m, word),
        forall|k: int| 0 <= k < letters.len() ==> word.contains(#[trigger] letters[k]),
    ensures
        total_recorded(m, letters) == total_occurrences(word, letters),
    decreases letters.len(),
{
    if letters.len() > 0 {
        let front = letters.drop_last();
        assert forall|k: int| 0 <= k < front.len() implies word.contains(#[trigger] front[k]) by {
            assert(front[k] == letters[k]);
        }
        lemma_total_recorded(m, word, front);
        let c = letters[letters.len() - 1];
        assert(word.contains(c));
        let i = choose|i: int| 0 <= i < word.len() && word[i] == c;
        assert(m[letter_code(word[i])]@ == recorded_positions(word, c));
    }
}

/// The repetition map of a word holds one list for each distinct letter of
/// the word, so it is empty only for the empty word, and its lists together
/// hold as many positions as the word has letters.
pub proof fn lemma_repetition_map_covers(m: Map<u32, Vec<u8>>, word: Seq<char>)
    requires
        is_repetition_map(m, word),
    ensures
        m.dom().finite(),
        m.dom().len() == distinct_letters(word).len(),
        word.len() > 0 ==> m.dom().len() > 0,
        total_recorded(m, distinct_letters(word)) == word.len(),
{
    let d = distinct_letters(word);
    lemma_distinct_letters(word);
    lemma_distinct_count(d);
    lemma_total_occurrences(word);
    assert forall|k: int| 0 <= k < d.len() implies word.contains(#[trigger] d[k]) by {
        assert(d.contains(d[k]));
    }
    lemma_total_recorded(m, word, d);
    if word.len() > 0 {
        assert(word.contains(word[0]));
        assert(d.contains(word[0]));
    }
}

/// In the repetition map of a word of at most 256 letters, the list of a
/// letter of the word holds the positions of that letter in ascending order.
pub proof fn lemma_repetition_map_ascending(m: Map<u32, Vec<u8>>, word: Seq<char>, c: char)
    requires
        is_repetition_map(m, word),
        word.len() <= 256,
        word.contains(c),
    ensures
        m[letter_code(c)]@.len() > 0,
        forall|k: int|
            0 <= k < m[letter_code(c)]@.len() ==> #[trigger] m[letter_code(c)]@[k] < word.len()
                && word[m[letter_code(c)]@[k] as int] == c,
        forall|k: int, l: int|
            0 <= k < l < m[letter_code(c)]@.len() ==> m[letter_code(c)]@[k] < m[letter_code(
                c,
            )]@[l],
        forall|i: int|
            0 <= i < word.len() && word[i] == c ==> exists|k: int|
                0 <= k < m[letter_code(c)]@.len() && #[trigger] m[letter_code(c)]@[k] == i,
{
    let i = choose|i: int| 0 <= i < word.len() && word[i] == c;
    assert(m[letter_code(word[i])]@ == recorded_positions(word, c));
    lemma_recorded_positions_ascending(word, c);
    lemma_positions_ascending(word, c);
    lemma_positions_empty(word, c);
    let list = m[letter_code(c)]@;
    let p = positions(word, c);
    assert forall|j: int| 0 <= j < word.len() && word[j] == c implies exists|k: int|
        0 <= k < list.len() && #[trigger] list[k] == j by {
        assert(p.contains(j));
        let k = choose|k: int| 0 <= k < p.len() && p[k] == j;
        assert(list[k] == j);
    }
}

/// The set of the letters of `word`, each as its code.
pub fn get_unqiue_chars(word: &str) -> (letters: HashSet<u32>)
    ensures
        letters@ == letter_codes(word@),
{
    broadcast use vstd::std_specs::hash::group_hash_axioms;

    let mut letters: HashSet<u32> = HashSet::new();
    for letter in it: word.chars()
        invariant
            it.seq() == word@,
            letters@ == letter_codes(word@.take(it.index() as int)),
    {
        letters.insert(letter as u32);
        proof {
            let i = it.index() as int;
            assert(word@.take(i + 1) == word@.take(i).push(word@[i]));
            assert(codes(word@.take(i + 1)) == codes(word@.take(i)).push(letter_code(word@[i])));
            codes(word@.take(i)).lemma_push_to_set_commute(letter_code(word@[i]));
        }
    }
    assert(word@.take(word@.len() as int) == word@);
    letters
}

/// Looks for repeated letters in `word`.
///
/// Returns `None` if no letter occurs twice. Otherwise returns the repetition
/// map of the word: for each of its letters, under the letter's code, the
/// positions at which it occurs, in ascending order, each position in one
/// byte.
pub fn check_repeated_letters(word: &str) -> (repeats: Option<HashMap<u32, Vec<u8>>>)
    ensures
        repeats is None <==> word@.no_duplicates(),
        repeats matches Some(m) ==> is_repetition_map(m@, word@),
{
    broadcast use vstd::std_specs::hash::group_hash_axioms;

    let letters = get_unqiue_chars(word);
    let len = word.unicode_len();
    proof {
        lemma_distinct_count(word@);
    }
    if letters.len() == len {
        None
    } else {
        let mut letter_pos: HashMap<u32, Vec<u8>> = HashMap::new();
        let mut i: usize = 0;
        assert(letter_pos@.dom() =~= letter_codes(word@.take(0)));
        for letter in it: word.chars()
            invariant
                it.seq() == word@,
                word@.len() == len,
                i == it.index(),
                is_repetition_map(letter_pos@, word@.take(i as int)),
        {
            let idx: u8 = (i % 256) as u8;
            let key: u32 = letter as u32;
            let ghost before = word@.take(i as int);
            let ghost old_map = letter_pos@;
            let mut indices: Vec<u8> = match letter_pos.remove(&key) {
                Some(v) => v,
                None => Vec::new(),
            };
            indices.push(idx);
            letter_pos.insert(key, indices);
            proof {
                let after = word@.take(i + 1);
                assert(after == before.push(letter));
                assert(codes(after) == codes(before).push(key));
                codes(before).lemma_push_to_set_commute(key);
                assert(letter_pos@.dom() =~= letter_codes(after));
                assert forall|j: int| 0 <= j < after.len() implies (
                #[trigger] letter_pos@[letter_code(after[j])])@ == recorded_positions(
                    after,
                    after[j],
                ) by {
                    let c = after[j];
                    lemma_positions_push(before, letter, c);
                    if c == letter {
                        lemma_positions_empty(before, c);
                        if old_map.contains_key(key) {
                            let k = choose|k: int| 0 <= k < before.len() && codes(before)[k] == key;
                            lemma_letter_code_injective(before[k], letter);
                            assert(old_map[letter_code(before[k])]@ == recorded_positions(
                                before,
                                letter,
                            ));
                        } else {
                            if before.contains(letter) {
                                let k = choose|k: int| 0 <= k < before.len() && before[k] == letter;
                                assert(codes(before)[k] == key);
                            }
                        }
                        assert(recorded_positions(after, c) == recorded_positions(before, c).push(
                            idx,
                        ));
                    } else {
                        if letter_code(c) == key {
                            lemma_letter_code_injective(c, letter);
                        }
                        assert(before[j] == c);
                        assert(old_map[letter_code(before[j])]@ == recorded_positions(before, c));
                    }
                }
            }
            i += 1;
        }
        assert(word@.take(word@.len() as int) == word@);
        Some(letter_pos)
    }
}

} // verus!
