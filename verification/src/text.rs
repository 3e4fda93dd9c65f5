//! Building the text of messages: upper case and decimal numbers.

use vstd::prelude::*;

verus! {

/// `String::push` appends the character to the end of the string.
pub assume_specification[ String::push ](s: &mut String, c: char)
    ensures
        final(s)@ == old(s)@.push(c),
;

/// `char::to_ascii_uppercase` maps the letters `a` to `z` to `A` to `Z` and
/// leaves every other character as it is.
pub assume_specification[ char::to_ascii_uppercase ](c: &char) -> (u: char)
    ensures
        u == upper(*c),
;

/// The upper-case form of a letter.
pub open spec fn upper(c: char) -> char {
    if 'a' <= c && c <= 'z' {
        ((c as u32) - 32) as char
    } else {
        c
    }
}

/// A word with each letter in upper case.
pub open spec fn upper_word(word: Seq<char>) -> Seq<char> {
    word.map_values(|c: char| upper(c))
}

/// The character of a decimal digit.
pub open spec fn digit(d: nat) -> char
    recommends
        d < 10,
{
    (48 + d) as char
}

/// A number written in decimal, without leading zeros.
pub open spec fn decimal(n: nat) -> Seq<char>
    decreases n,
{
    if n < 10 {
        seq![digit(n)]
    } else {
        decimal(n / 10).push(digit(n % 10))
    }
}

/// A copy of `word` in upper case.
pub fn to_upper(word: &str) -> (shout: String)
    ensures
        shout@ == upper_word(word@),
{
    let mut shout = String::new();
    for letter in it: word.chars()
        invariant
            it.seq() == word@,
            shout@ == upper_word(word@.take(it.index() as int)),
    {
        shout.push(letter.to_ascii_uppercase());
        proof {
            let i = it.index() as int;
            assert(word@.take(i + 1) == word@.take(i).push(word@[i]));
            assert(upper_word(word@.take(i + 1)) == upper_word(word@.take(i)).push(
                upper(word@[i]),
            ));
        }
    }
    assert(word@.take(word@.len() as int) == word@);
    shout
}

/// Appends `n`, written in decimal, to `text`.
pub fn push_decimal(text: &mut String, n: u16)
    ensures
        final(text)@ == old(text)@ + decimal(n as nat),
    decreases n,
{
    if n >= 10 {
        push_decimal(text, n / 10);
    }
    let d: u8 = (n % 10) as u8;
    text.push((48 + d) as char);
    assert((48 + d) as char == digit((n % 10) as nat));
}

} // verus!
