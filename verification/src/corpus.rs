//! Word lists as text: a list of words is read from text in which white
//! space separates the words, and a list of candidate words, one to a line,
//! is thinned to the words that repeat no letter.

use crate::letters::{check_repeated_letters, texts};
use vstd::prelude::*;

verus! {

/// Whether `char::is_whitespace` takes the character for white space.
pub uninterp spec fn is_white_space(c: char) -> bool;

/// `char::is_whitespace` tells whether the character has the Unicode property
/// `White_Space`. The property is not spelled out here: it goes by the name
/// `is_white_space`.
pub assume_specification[ char::is_whitespace ](c: char) -> (white: bool)
    ensures
        white == is_white_space(c),
;

/// The words of a text of which `white` marks the characters that are white
/// space: the longest runs of characters that are not, in the order of the
/// text.
pub open spec fn marked_words(text: Seq<char>, white: Seq<bool>) -> Seq<Seq<char>>
    decreases text.len(),
{
    if text.len() == 0 {
        Seq::empty()
    } else if white[text.len() - 1] {
        marked_words(text.drop_last(), white)
    } else if text.len() >= 2 && !white[text.len() - 2] {
        let before = marked_words(text.drop_last(), white);
        before.drop_last().push(before.last().push(text.last()))
    } else {
        marked_words(text.drop_last(), white).push(seq![text.last()])
    }
}

/// For each character of the text, whether it is white space.
pub open spec fn white_space_in(text: Seq<char>) -> Seq<bool> {
    text.map_values(|c: char| is_white_space(c))
}

/// The words of a text: its longest runs of characters that are not white
/// space, in the order of the text.
pub open spec fn words_of(text: Seq<char>) -> Seq<Seq<char>> {
    marked_words(text, white_space_in(text))
}

/// The pieces between the line feeds of a text. There is one piece more than
/// there are line feeds; the last piece is what follows the last line feed.
pub open spec fn pieces_of(text: Seq<char>) -> Seq<Seq<char>>
    decreases text.len(),
{
    if text.len() == 0 {
        seq![Seq::empty()]
    } else if text.last() == '\n' {
        pieces_of(text.drop_last()).push(Seq::empty())
    } else {
        let before = pieces_of(text.drop_last());
        before.drop_last().push(before.last().push(text.last()))
    }
}

/// A piece without the carriage return at its end, if it has one there.
pub open spec fn without_carriage_return(piece: Seq<char>) -> Seq<char> {
    if piece.len() > 0 && piece.last() == '\r' {
        piece.drop_last()
    } else {
        piece
    }
}

/// The lines that the pieces before line feeds hold.
pub open spec fn ended_lines(pieces: Seq<Seq<char>>) -> Seq<Seq<char>> {
    pieces.map_values(|piece: Seq<char>| without_carriage_return(piece))
}

/// The lines of a text. A line ends with a line feed, or with a carriage
/// return and a line feed, neither of which belongs to the line. What follows
/// the last line feed is a line too, unless it is empty.
pub open spec fn lines_of(text: Seq<char>) -> Seq<Seq<char>> {
    let pieces = pieces_of(text);
    let ended = ended_lines(pieces.drop_last());
    if pieces.last().len() > 0 {
        ended.push(pieces.last())
    } else {
        ended
    }
}

/// The lines with a line feed between each two of them.
pub open spec fn joined(lines: Seq<Seq<char>>) -> Seq<char>
    decreases lines.len(),
{
    if lines.len() == 0 {
        Seq::empty()
    } else if lines.len() == 1 {
        lines[0]
    } else {
        joined(lines.drop_last()).push('\n') + lines.last()
    }
}

/// The words among `words` in which no letter occurs twice.
pub open spec fn without_repeats(words: Seq<Seq<char>>) -> Seq<Seq<char>> {
    words.filter(|word: Seq<char>| word.no_duplicates())
}

/// Every text has at least one piece.
pub proof fn lemma_pieces_nonempty(text: Seq<char>)
    ensures
        pieces_of(text).len() > 0,
    decreases text.len(),
{
    if text.len() > 0 {
        lemma_pieces_nonempty(text.drop_last());
    }
}

/// No piece of a text holds a line feed, and the pieces with a line feed
/// between each two of them are the text.
pub proof fn lemma_pieces_of(text: Seq<char>)
    ensures
        forall|k: int, i: int|
            0 <= k < pieces_of(text).len() && 0 <= i < pieces_of(text)[k].len()
                ==> #[trigger] pieces_of(text)[k][i] != '\n',
        joined(pieces_of(text)) == text,
    decreases text.len(),
{
    if text.len() == 0 {
        assert(joined(pieces_of(text)) =~= text);
    } else {
        let front = text.drop_last();
        let before = pieces_of(front);
        let pieces = pieces_of(text);
        lemma_pieces_of(front);
        lemma_pieces_nonempty(front);
        if text.last() == '\n' {
            assert(pieces.drop_last() == before);
            assert(joined(pieces) =~= front.push('\n'));
        } else if before.len() == 1 {
            assert(pieces =~= seq![before[0].push(text.last())]);
            assert(joined(pieces) =~= front.push(text.last()));
        } else {
            assert(pieces.drop_last() == before.drop_last());
            assert(joined(pieces) =~= joined(before).push(text.last()));
        }
        assert(front.push(text.last()) == text);
    }
}

/// Every word has a character, and the text has a word unless all its
/// characters are marked as white space.
pub proof fn lemma_marked_words(text: Seq<char>, white: Seq<bool>)
    requires
        white.len() >= text.len(),
    ensures
        forall|k: int|
            0 <= k < marked_words(text, white).len() ==> (#[trigger] marked_words(
                text,
                white,
            )[k]).len() > 0,
        text.len() > 0 && !white[text.len() - 1] ==> marked_words(text, white).len() > 0,
        (forall|i: int| 0 <= i < text.len() ==> #[trigger] white[i]) <==> marked_words(
            text,
            white,
        ).len() == 0,
    decreases text.len(),
{
    if text.len() > 0 {
        lemma_marked_words(text.drop_last(), white);
    }
}

/// The words of a text go by the marks of its own characters only.
pub proof fn lemma_marked_words_marks(text: Seq<char>, white: Seq<bool>, other: Seq<bool>)
    requires
        forall|i: int| 0 <= i < text.len() ==> white[i] == other[i],
    ensures
        marked_words(text, white) == marked_words(text, other),
    decreases text.len(),
{
    if text.len() > 0 {
        lemma_marked_words_marks(text.drop_last(), white, other);
    }
}

/// A text without a marked character is one word, unless it is empty.
pub proof fn lemma_marked_words_whole(text: Seq<char>, white: Seq<bool>)
    requires
        text.len() > 0,
        forall|i: int| 0 <= i < text.len() ==> !white[i],
    ensures
        marked_words(text, white) == seq![text],
    decreases text.len(),
{
    let front = text.drop_last();
    assert(!white[text.len() - 1]);
    assert(front.push(text.last()) == text);
    if front.len() == 0 {
        assert(marked_words(front, white) == Seq::<Seq<char>>::empty());
        assert(seq![text.last()] == text);
        assert(Seq::<Seq<char>>::empty().push(text) == seq![text]);
    } else {
        assert(!white[text.len() - 2]);
        lemma_marked_words_whole(front, white);
        assert(seq![front].drop_last().push(seq![front].last().push(text.last())) == seq![text]);
    }
}

/// The words of a text with a marked character in it are the words before
/// that character and then the words after it.
pub proof fn lemma_marked_words_join(
    before: Seq<char>,
    x: char,
    after: Seq<char>,
    white_before: Seq<bool>,
    white_after: Seq<bool>,
)
    requires
        white_before.len() == before.len(),
        white_after.len() == after.len(),
    ensures
        marked_words(before.push(x) + after, white_before.push(true) + white_after)
            == marked_words(before, white_before) + marked_words(after, white_after),
    decreases after.len(),
{
    let text = before.push(x) + after;
    let white = white_before.push(true) + white_after;
    if after.len() == 0 {
        assert(text.drop_last() == before);
        assert(white[text.len() - 1]);
        lemma_marked_words_marks(before, white, white_before);
        assert(marked_words(before, white_before) + marked_words(after, white_after)
            == marked_words(before, white_before));
    } else {
        let front = after.drop_last();
        let c = after.last();
        let white_front = white_after.drop_last();
        let first = marked_words(before, white_before);
        lemma_marked_words_join(before, x, front, white_before, white_front);
        assert(text.drop_last() == before.push(x) + front);
        assert(text.last() == c);
        lemma_marked_words_marks(text.drop_last(), white, white_before.push(true) + white_front);
        lemma_marked_words_marks(front, white_after, white_front);
        assert(white[text.len() - 1] == white_after[after.len() - 1]);
        let second = marked_words(front, white_after);
        assert(marked_words(text.drop_last(), white) == first + second);
        if white_after[after.len() - 1] {
        } else if after.len() >= 2 && !white_after[after.len() - 2] {
            assert(white[text.len() - 2] == white_after[after.len() - 2]);
            lemma_marked_words(front, white_after);
            assert((first + second).drop_last().push((first + second).last().push(c)) == first
                + second.drop_last().push(second.last().push(c)));
        } else {
            if after.len() >= 2 {
                assert(white[text.len() - 2] == white_after[after.len() - 2]);
            } else {
                assert(white[text.len() - 2]);
            }
            assert((first + second).push(seq![c]) == first + second.push(seq![c]));
        }
    }
}

/// Splits `text` into its words, where `white` marks, character for
/// character, what of the text is white space.
pub fn split_marked(text: &str, white: &Vec<bool>) -> (words: Vec<String>)
    requires
        white@.len() == text@.len(),
    ensures
        texts(words@) == marked_words(text@, white@),
{
    let mut words: Vec<String> = Vec::new();
    let mut current = String::new();
    let mut in_word = false;
    let len = white.len();
    let mut i: usize = 0;
    assert(texts(words@) == marked_words(text@.take(0), white@));
    for c in it: text.chars()
        invariant
            it.seq() == text@,
            i == it.index(),
            white@.len() == text@.len(),
            white@.len() == len,
            in_word <==> i > 0 && !white@[i - 1],
            in_word ==> marked_words(text@.take(i as int), white@) == texts(words@).push(
                current@,
            ),
            !in_word ==> marked_words(text@.take(i as int), white@) == texts(words@)
                && current@.len() == 0,
    {
        let ghost listed = texts(words@);
        let ghost word = current@;
        proof {
            assert(text@.take(i + 1).drop_last() == text@.take(i as int));
            assert(text@.take(i + 1).last() == c);
        }
        if white[i] {
            if in_word {
                words.push(current);
                current = String::new();
                in_word = false;
                assert(texts(words@) =~= listed.push(words@[words@.len() - 1]@));
            }
        } else {
            current.push(c);
            proof {
                if in_word {
                    assert(listed.push(word).drop_last() == listed);
                } else {
                    assert(word.push(c) == seq![c]);
                }
            }
            in_word = true;
        }
        i += 1;
    }
    proof {
        assert(text@.take(text@.len() as int) == text@);
    }
    if in_word {
        let ghost listed = texts(words@);
        words.push(current);
        assert(texts(words@) =~= listed.push(words@[words@.len() - 1]@));
    }
    words
}

/// Splits a text into its words.
pub fn split_words(text: &str) -> (words: Vec<String>)
    ensures
        texts(words@) == words_of(text@),
{
    let mut white: Vec<bool> = Vec::new();
    for c in it: text.chars()
        invariant
            it.seq() == text@,
            white@ == white_space_in(text@.take(it.index() as int)),
    {
        white.push(c.is_whitespace());
        proof {
            let i = it.index() as int;
            assert(text@.take(i + 1) == text@.take(i).push(c));
            assert(white_space_in(text@.take(i + 1)) == white_space_in(text@.take(i)).push(
                is_white_space(c),
            ));
        }
    }
    proof {
        assert(text@.take(text@.len() as int) == text@);
    }
    split_marked(text, &white)
}

/// The word bank that a text holds: its words, from which the answers are
/// picked.
pub fn get_word_bank(contents: &str) -> (word_bank: Vec<String>)
    ensures
        texts(word_bank@) == words_of(contents@),
{
    split_words(contents)
}

/// The valid words that a text holds: its words, which may be guessed.
pub fn get_valid_words(contents: &str) -> (valid_words: Vec<String>)
    ensures
        texts(valid_words@) == words_of(contents@),
{
    split_words(contents)
}

/// Splits a text into its lines.
pub fn split_lines(text: &str) -> (lines: Vec<String>)
    ensures
        texts(lines@) == lines_of(text@),
{
    let mut lines: Vec<String> = Vec::new();
    let mut current = String::new();
    // A carriage return is held back until the next character tells whether
    // it belongs to the line or to the line ending.
    let mut held = false;
    proof {
        assert(pieces_of(text@.take(0)).drop_last() =~= Seq::empty());
        assert(texts(lines@) =~= ended_lines(pieces_of(text@.take(0)).drop_last()));
    }
    for c in it: text.chars()
        invariant
            it.seq() == text@,
            pieces_of(text@.take(it.index() as int)).len() > 0,
            texts(lines@) == ended_lines(pieces_of(text@.take(it.index() as int)).drop_last()),
            pieces_of(text@.take(it.index() as int)).last() == if held {
                current@.push('\r')
            } else {
                current@
            },
            !held ==> without_carriage_return(current@) == current@,
    {
        let ghost i = it.index() as int;
        let ghost before = pieces_of(text@.take(i));
        let ghost listed = texts(lines@);
        let ghost line = current@;
        proof {
            assert(text@.take(i + 1).drop_last() == text@.take(i));
            assert(text@.take(i + 1).last() == c);
            lemma_pieces_nonempty(text@.take(i + 1));
        }
        if c == '\n' {
            lines.push(current);
            current = String::new();
            held = false;
            proof {
                assert(before.push(Seq::empty()).drop_last() == before);
                assert(before == before.drop_last().push(before.last()));
                assert(line.push('\r').drop_last() == line);
                assert(ended_lines(before) == ended_lines(before.drop_last()).push(line));
                assert(texts(lines@) =~= listed.push(lines@[lines@.len() - 1]@));
            }
        } else {
            if held {
                current.push('\r');
            }
            if c == '\r' {
                held = true;
            } else {
                current.push(c);
                held = false;
            }
            proof {
                let after = before.drop_last().push(before.last().push(c));
                assert(after.drop_last() == before.drop_last());
            }
        }
    }
    proof {
        assert(text@.take(text@.len() as int) == text@);
    }
    if held {
        current.push('\r');
    }
    if current.as_str().unicode_len() > 0 {
        let ghost listed = texts(lines@);
        lines.push(current);
        assert(texts(lines@) =~= listed.push(lines@[lines@.len() - 1]@));
    }
    lines
}

/// The words with a line feed between each two of them.
pub fn join_lines(words: &Vec<String>) -> (text: String)
    ensures
        text@ == joined(texts(words@)),
{
    let mut text = String::new();
    let ghost lines = texts(words@);
    let mut i: usize = 0;
    while i < words.len()
        invariant
            i <= words.len(),
            lines == texts(words@),
            text@ == joined(lines.take(i as int)),
        decreases words.len() - i,
    {
        proof {
            assert(lines.take(i + 1).drop_last() == lines.take(i as int));
            assert(lines.take(i + 1).last() == words@[i as int]@);
        }
        if i > 0 {
            text.push('\n');
        }
        text.append(words[i].as_str());
        i += 1;
    }
    proof {
        assert(lines.take(words@.len() as int) == lines);
    }
    text
}

/// The lines of `contents` in which no letter occurs twice, with a line feed
/// between each two of them.
pub fn unique_words(contents: &str) -> (text: String)
    ensures
        text@ == joined(without_repeats(lines_of(contents@))),
{
    let lines = split_lines(contents);
    let mut kept: Vec<String> = Vec::new();
    let ghost all = texts(lines@);
    let mut i: usize = 0;
    assert(all.take(0).filter(|word: Seq<char>| word.no_duplicates()) =~= Seq::empty()) by {
        assert(all.take(0) =~= Seq::empty());
        all.take(0).lemma_filter_len(|word: Seq<char>| word.no_duplicates());
    }
    while i < lines.len()
        invariant
            i <= lines.len(),
            all == texts(lines@),
            texts(kept@) == without_repeats(all.take(i as int)),
        decreases lines.len() - i,
    {
        let ghost listed = texts(kept@);
        proof {
            assert(all.take(i + 1) == all.take(i as int).push(lines@[i as int]@));
            all.take(i as int).lemma_filter_push(
                lines@[i as int]@,
                |word: Seq<char>| word.no_duplicates(),
            );
        }
        if check_repeated_letters(lines[i].as_str()).is_none() {
            kept.push(lines[i].clone());
            assert(texts(kept@) =~= listed.push(kept@[kept@.len() - 1]@));
        }
        i += 1;
    }
    proof {
        assert(all.take(lines@.len() as int) == all);
    }
    join_lines(&kept)
}

} // verus!
