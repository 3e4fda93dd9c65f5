use qwordle::letters::{check_repeated_letters, get_unqiue_chars};
use std::collections::{HashMap, HashSet};

fn map_of(entries: Vec<(char, Vec<u8>)>) -> HashMap<u32, Vec<u8>> {
    entries.into_iter().map(|(letter, positions)| (letter as u32, positions)).collect()
}

#[test]
fn test_check_repeated_letters_count() {
    assert_eq!(None, check_repeated_letters("count"));
}

#[test]
fn test_check_repeated_letters_single_letter() {
    assert_eq!(None, check_repeated_letters("a"));
}

#[test]
fn test_check_repeated_letters_cat() {
    assert_eq!(None, check_repeated_letters("cat"));
}

#[test]
fn test_check_repeated_letters_hello() {
    let expected = map_of(vec![('h', vec![0]), ('e', vec![1]), ('l', vec![2, 3]), ('o', vec![4])]);
    assert_eq!(Some(expected), check_repeated_letters("hello"));
}

#[test]
fn test_check_repeated_letters_melee() {
    let expected = map_of(vec![('m', vec![0]), ('e', vec![1, 3, 4]), ('l', vec![2])]);
    assert_eq!(Some(expected), check_repeated_letters("melee"));
}

#[test]
fn check_repeated_letters_of_empty_word_is_none() {
    assert_eq!(None, check_repeated_letters(""));
}

#[test]
fn check_repeated_letters_of_doubled_letter() {
    let expected = map_of(vec![('z', vec![0, 1])]);
    assert_eq!(Some(expected), check_repeated_letters("zz"));
}

#[test]
fn position_lists_are_ascending_and_cover_the_word() {
    for word in ["hello", "melee", "banana", "mississippi", "aaaaa"] {
        let map = check_repeated_letters(word).expect("the word repeats a letter");
        assert!(!map.is_empty());
        let mut total = 0;
        for (code, positions) in &map {
            assert!(positions.windows(2).all(|pair| pair[0] < pair[1]));
            for position in positions {
                let letter = char::from_u32(*code).unwrap();
                assert_eq!(Some(letter), word.chars().nth(*position as usize));
            }
            total += positions.len();
        }
        assert_eq!(word.chars().count(), total);
    }
}

#[test]
fn positions_beyond_a_byte_are_recorded_modulo_256() {
    let word: String = std::iter::repeat('a').take(258).collect();
    let map = check_repeated_letters(&word).expect("the word repeats a letter");
    let positions = &map[&('a' as u32)];
    assert_eq!(258, positions.len());
    assert_eq!(255, positions[255]);
    assert_eq!(0, positions[256]);
    assert_eq!(1, positions[257]);
}

#[test]
fn words_beyond_ascii_are_counted_by_letter() {
    assert_eq!(None, check_repeated_letters("héros"));
    let expected = map_of(vec![('é', vec![0, 2]), ('t', vec![1])]);
    assert_eq!(Some(expected), check_repeated_letters("été"));
}

#[test]
fn get_unqiue_chars_holds_each_letter_once() {
    let expected: HashSet<u32> = ['h', 'e', 'l', 'o'].iter().map(|c| *c as u32).collect();
    assert_eq!(expected, get_unqiue_chars("hello"));
    assert!(get_unqiue_chars("").is_empty());
    assert_eq!(5, get_unqiue_chars("count").len());
}
