use qwordle::corpus::{
    get_valid_words, get_word_bank, join_lines, split_lines, split_marked, split_words,
    unique_words,
};

fn words(list: &[&str]) -> Vec<String> {
    list.iter().map(|w| w.to_string()).collect()
}

const TEXTS: [&str; 24] = [
    "",
    " ",
    "a",
    "arise",
    "arise count",
    "arise\ncount\nlymph\n",
    "arise\r\ncount\r\nlymph\r\n",
    "  arise \t count\n\n\nlymph  ",
    "\n",
    "\r\n",
    "\r",
    "\n\n",
    "a\n\nb",
    "a\r",
    "a\r\r\n",
    "a\rb\n",
    "a\n\r",
    "a\n\rb",
    "\r\na",
    "hello\ncount\r\nmelee\narise",
    "arise\u{a0}count\u{2003}lymph\u{b}stack\u{c}shunt\u{85}audio",
    "été\u{3000}naïve \u{200b}zero",
    "one\u{2028}two\u{2029}three",
    "tab\tseparated\twords",
];

#[test]
fn get_word_bank_reads_the_words_of_the_text() {
    assert_eq!(words(&["arise", "count", "lymph"]), get_word_bank("arise\ncount\nlymph\n"));
    assert_eq!(words(&["arise", "count"]), get_word_bank("  arise \t\r\n count"));
    assert_eq!(Vec::<String>::new(), get_word_bank(""));
    assert_eq!(Vec::<String>::new(), get_word_bank(" \n\t "));
}

#[test]
fn get_valid_words_reads_the_words_of_the_text() {
    assert_eq!(words(&["hello", "count", "melee"]), get_valid_words("hello count\nmelee"));
    assert_eq!(words(&["a"]), get_valid_words("a"));
}

#[test]
fn split_words_agrees_with_the_standard_splitting() {
    for text in TEXTS {
        let expected: Vec<String> = text.split_whitespace().map(str::to_string).collect();
        assert_eq!(expected, split_words(text), "the words of {:?}", text);
        assert_eq!(expected, get_word_bank(text));
        assert_eq!(expected, get_valid_words(text));
    }
}

#[test]
fn split_marked_splits_at_the_marked_characters() {
    assert_eq!(words(&["ab", "d"]), split_marked("ab-d", &vec![false, false, true, false]));
    assert_eq!(words(&["a", "c"]), split_marked("abc", &vec![false, true, false]));
    assert_eq!(words(&["a b"]), split_marked("a b", &vec![false, false, false]));
    assert_eq!(words(&["b"]), split_marked("abc", &vec![true, false, true]));
    assert_eq!(Vec::<String>::new(), split_marked("abc", &vec![true, true, true]));
    assert_eq!(Vec::<String>::new(), split_marked("", &Vec::new()));
}

#[test]
fn split_lines_agrees_with_the_standard_splitting() {
    for text in TEXTS {
        let expected: Vec<String> = text.lines().map(str::to_string).collect();
        assert_eq!(expected, split_lines(text), "the lines of {:?}", text);
    }
}

#[test]
fn split_lines_drops_the_line_endings() {
    assert_eq!(words(&["arise", "count"]), split_lines("arise\ncount\n"));
    assert_eq!(words(&["arise", "count"]), split_lines("arise\r\ncount"));
    assert_eq!(words(&["", "", "x"]), split_lines("\n\r\nx"));
    assert_eq!(words(&["a\r"]), split_lines("a\r"));
    assert_eq!(words(&["a\r"]), split_lines("a\r\r\n"));
}

#[test]
fn join_lines_puts_a_line_feed_between_the_words() {
    assert_eq!("", join_lines(&Vec::new()));
    assert_eq!("arise", join_lines(&words(&["arise"])));
    assert_eq!("arise\ncount\nlymph", join_lines(&words(&["arise", "count", "lymph"])));
    assert_eq!("\n", join_lines(&words(&["", ""])));
}

#[test]
fn join_lines_agrees_with_the_standard_joining() {
    for text in TEXTS {
        let lines: Vec<String> = text.lines().map(str::to_string).collect();
        assert_eq!(lines.join("\n"), join_lines(&lines));
    }
}

#[test]
fn unique_words_keeps_the_lines_that_repeat_no_letter() {
    assert_eq!("count\narise", unique_words("hello\ncount\r\nmelee\narise"));
    assert_eq!("count\narise", unique_words("hello\ncount\nmelee\narise\n"));
    assert_eq!("", unique_words("hello\nmelee\n"));
    assert_eq!("", unique_words(""));
    assert_eq!("\nab", unique_words("\nab\naa"));
}

#[test]
fn unique_words_counts_the_blank_within_a_line() {
    assert_eq!("a b", unique_words("a b\na  b\n"));
}
