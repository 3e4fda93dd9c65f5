use qwordle::text::{push_decimal, to_upper};

fn decimal_of(n: u16) -> String {
    let mut text = String::new();
    push_decimal(&mut text, n);
    text
}

#[test]
fn push_decimal_writes_the_number() {
    assert_eq!("0", decimal_of(0));
    assert_eq!("7", decimal_of(7));
    assert_eq!("10", decimal_of(10));
    assert_eq!("100", decimal_of(100));
    assert_eq!("255", decimal_of(255));
    assert_eq!("256", decimal_of(256));
    assert_eq!("65535", decimal_of(u16::MAX));
}

#[test]
fn push_decimal_appends_to_what_is_there() {
    let mut text = String::from("Guess ");
    push_decimal(&mut text, 42);
    assert_eq!("Guess 42", text);
}

#[test]
fn push_decimal_agrees_with_the_standard_formatting() {
    for n in 0..=u16::MAX {
        assert_eq!(n.to_string(), decimal_of(n));
    }
}

#[test]
fn to_upper_raises_the_letters_a_to_z_only() {
    assert_eq!("ARISE", to_upper("arise"));
    assert_eq!("ÉTé 1-2 AZ", to_upper("Été 1-2 az"));
    assert_eq!("", to_upper(""));
}
