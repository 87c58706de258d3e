use slideshow::parsing::integers::{decimal_text, parse_integer};

fn value_of(text: &str) -> Option<i128> {
    let characters: Vec<char> = text.chars().collect();
    parse_integer(&characters, 0, characters.len())
}

#[test]
pub fn digits_have_their_decimal_value() {
    assert_eq!(Some(0), value_of("0"));
    assert_eq!(Some(7), value_of("7"));
    assert_eq!(Some(1234567890), value_of("1234567890"));
    assert_eq!(Some(42), value_of("00042"));
}

#[test]
pub fn a_minus_sign_makes_the_value_negative() {
    assert_eq!(Some(-1), value_of("-1"));
    assert_eq!(Some(-9876543210), value_of("-9876543210"));
    assert_eq!(Some(0), value_of("-0"));
}

#[test]
pub fn the_value_has_to_fit_in_128_signed_bits() {
    assert_eq!(Some(i128::MAX), value_of("170141183460469231731687303715884105727"));
    assert_eq!(None, value_of("170141183460469231731687303715884105728"));
    assert_eq!(Some(i128::MIN), value_of("-170141183460469231731687303715884105728"));
    assert_eq!(None, value_of("-170141183460469231731687303715884105729"));
    assert_eq!(None, value_of("999999999999999999999999999999999999999999999"));
    assert_eq!(Some(1), value_of("0000000000000000000000000000000000000000000001"));
}

#[test]
pub fn what_is_no_integer_literal_has_no_value() {
    assert_eq!(None, value_of(""));
    assert_eq!(None, value_of("-"));
    assert_eq!(None, value_of("--1"));
    assert_eq!(None, value_of("+1"));
    assert_eq!(None, value_of("1-"));
    assert_eq!(None, value_of("12a"));
    assert_eq!(None, value_of(" 1"));
    assert_eq!(None, value_of("\u{661}"));
}

#[test]
pub fn only_the_characters_between_the_two_places_count() {
    let characters: Vec<char> = "ab-12cd".chars().collect();

    assert_eq!(Some(-12), parse_integer(&characters, 2, 5));
    assert_eq!(Some(12), parse_integer(&characters, 3, 5));
    assert_eq!(Some(2), parse_integer(&characters, 4, 5));
    assert_eq!(None, parse_integer(&characters, 4, 4));
    assert_eq!(None, parse_integer(&characters, 2, 6));
}

#[test]
pub fn the_decimal_form_has_no_leading_zeros() {
    assert_eq!("0", decimal_text(0));
    assert_eq!("9", decimal_text(9));
    assert_eq!("10", decimal_text(10));
    assert_eq!("1000000", decimal_text(1000000));
    assert_eq!("-1", decimal_text(-1));
    assert_eq!("-120", decimal_text(-120));
}

#[test]
pub fn the_decimal_form_reads_as_the_value() {
    let values = vec![
        0,
        1,
        -1,
        99,
        -100,
        4294967296,
        i128::MAX,
        i128::MIN,
        i128::MAX - 1,
        i128::MIN + 1,
        123456789012345678901234567890,
    ];
    for value in values {
        let text = decimal_text(value);
        assert_eq!(value.to_string(), text);
        assert_eq!(Some(value), value_of(&text));
    }
}
