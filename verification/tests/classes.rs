use rl_parser::classify::{is_digit, is_ident_char, is_ident_start, is_whitespace};
use rl_parser::encoding::char_width;
use rl_parser::number::{parse_decimal, NumberError};

#[test]
fn whitespace_is_space_tab_and_newline() {
    assert!(is_whitespace(' '));
    assert!(is_whitespace('\t'));
    assert!(is_whitespace('\n'));
    assert!(!is_whitespace('\r'));
    assert!(!is_whitespace('\u{b}'));
    assert!(!is_whitespace('\u{c}'));
    assert!(!is_whitespace('\u{a0}'));
    assert!(!is_whitespace('a'));
    assert!(!is_whitespace('0'));
}

#[test]
fn digits_are_zero_to_nine() {
    for c in "0123456789".chars() {
        assert!(is_digit(c));
    }
    assert!(!is_digit('/'));
    assert!(!is_digit(':'));
    assert!(!is_digit('a'));
    assert!(!is_digit('\u{661}'));
    assert!(!is_digit('\u{ff11}'));
}

#[test]
fn identifiers_start_with_letters_underscore_and_symbols() {
    for c in "abcdefghijklmnopqrstuvwxyzABCDEFGHIJKLMNOPQRSTUVWXYZ_!?*-+/=<>".chars() {
        assert!(is_ident_start(c));
    }
    for c in "0123456789 \t\n()[]{}@#$%^&|~`'\",.;:\\".chars() {
        assert!(!is_ident_start(c));
    }
    assert!(!is_ident_start('\u{e9}'));
    assert!(!is_ident_start('\u{3bb}'));
}

#[test]
fn identifiers_go_on_with_digits_too() {
    for c in "abcxyzABCXYZ_!?*-+/=<>0123456789".chars() {
        assert!(is_ident_char(c));
    }
    for c in " \t\n()[]{}@#$%^&|~`'\",.;:\\".chars() {
        assert!(!is_ident_char(c));
    }
    assert!(!is_ident_char('\u{e9}'));
}

#[test]
fn every_character_is_classified_as_the_ranges_say() {
    for c in '\0'..='\u{2ff}' {
        let letter = c.is_ascii_alphabetic();
        let symbol = "_!?*-+/=<>".contains(c);
        assert_eq!(is_whitespace(c), c == ' ' || c == '\t' || c == '\n');
        assert_eq!(is_digit(c), c.is_ascii_digit());
        assert_eq!(is_ident_start(c), letter || symbol);
        assert_eq!(is_ident_char(c), letter || symbol || c.is_ascii_digit());
    }
}

#[test]
fn widths_are_those_of_the_encoding() {
    assert_eq!(char_width('\0'), 1);
    assert_eq!(char_width('a'), 1);
    assert_eq!(char_width('\u{7f}'), 1);
    assert_eq!(char_width('\u{80}'), 2);
    assert_eq!(char_width('\u{e9}'), 2);
    assert_eq!(char_width('\u{7ff}'), 2);
    assert_eq!(char_width('\u{800}'), 3);
    assert_eq!(char_width('\u{20ac}'), 3);
    assert_eq!(char_width('\u{ffff}'), 3);
    assert_eq!(char_width('\u{10000}'), 4);
    assert_eq!(char_width('\u{1f600}'), 4);
    assert_eq!(char_width('\u{10ffff}'), 4);
}

#[test]
fn widths_agree_with_the_standard_library() {
    for c in ['\0', 'z', '\u{7f}', '\u{80}', '\u{7ff}', '\u{800}', '\u{d7ff}', '\u{e000}',
        '\u{ffff}', '\u{10000}', '\u{10ffff}']
    {
        assert_eq!(char_width(c), c.len_utf8());
    }
}

#[test]
fn decimal_of_digits() {
    assert_eq!(parse_decimal("0"), Ok(0));
    assert_eq!(parse_decimal("9"), Ok(9));
    assert_eq!(parse_decimal("10"), Ok(10));
    assert_eq!(parse_decimal("42"), Ok(42));
    assert_eq!(parse_decimal("0042"), Ok(42));
    assert_eq!(parse_decimal("9876543210"), Ok(9_876_543_210));
    assert_eq!(parse_decimal("18446744073709551615"), Ok(u64::MAX));
    assert_eq!(parse_decimal("000018446744073709551615"), Ok(u64::MAX));
}

#[test]
fn decimal_of_nothing() {
    assert_eq!(parse_decimal(""), Err(NumberError::Empty));
}

#[test]
fn decimal_with_a_character_that_is_no_digit() {
    assert_eq!(parse_decimal("12a"), Err(NumberError::InvalidDigit));
    assert_eq!(parse_decimal("a12"), Err(NumberError::InvalidDigit));
    assert_eq!(parse_decimal("1 2"), Err(NumberError::InvalidDigit));
    assert_eq!(parse_decimal("+5"), Err(NumberError::InvalidDigit));
    assert_eq!(parse_decimal("-5"), Err(NumberError::InvalidDigit));
    assert_eq!(parse_decimal("\u{661}"), Err(NumberError::InvalidDigit));
    assert_eq!(parse_decimal("1\u{e9}"), Err(NumberError::InvalidDigit));
}

#[test]
fn decimal_above_the_largest() {
    assert_eq!(parse_decimal("18446744073709551616"), Err(NumberError::Overflow));
    assert_eq!(parse_decimal("18446744073709551620"), Err(NumberError::Overflow));
    assert_eq!(parse_decimal("99999999999999999999"), Err(NumberError::Overflow));
    assert_eq!(parse_decimal("100000000000000000000000000"), Err(NumberError::Overflow));
}

#[test]
fn decimal_reports_the_first_obstacle() {
    assert_eq!(parse_decimal("99999999999999999999a"), Err(NumberError::Overflow));
    assert_eq!(parse_decimal("a99999999999999999999"), Err(NumberError::InvalidDigit));
    assert_eq!(parse_decimal("1844674407370955161a6"), Err(NumberError::InvalidDigit));
    assert_eq!(parse_decimal("18446744073709551616a"), Err(NumberError::Overflow));
}

#[test]
fn decimal_agrees_with_the_standard_library_on_digits() {
    for text in ["0", "1", "99", "12345", "18446744073709551615"] {
        assert_eq!(parse_decimal(text).ok(), text.parse::<u64>().ok());
    }
    for text in ["18446744073709551616", "", "12a"] {
        assert_eq!(parse_decimal(text).is_err(), text.parse::<u64>().is_err());
    }
}
