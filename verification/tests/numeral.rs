use squire::error::NumeralParseError;
use squire::value::numeral::{glyph_worth, push_decimal, Numeral};

fn written(n: i64) -> String {
    let mut out = String::new();
    Numeral::new(n).dump(&mut out);
    out
}

#[test]
fn arabic_digits_give_their_value() {
    assert_eq!(Numeral::parse_arabic("123"), Ok(Numeral::new(123)));
    assert_eq!(Numeral::parse_arabic("0"), Ok(Numeral::new(0)));
    assert_eq!(Numeral::parse_arabic("007"), Ok(Numeral::new(7)));
}

#[test]
fn arabic_underscores_are_passed_over() {
    assert_eq!(Numeral::parse_arabic("1_000_000"), Ok(Numeral::new(1_000_000)));
    assert_eq!(Numeral::parse_arabic("_1_"), Ok(Numeral::new(1)));
}

#[test]
fn arabic_largest_numeral_fits_and_the_next_does_not() {
    assert_eq!(Numeral::parse_arabic("9223372036854775807"), Ok(Numeral::new(i64::MAX)));
    assert_eq!(Numeral::parse_arabic("9223372036854775808"), Err(NumeralParseError::Overflow));
    assert_eq!(
        Numeral::parse_arabic("99999999999999999999999999999999999999999999"),
        Err(NumeralParseError::Overflow)
    );
}

#[test]
fn arabic_without_digit_is_empty() {
    assert_eq!(Numeral::parse_arabic("_"), Err(NumeralParseError::Empty));
    assert_eq!(Numeral::parse_arabic(""), Err(NumeralParseError::Empty));
}

#[test]
fn arabic_reports_the_first_foreign_character() {
    assert_eq!(Numeral::parse_arabic("12a4b"), Err(NumeralParseError::BadTrailingChar('a')));
    assert_eq!(
        Numeral::parse_arabic("99999999999999999999999x"),
        Err(NumeralParseError::BadTrailingChar('x'))
    );
}

#[test]
fn roman_glyphs_add_and_subtract() {
    assert_eq!(Numeral::parse_roman("XIV"), Ok(Numeral::new(14)));
    assert_eq!(Numeral::parse_roman("xiv"), Ok(Numeral::new(14)));
    assert_eq!(Numeral::parse_roman("MCMXCIV"), Ok(Numeral::new(1994)));
    assert_eq!(Numeral::parse_roman("III"), Ok(Numeral::new(3)));
    assert_eq!(Numeral::parse_roman("MMXXVI"), Ok(Numeral::new(2026)));
    assert_eq!(Numeral::parse_roman("I"), Ok(Numeral::new(1)));
}

#[test]
fn roman_unicode_glyphs_count_like_letters() {
    assert_eq!(Numeral::parse_roman("\u{2169}\u{2160}\u{2164}"), Ok(Numeral::new(14)));
    assert_eq!(Numeral::parse_roman("\u{2179}\u{2170}\u{2174}"), Ok(Numeral::new(14)));
    assert_eq!(Numeral::parse_roman("\u{216F}\u{216E}\u{216D}\u{216C}"), Ok(Numeral::new(1650)));
}

#[test]
fn roman_every_smaller_glyph_before_a_greater_is_subtracted() {
    assert_eq!(Numeral::parse_roman("IM"), Ok(Numeral::new(999)));
    assert_eq!(Numeral::parse_roman("IIX"), Ok(Numeral::new(10)));
    assert_eq!(Numeral::parse_roman("IVX"), Ok(Numeral::new(4)));
    assert_eq!(Numeral::parse_roman("IIII"), Ok(Numeral::new(4)));
}

#[test]
fn roman_underscores_are_passed_over() {
    assert_eq!(Numeral::parse_roman("X_I_V"), Ok(Numeral::new(14)));
    assert_eq!(Numeral::parse_roman("_"), Err(NumeralParseError::Empty));
}

#[test]
fn roman_reports_the_first_foreign_character() {
    assert_eq!(Numeral::parse_roman("XIa"), Err(NumeralParseError::BadTrailingChar('a')));
    assert_eq!(Numeral::parse_roman("12"), Err(NumeralParseError::BadTrailingChar('1')));
}

#[test]
fn glyphs_are_recognised() {
    for glyph in ['I', 'v', 'X', 'l', 'C', 'd', 'M', '\u{2160}', '\u{217F}'] {
        assert!(Numeral::is_roman_numeral(glyph));
    }
    for other in ['A', '1', '_', ' ', '\u{2161}', '\u{2180}'] {
        assert!(!Numeral::is_roman_numeral(other));
    }
    assert_eq!(glyph_worth('D'), Some(500));
    assert_eq!(glyph_worth('\u{216C}'), Some(50));
    assert_eq!(glyph_worth('z'), None);
}

#[test]
fn numerals_are_written_in_base_ten() {
    assert_eq!(written(0), "0");
    assert_eq!(written(7), "7");
    assert_eq!(written(10), "10");
    assert_eq!(written(1994), "1994");
    assert_eq!(written(-54), "-54");
    assert_eq!(written(i64::MAX), "9223372036854775807");
    assert_eq!(written(i64::MIN), "-9223372036854775808");
}

#[test]
fn decimal_is_appended() {
    let mut out = String::from("n=");
    push_decimal(&mut out, 18446744073709551615);
    assert_eq!(out, "n=18446744073709551615");
}

#[test]
fn value_round_trips() {
    assert_eq!(Numeral::new(-3).value(), -3);
    assert_eq!(Numeral::new(5), Numeral(5));
}
