use bentley_ottmann::geometry::{Line, NumberError, ParseLineError, Point};
use bentley_ottmann::parse::{parse_line, parse_number};

fn number(text: &str) -> Result<i64, NumberError> {
    parse_number(text.as_bytes(), 0, text.len())
}

#[test]
fn numbers_are_read_in_billionths() {
    assert_eq!(number("0"), Ok(0));
    assert_eq!(number("1"), Ok(1_000_000_000));
    assert_eq!(number("2.5"), Ok(2_500_000_000));
    assert_eq!(number("0.000000001"), Ok(1));
    assert_eq!(number("123.456789012"), Ok(123_456_789_012));
    assert_eq!(number("007"), Ok(7_000_000_000));
}

#[test]
fn numbers_may_have_a_sign() {
    assert_eq!(number("-1.5"), Ok(-1_500_000_000));
    assert_eq!(number("+1.5"), Ok(1_500_000_000));
    assert_eq!(number("-0"), Ok(0));
    assert_eq!(number("-0.000000001"), Ok(-1));
}

#[test]
fn numbers_may_lack_the_digits_on_one_side_of_the_point() {
    assert_eq!(number(".5"), Ok(500_000_000));
    assert_eq!(number("5."), Ok(5_000_000_000));
    assert_eq!(number("-.25"), Ok(-250_000_000));
}

#[test]
fn the_tenth_decimal_place_rounds_the_ninth() {
    assert_eq!(number("0.0000000014"), Ok(1));
    assert_eq!(number("0.0000000015"), Ok(2));
    assert_eq!(number("0.00000000149999"), Ok(1));
    assert_eq!(number("0.9999999995"), Ok(1_000_000_000));
    assert_eq!(number("-0.0000000015"), Ok(-2));
    assert_eq!(number("0.0000000004"), Ok(0));
}

#[test]
fn empty_text_is_no_number() {
    assert_eq!(number(""), Err(NumberError::Empty));
}

#[test]
fn text_that_is_no_number_is_invalid() {
    for text in ["+", "-", ".", "-.", "abc", "1a", "1.2.3", "--1", "1-", "1 ", " 1", "0x10", "inf", "NaN", "1,5"] {
        assert_eq!(number(text), Err(NumberError::Invalid), "{:?}", text);
    }
}

#[test]
fn numbers_beyond_a_billion_units_are_out_of_range() {
    assert_eq!(number("1000000000"), Ok(1_000_000_000_000_000_000));
    assert_eq!(number("-1000000000"), Ok(-1_000_000_000_000_000_000));
    assert_eq!(number("1000000000.0000000004"), Ok(1_000_000_000_000_000_000));
    assert_eq!(number("999999999.999999999"), Ok(999_999_999_999_999_999));
    assert_eq!(number("1000000000.000000001"), Err(NumberError::OutOfRange));
    assert_eq!(number("1000000000.0000000005"), Err(NumberError::OutOfRange));
    assert_eq!(number("-1000000000.000000001"), Err(NumberError::OutOfRange));
    assert_eq!(number("1000000001"), Err(NumberError::OutOfRange));
    assert_eq!(number("99999999999999999999999999999999999999"), Err(NumberError::OutOfRange));
    // what is wrong with the text is found before what is wrong with the number
    assert_eq!(number("99999999999999999999x"), Err(NumberError::Invalid));
}

#[test]
fn a_number_is_read_from_the_middle_of_the_bytes() {
    let bytes = "ab12.5cd".as_bytes();
    assert_eq!(parse_number(bytes, 2, 6), Ok(12_500_000_000));
    assert_eq!(parse_number(bytes, 2, 4), Ok(12_000_000_000));
    assert_eq!(parse_number(bytes, 2, 2), Err(NumberError::Empty));
    assert_eq!(parse_number(bytes, 1, 6), Err(NumberError::Invalid));
}

#[test]
fn a_line_has_four_fields() {
    let expected = Line {
        p: Point { x: 0, y: 1_000_000_000 },
        q: Point { x: 2_000_000_000, y: -3_500_000_000 },
    };
    assert_eq!(Line::from_str("0 1 2 -3.5"), Ok(expected));
    assert_eq!(parse_line("0 1 2 -3.5".as_bytes()), Ok(expected));
    assert_eq!(Line::from_str("0 1 2"), Err(ParseLineError::NotFourElements));
    assert_eq!(Line::from_str("0 1 2 3 4"), Err(ParseLineError::NotFourElements));
    assert_eq!(Line::from_str(""), Err(ParseLineError::NotFourElements));
    assert_eq!(Line::from_str("   "), Err(ParseLineError::NotFourElements));
}

#[test]
fn fields_are_parted_by_blanks() {
    let expected = Line::from_str("0 1 2 3").unwrap();
    assert_eq!(Line::from_str("0  1\t2   3"), Ok(expected));
    assert_eq!(Line::from_str("  0 1 2 3  "), Ok(expected));
    assert_eq!(Line::from_str("0 1 2 3\r"), Ok(expected));
    assert_eq!(Line::from_str("0 1 2 3\n"), Ok(expected));
}

#[test]
fn the_first_field_that_is_no_number_gives_the_error() {
    assert_eq!(
        Line::from_str("0 x 2000000000 3"),
        Err(ParseLineError::ParseFloat(NumberError::Invalid))
    );
    assert_eq!(
        Line::from_str("0 1 2000000000 x"),
        Err(ParseLineError::ParseFloat(NumberError::OutOfRange))
    );
    assert_eq!(
        Line::from_str("+ 1 2000000000 x"),
        Err(ParseLineError::ParseFloat(NumberError::Invalid))
    );
    // a byte that is no part of a number, in a letter of more than one byte
    assert_eq!(
        Line::from_str("0 1 2 \u{e9}"),
        Err(ParseLineError::ParseFloat(NumberError::Invalid))
    );
}

#[test]
fn a_parsed_line_may_be_vertical_or_of_zero_length() {
    // the text says nothing of what a sweep takes
    assert!(Line::from_str("1 2 1 0").is_ok());
    assert!(Line::from_str("1 1 1 1").is_ok());
}

#[test]
fn numbers_may_have_an_exponent() {
    assert_eq!(number("1e3"), Ok(1_000_000_000_000));
    assert_eq!(number("1E3"), Ok(1_000_000_000_000));
    assert_eq!(number("2.5e+2"), Ok(250_000_000_000));
    assert_eq!(number("1.5e-3"), Ok(1_500_000));
    assert_eq!(number("-1.25e1"), Ok(-12_500_000_000));
    assert_eq!(number("00012.5e-1"), Ok(1_250_000_000));
    assert_eq!(number("0.0000000001e10"), Ok(1_000_000_000));
    assert_eq!(number("1.e2"), Ok(100_000_000_000));
    assert_eq!(number(".5e1"), Ok(5_000_000_000));
    assert_eq!(number("1e0"), Ok(1_000_000_000));
    assert_eq!(number("1e-0"), Ok(1_000_000_000));
    assert_eq!(number("123456789e-9"), Ok(123_456_789));
}

#[test]
fn an_exponent_moves_the_place_that_is_rounded() {
    assert_eq!(number("1e-9"), Ok(1));
    assert_eq!(number("1e-10"), Ok(0));
    assert_eq!(number("5e-10"), Ok(1));
    assert_eq!(number("4.9e-10"), Ok(0));
    assert_eq!(number("49e-11"), Ok(0));
    assert_eq!(number("50e-11"), Ok(1));
    assert_eq!(number("-5e-10"), Ok(-1));
    assert_eq!(number("9e-11"), Ok(0));
    assert_eq!(number("1.23456789049e1"), Ok(12_345_678_905));
    assert_eq!(number("0.15e-8"), Ok(2));
}

#[test]
fn an_exponent_may_be_far_beyond_the_digits() {
    assert_eq!(number("1e9"), Ok(1_000_000_000_000_000_000));
    assert_eq!(number("1e10"), Err(NumberError::OutOfRange));
    assert_eq!(number("1.000000001e9"), Err(NumberError::OutOfRange));
    assert_eq!(number("0.001e12"), Ok(1_000_000_000_000_000_000));
    assert_eq!(number("1e28"), Err(NumberError::OutOfRange));
    assert_eq!(number("1e29"), Err(NumberError::OutOfRange));
    assert_eq!(number("1e99999999999999999999999999999"), Err(NumberError::OutOfRange));
    assert_eq!(number("0e99999999999999999999999999999"), Ok(0));
    assert_eq!(number("0.000e1000000000000000000000000"), Ok(0));
    assert_eq!(number("1e-99999999999999999999999999999"), Ok(0));
    assert_eq!(number("-9e-1000000000000000000000000"), Ok(0));
    assert_eq!(number("1000000000000000000000000000000e-30"), Ok(1_000_000_000));
}

#[test]
fn an_exponent_needs_digits_on_both_sides() {
    for text in ["e5", "E5", "1e", "1e+", "1e-", ".e5", "-e1", "1e5.0", "1e5e5", "1e 5", "1ee5", "1e--5", "1.5f3"] {
        assert_eq!(number(text), Err(NumberError::Invalid), "{:?}", text);
    }
}

#[test]
fn a_line_may_hold_exponents() {
    assert_eq!(
        Line::from_str("1e0 -2.5e-1 3E2 4"),
        Ok(Line {
            p: Point { x: 1_000_000_000, y: -250_000_000 },
            q: Point { x: 300_000_000_000, y: 4_000_000_000 },
        })
    );
}
