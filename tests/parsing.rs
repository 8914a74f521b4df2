use intermediate_fraction::error::FractionError;
use intermediate_fraction::input::{is_white_char, parse_input_vals, parse_int_from_str};

#[test]
fn parses_plain_number() {
    assert_eq!(parse_int_from_str("42"), Ok(42));
}

#[test]
fn parses_number_with_surrounding_space() {
    assert_eq!(parse_int_from_str("  17\n"), Ok(17));
    assert_eq!(parse_int_from_str("\t0 "), Ok(0));
}

#[test]
fn parses_number_with_plus_sign() {
    assert_eq!(parse_int_from_str("+7"), Ok(7));
}

#[test]
fn parses_largest_u32() {
    assert_eq!(parse_int_from_str("4294967295"), Ok(u32::MAX));
    assert_eq!(parse_int_from_str("0004294967295"), Ok(u32::MAX));
}

#[test]
fn rejects_number_above_u32() {
    assert_eq!(parse_int_from_str("4294967296"), Err(FractionError::MalformedInput));
    assert_eq!(parse_int_from_str("99999999999999999999999"), Err(FractionError::MalformedInput));
}

#[test]
fn rejects_non_numbers() {
    for s in ["", "   ", "+", "-1", "12a", "a12", "1 2", "1.5", "++1", "\u{0661}"] {
        assert_eq!(parse_int_from_str(s), Err(FractionError::MalformedInput), "{:?}", s);
    }
}

#[test]
fn white_space_matches_std() {
    for n in 0u32..0x3100 {
        if let Some(c) = char::from_u32(n) {
            assert_eq!(is_white_char(c), c.is_whitespace(), "{:x}", n);
        }
    }
}

#[test]
fn reads_four_values() {
    assert_eq!(parse_input_vals("2 5 4 5"), Ok([2, 5, 4, 5]));
}

#[test]
fn reads_four_values_with_mixed_space() {
    assert_eq!(parse_input_vals("  12\t31   7\r\n18\n"), Ok([12, 31, 7, 18]));
    assert_eq!(parse_input_vals("1\u{3000}2\u{a0}3 4"), Ok([1, 2, 3, 4]));
}

#[test]
fn rejects_too_few_values() {
    assert_eq!(parse_input_vals("1 2 3"), Err(FractionError::MalformedInput));
    assert_eq!(parse_input_vals(""), Err(FractionError::MalformedInput));
    assert_eq!(parse_input_vals("   \n"), Err(FractionError::MalformedInput));
}

#[test]
fn rejects_too_many_values() {
    assert_eq!(parse_input_vals("1 2 3 4 5"), Err(FractionError::MalformedInput));
}

#[test]
fn rejects_non_numeric_value() {
    assert_eq!(parse_input_vals("1 x 3 4"), Err(FractionError::MalformedInput));
    assert_eq!(parse_input_vals("1 2 3 -4"), Err(FractionError::MalformedInput));
    assert_eq!(parse_input_vals("1 2 3 4294967296"), Err(FractionError::MalformedInput));
}

#[test]
fn token_splitting_matches_std() {
    let line = " 8\u{2003}9\u{85}+10  11 ";
    let expected: Vec<u32> = line.split_whitespace().map(|t| t.parse().unwrap()).collect();
    assert_eq!(parse_input_vals(line), Ok([expected[0], expected[1], expected[2], expected[3]]));
}
