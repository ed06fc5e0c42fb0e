use advent::error::GenericError;
use advent::numbers::parse_numbers;

#[test]
fn numbers_separated_by_whitespace() {
    assert_eq!(parse_numbers(" 79 14\t55  13\n"), Ok(vec![79, 14, 55, 13]));
    assert_eq!(parse_numbers("50 98 2"), Ok(vec![50, 98, 2]));
    assert_eq!(parse_numbers(""), Ok(vec![]));
    assert_eq!(parse_numbers("   "), Ok(vec![]));
    assert_eq!(parse_numbers("007"), Ok(vec![7]));
}

#[test]
fn bad_numbers_are_rejected() {
    assert_eq!(parse_numbers("12 x4"), Err(GenericError::InvalidInput));
    assert_eq!(parse_numbers("-3"), Err(GenericError::InvalidInput));
    assert_eq!(parse_numbers("99999999999999999999999"), Err(GenericError::InvalidInput));
    assert_eq!(parse_numbers(&usize::MAX.to_string()), Ok(vec![usize::MAX]));
}
