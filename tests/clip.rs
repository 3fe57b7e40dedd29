use fxtools::clip::{parse_range, RangeError};

#[test]
fn test_parse_range() {
    let range = "1..2".to_string();
    let (start, end) = parse_range(range).unwrap();
    assert_eq!(start, Some(1));
    assert_eq!(end, Some(2));

    let range = "1..".to_string();
    let (start, end) = parse_range(range).unwrap();
    assert_eq!(start, Some(1));
    assert_eq!(end, None);

    let range = "..2".to_string();
    let (start, end) = parse_range(range).unwrap();
    assert_eq!(start, None);
    assert_eq!(end, Some(2));
}

#[test]
fn parse_range_multi_digit_and_sign() {
    assert_eq!(parse_range("12..345".to_string()), Ok((Some(12), Some(345))));
    assert_eq!(parse_range("+3..4".to_string()), Ok((Some(3), Some(4))));
    assert_eq!(parse_range("1..2..3".to_string()), Ok((Some(1), Some(2))));
}

#[test]
fn parse_range_errors() {
    assert_eq!(parse_range("12".to_string()), Err(RangeError::MissingSeparator));
    assert_eq!(parse_range("x..2".to_string()), Err(RangeError::InvalidNumber));
    assert_eq!(parse_range("1..y".to_string()), Err(RangeError::InvalidNumber));
    assert_eq!(parse_range("..".to_string()), Err(RangeError::InvalidNumber));
    assert_eq!(parse_range("-1..".to_string()), Err(RangeError::InvalidNumber));
    assert_eq!(
        parse_range("..99999999999999999999999".to_string()),
        Err(RangeError::InvalidNumber)
    );
}
