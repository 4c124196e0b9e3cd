use chunkstats::record::{find_byte, parse_record, parse_value, ParseError};

#[test]
fn value_with_one_fraction_digit() {
    assert_eq!(parse_value(b"10.0"), Some(100));
    assert_eq!(parse_value(b"0.5"), Some(5));
    assert_eq!(parse_value(b"99.9"), Some(999));
}

#[test]
fn value_with_sign() {
    assert_eq!(parse_value(b"-5.5"), Some(-55));
    assert_eq!(parse_value(b"+5.5"), Some(55));
    assert_eq!(parse_value(b"-0.0"), Some(0));
}

#[test]
fn value_without_fraction() {
    assert_eq!(parse_value(b"12"), Some(120));
    assert_eq!(parse_value(b"-3"), Some(-30));
    assert_eq!(parse_value(b"007"), Some(70));
}

#[test]
fn value_rejects_what_is_no_number() {
    assert_eq!(parse_value(b""), None);
    assert_eq!(parse_value(b"-"), None);
    assert_eq!(parse_value(b"+"), None);
    assert_eq!(parse_value(b"abc"), None);
    assert_eq!(parse_value(b"1.x"), None);
    assert_eq!(parse_value(b"x.1"), None);
    assert_eq!(parse_value(b"1..2"), None);
    assert_eq!(parse_value(b"--1.0"), None);
    assert_eq!(parse_value(b" 1.0"), None);
    assert_eq!(parse_value(b"1.0 "), None);
    assert_eq!(parse_value(&[0xff, 0xfe]), None);
}

#[test]
fn value_rejects_other_shapes_of_fraction() {
    assert_eq!(parse_value(b"1."), None);
    assert_eq!(parse_value(b".5"), None);
    assert_eq!(parse_value(b"1.25"), None);
    assert_eq!(parse_value(b"-.5"), None);
}

#[test]
fn value_at_the_limit() {
    assert_eq!(parse_value(b"922337203685477580.7"), Some(i64::MAX));
    assert_eq!(parse_value(b"-922337203685477580.7"), Some(-i64::MAX));
    assert_eq!(parse_value(b"922337203685477580.8"), None);
    assert_eq!(parse_value(b"922337203685477581"), None);
    assert_eq!(parse_value(b"922337203685477580"), Some(9223372036854775800));
    assert_eq!(parse_value(b"99999999999999999999999999.9"), None);
}

#[test]
fn find_byte_finds_the_first() {
    assert_eq!(find_byte(b"ab;cd;e", 0, b';'), 2);
    assert_eq!(find_byte(b"ab;cd;e", 3, b';'), 5);
    assert_eq!(find_byte(b"ab;cd;e", 2, b';'), 2);
    assert_eq!(find_byte(b"abc", 0, b';'), 3);
    assert_eq!(find_byte(b"abc", 3, b';'), 3);
}

#[test]
fn record_splits_at_first_separator() {
    assert_eq!(parse_record(b"Oslo;-3.4"), Ok((4, -34)));
    assert_eq!(parse_record(b";1.0"), Ok((0, 10)));
}

#[test]
fn record_without_separator_is_a_fault() {
    assert_eq!(parse_record(b"Oslo 3.4"), Err(ParseError::MissingSeparator));
    assert_eq!(parse_record(b"x"), Err(ParseError::MissingSeparator));
}

#[test]
fn record_with_bad_number_is_a_fault() {
    assert_eq!(parse_record(b"Oslo;warm"), Err(ParseError::InvalidNumber));
    assert_eq!(parse_record(b"Oslo;"), Err(ParseError::InvalidNumber));
    assert_eq!(parse_record(b"Oslo;1.0;2.0"), Err(ParseError::InvalidNumber));
}
