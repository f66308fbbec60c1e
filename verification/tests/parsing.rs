use station_agg::records::parse_i32;

#[test]
fn parses_single_digit() {
    assert_eq!(parse_i32(b"5.0"), Ok(50));
}

#[test]
fn parses_two_digits() {
    assert_eq!(parse_i32(b"45.6"), Ok(456));
}

#[test]
fn parses_three_digits() {
    assert_eq!(parse_i32(b"999.9"), Ok(9999));
}

#[test]
fn parses_negative() {
    assert_eq!(parse_i32(b"-12.3"), Ok(-123));
    assert_eq!(parse_i32(b"-999.9"), Ok(-9999));
    assert_eq!(parse_i32(b"-0.0"), Ok(0));
}

#[test]
fn parses_zero() {
    assert_eq!(parse_i32(b"0.0"), Ok(0));
}

#[test]
fn rejects_empty_and_short_tokens() {
    assert!(parse_i32(b"").is_err());
    assert!(parse_i32(b"5").is_err());
    assert!(parse_i32(b".5").is_err());
    assert!(parse_i32(b"-").is_err());
    assert!(parse_i32(b"-5").is_err());
}

#[test]
fn rejects_missing_or_misplaced_dot() {
    assert!(parse_i32(b"123").is_err());
    assert!(parse_i32(b"1.23").is_err());
    assert!(parse_i32(b"12.34").is_err());
    assert!(parse_i32(b"123.").is_err());
}

#[test]
fn rejects_too_many_integer_digits() {
    assert!(parse_i32(b"1000.0").is_err());
    assert!(parse_i32(b"-1000.0").is_err());
}

#[test]
fn rejects_stray_signs() {
    assert!(parse_i32(b"+1.5").is_err());
    assert!(parse_i32(b"--1.5").is_err());
    assert!(parse_i32(b"1-.5").is_err());
}

#[test]
fn rejects_non_digits() {
    assert!(parse_i32(b"ab.c").is_err());
    assert!(parse_i32(b"1.x").is_err());
    assert!(parse_i32(b"1x.5").is_err());
    assert!(parse_i32(b"1.5\r").is_err());
}
