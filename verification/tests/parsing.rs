use onewire_temps::reading::{parse_reading, ReadError};

#[test]
fn parse_valid_second_line() {
    assert_eq!(parse_reading("abc\nxyz t=23625 def\n"), Ok(23625));
}

#[test]
fn parse_valid_no_trailing_newline() {
    assert_eq!(parse_reading("crc ok\nstuff t=1000"), Ok(1000));
}

#[test]
fn parse_negative_value() {
    assert_eq!(parse_reading("first\nsecond t=-1250\n"), Ok(-1250));
}

#[test]
fn parse_plus_sign() {
    assert_eq!(parse_reading("a\nb t=+500\n"), Ok(500));
}

#[test]
fn parse_zero() {
    assert_eq!(parse_reading("a\nb t=0\n"), Ok(0));
}

#[test]
fn parse_takes_first_t_field() {
    assert_eq!(parse_reading("a\nx t=12 t=34\n"), Ok(12));
}

#[test]
fn parse_ignores_first_line_fields() {
    // Only the second line is consulted for the reading.
    assert_eq!(parse_reading("x t=99\ny t=42\n"), Ok(42));
}

#[test]
fn parse_single_line_is_malformed() {
    assert_eq!(parse_reading("only one line t=5"), Err(ReadError::MalformedContent));
}

#[test]
fn parse_empty_is_malformed() {
    assert_eq!(parse_reading(""), Err(ReadError::MalformedContent));
}

#[test]
fn parse_newline_only_is_malformed() {
    assert_eq!(parse_reading("abc\n"), Err(ReadError::MalformedContent));
}

#[test]
fn parse_missing_t_field_is_malformed() {
    assert_eq!(parse_reading("abc\nno temperature here\n"), Err(ReadError::MalformedContent));
}

#[test]
fn parse_no_digits_is_parse_error() {
    assert_eq!(parse_reading("a\nb t=xyz\n"), Err(ReadError::ParseError));
}

#[test]
fn parse_bare_sign_is_parse_error() {
    assert_eq!(parse_reading("a\nb t=-\n"), Err(ReadError::ParseError));
}

#[test]
fn parse_overflow_is_parse_error() {
    assert_eq!(
        parse_reading("a\nb t=99999999999999999999\n"),
        Err(ReadError::ParseError)
    );
}

#[test]
fn parse_max_value() {
    assert_eq!(parse_reading("a\nb t=9223372036854775807\n"), Ok(i64::MAX));
}

#[test]
fn parse_just_above_max_is_parse_error() {
    assert_eq!(parse_reading("a\nb t=9223372036854775808\n"), Err(ReadError::ParseError));
}
