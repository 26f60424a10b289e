use toml_parser::{ConversionError, Error, ErrorKind};

#[test]
fn kinds_report_their_line() {
    assert_eq!(
        ErrorKind::InvalidEndOfLine(3).message(),
        "Line 3 ended with an unsupported line ending, only \\n or \\r\\n are supported in TOML files"
    );
    assert_eq!(ErrorKind::MissingValue(12).message(), "Line 12 is missing a value");
    assert_eq!(
        ErrorKind::UnknownValueType(1).message(),
        "The value on line 1 is of an unknown type"
    );
    assert_eq!(ErrorKind::InvalidValue(100).message(), "The value on line 100 is invalid");
    assert_eq!(ErrorKind::InvalidName(9).message(), "The name on line 9 is invalid");
}

#[test]
fn line_numbers_are_written_in_full() {
    assert_eq!(ErrorKind::InvalidName(0).message(), "The name on line 0 is invalid");
    assert_eq!(ErrorKind::InvalidName(10).message(), "The name on line 10 is invalid");
    assert_eq!(
        ErrorKind::InvalidName(1234567890).message(),
        "The name on line 1234567890 is invalid"
    );
    assert_eq!(
        ErrorKind::InvalidName(usize::MAX).message(),
        format!("The name on line {} is invalid", usize::MAX)
    );
}

#[test]
fn kinds_give_their_line() {
    assert_eq!(ErrorKind::InvalidEndOfLine(1).line(), 1);
    assert_eq!(ErrorKind::MissingValue(2).line(), 2);
    assert_eq!(ErrorKind::UnknownValueType(3).line(), 3);
    assert_eq!(ErrorKind::InvalidValue(4).line(), 4);
    assert_eq!(ErrorKind::InvalidName(5).line(), 5);
}

#[test]
fn errors_report_their_kind() {
    let error = Error::new(ErrorKind::MissingValue(2), None);
    assert_eq!(error.kind(), ErrorKind::MissingValue(2));
    assert_eq!(error.source(), None);
    assert_eq!(
        error.message(),
        "Error in TOML Parser, error was Line 2 is missing a value"
    );
}

#[test]
fn errors_report_what_caused_them() {
    let error = Error::new(
        ErrorKind::InvalidValue(7),
        Some(ConversionError::PositiveOverflow),
    );
    assert_eq!(error.kind(), ErrorKind::InvalidValue(7));
    assert_eq!(error.source(), Some(ConversionError::PositiveOverflow));
    assert_eq!(
        error.message(),
        "Error in TOML Parser, error was The value on line 7 is invalid, underlying error was number too large to fit in target type"
    );
    let error = Error::new(
        ErrorKind::InvalidValue(8),
        Some(ConversionError::NegativeOverflow),
    );
    assert_eq!(
        error.message(),
        "Error in TOML Parser, error was The value on line 8 is invalid, underlying error was number too small to fit in target type"
    );
}

#[test]
fn conversion_failures_read_as_those_of_the_standard_library() {
    assert_eq!(
        ConversionError::PositiveOverflow.message(),
        "99999999999999999999".parse::<i64>().unwrap_err().to_string()
    );
    assert_eq!(
        ConversionError::NegativeOverflow.message(),
        "-99999999999999999999".parse::<i64>().unwrap_err().to_string()
    );
}
