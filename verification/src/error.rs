//! The faults a document can hold and the sentences that report them.

use vstd::prelude::*;
use vstd::string::StringExecFns;
use crate::number::decimal_chars;

verus! {

/// The kinds of fault a document can hold, each with the 1-based number of
/// the line on which it was found.
#[derive(Debug, Clone, Copy, PartialEq)]
pub enum ErrorKind {
    /// A line ended in something other than `\n` or `\r\n`.
    InvalidEndOfLine(usize),
    /// No value follows the `=` on this line.
    MissingValue(usize),
    /// The value begins with a character that opens no known kind of value.
    UnknownValueType(usize),
    /// The value is malformed, or something follows it on its line.
    InvalidValue(usize),
    /// The name is malformed or is not followed by `=`.
    InvalidName(usize),
}

/// Why a well-formed literal could not be turned into a value.
#[derive(Debug, Clone, Copy, PartialEq)]
pub enum ConversionError {
    /// The integer is above `i64::MAX`.
    PositiveOverflow,
    /// The integer is below `i64::MIN`.
    NegativeOverflow,
}

/// A fault, with the conversion failure that caused it where there was one.
#[derive(Debug, Clone, Copy, PartialEq)]
pub struct Error {
    kind: ErrorKind,
    source: Option<ConversionError>,
}

fn digit_text(d: usize) -> (text: &'static str)
    requires
        d < 10,
    ensures
        text@ == seq![(0x30 + d) as u8 as char],
{
    proof {
        reveal_strlit("0");
        reveal_strlit("1");
        reveal_strlit("2");
        reveal_strlit("3");
        reveal_strlit("4");
        reveal_strlit("5");
        reveal_strlit("6");
        reveal_strlit("7");
        reveal_strlit("8");
        reveal_strlit("9");
    }
    let text = if d == 0 {
        "0"
    } else if d == 1 {
        "1"
    } else if d == 2 {
        "2"
    } else if d == 3 {
        "3"
    } else if d == 4 {
        "4"
    } else if d == 5 {
        "5"
    } else if d == 6 {
        "6"
    } else if d == 7 {
        "7"
    } else if d == 8 {
        "8"
    } else {
        "9"
    };
    assert(text@ =~= seq![(0x30 + d) as u8 as char]);
    text
}

/// Appends the decimal numeral of `n` to `text`.
pub fn push_decimal(text: &mut String, n: usize)
    ensures
        final(text)@ == old(text)@ + decimal_chars(n as nat),
    decreases n,
{
    if n >= 10 {
        push_decimal(text, n / 10);
    }
    text.append(digit_text(n % 10));
    proof {
        let last = seq![(0x30 + n % 10) as u8 as char];
        if n >= 10 {
            assert(decimal_chars(n as nat) =~= decimal_chars((n / 10) as nat) + last);
        } else {
            assert(decimal_chars(n as nat) =~= last);
        }
    }
}

impl ErrorKind {
    /// The line on which the fault was found.
    pub open spec fn spec_line(self) -> usize {
        match self {
            ErrorKind::InvalidEndOfLine(line) => line,
            ErrorKind::MissingValue(line) => line,
            ErrorKind::UnknownValueType(line) => line,
            ErrorKind::InvalidValue(line) => line,
            ErrorKind::InvalidName(line) => line,
        }
    }

    #[verifier::when_used_as_spec(spec_line)]
    pub fn line(self) -> (line: usize)
        ensures
            line == self.spec_line(),
    {
        match self {
            ErrorKind::InvalidEndOfLine(line) => line,
            ErrorKind::MissingValue(line) => line,
            ErrorKind::UnknownValueType(line) => line,
            ErrorKind::InvalidValue(line) => line,
            ErrorKind::InvalidName(line) => line,
        }
    }

    /// The sentence that reports this kind of fault.
    pub open spec fn spec_message(self) -> Seq<char> {
        match self {
            ErrorKind::InvalidEndOfLine(line) => "Line "@ + decimal_chars(line as nat)
                + " ended with an unsupported line ending, only \\n or \\r\\n are supported in TOML files"@,
            ErrorKind::MissingValue(line) => "Line "@ + decimal_chars(line as nat)
                + " is missing a value"@,
            ErrorKind::UnknownValueType(line) => "The value on line "@ + decimal_chars(
                line as nat,
            ) + " is of an unknown type"@,
            ErrorKind::InvalidValue(line) => "The value on line "@ + decimal_chars(line as nat)
                + " is invalid"@,
            ErrorKind::InvalidName(line) => "The name on line "@ + decimal_chars(line as nat)
                + " is invalid"@,
        }
    }

    pub fn message(&self) -> (text: String)
        ensures
            text@ == self.spec_message(),
    {
        let (head, line, tail) = match *self {
            ErrorKind::InvalidEndOfLine(line) => (
                "Line ",
                line,
                " ended with an unsupported line ending, only \\n or \\r\\n are supported in TOML files",
            ),
            ErrorKind::MissingValue(line) => ("Line ", line, " is missing a value"),
            ErrorKind::UnknownValueType(line) => (
                "The value on line ",
                line,
                " is of an unknown type",
            ),
            ErrorKind::InvalidValue(line) => ("The value on line ", line, " is invalid"),
            ErrorKind::InvalidName(line) => ("The name on line ", line, " is invalid"),
        };
        let mut text = String::from_str(head);
        push_decimal(&mut text, line);
        text.append(tail);
        text
    }
}

impl ConversionError {
    /// The sentence that reports this failure.
    pub open spec fn spec_message(self) -> Seq<char> {
        match self {
            ConversionError::PositiveOverflow => "number too large to fit in target type"@,
            ConversionError::NegativeOverflow => "number too small to fit in target type"@,
        }
    }

    pub fn message(&self) -> (text: String)
        ensures
            text@ == self.spec_message(),
    {
        match *self {
            ConversionError::PositiveOverflow => String::from_str(
                "number too large to fit in target type",
            ),
            ConversionError::NegativeOverflow => String::from_str(
                "number too small to fit in target type",
            ),
        }
    }
}

impl Error {
    /// The kind of this fault.
    pub closed spec fn spec_kind(&self) -> ErrorKind {
        self.kind
    }

    /// The conversion failure behind this fault, if there was one.
    pub closed spec fn spec_source(&self) -> Option<ConversionError> {
        self.source
    }

    pub fn new(error_type: ErrorKind, source: Option<ConversionError>) -> (error: Error)
        ensures
            error.spec_kind() == error_type,
            error.spec_source() == source,
    {
        Error { kind: error_type, source }
    }

    #[verifier::when_used_as_spec(spec_kind)]
    pub fn kind(&self) -> (kind: ErrorKind)
        ensures
            kind == self.spec_kind(),
    {
        self.kind
    }

    #[verifier::when_used_as_spec(spec_source)]
    pub fn source(&self) -> (source: Option<ConversionError>)
        ensures
            source == self.spec_source(),
    {
        self.source
    }

    /// The full report: the kind's sentence and, where a conversion failed,
    /// the sentence of that failure.
    pub open spec fn spec_message(&self) -> Seq<char> {
        match self.spec_source() {
            Some(cause) => "Error in TOML Parser, error was "@ + self.spec_kind().spec_message()
                + ", underlying error was "@ + cause.spec_message(),
            None => "Error in TOML Parser, error was "@ + self.spec_kind().spec_message(),
        }
    }

    pub fn message(&self) -> (text: String)
        ensures
            text@ == self.spec_message(),
    {
        let mut text = String::from_str("Error in TOML Parser, error was ");
        let kind = self.kind.message();
        text.append(kind.as_str());
        match self.source {
            Some(cause) => {
                text.append(", underlying error was ");
                let why = cause.message();
                text.append(why.as_str());
            },
            None => {},
        }
        text
    }
}

} // verus!
