//! The states of the scanner and the mathematical model of a scanner.

use vstd::prelude::*;

verus! {

/// Where the scanner stands within a document.
#[derive(Debug, Clone, Copy, PartialEq, Eq)]
pub enum ParserState {
    /// A name, whitespace, a line ending or the end of the document may follow.
    Normal,
    /// The first byte of a name has been read.
    ReadingName,
    /// A name has been read and closed by whitespace; `=` must follow.
    BeforeEquals,
    /// `=` has been read; a value must follow.
    AfterEquals,
    /// Inside a basic string, after its opening quote.
    ReadingString,
    /// Inside a decimal integer, which may yet turn out to be a float.
    ReadingInteger,
    /// Inside a decimal integer that was written with a minus sign.
    ReadingNegativeInteger,
    /// A negative integer has been read. The flags say whether it was
    /// closed by the end of the document and whether by a line ending.
    FinishedNegativeInteger(bool, bool),
    /// Inside an integer written with the prefix `0o`.
    ReadingOctalInteger,
    /// Inside an integer written with the prefix `0x`.
    ReadingHexInteger,
    /// Inside an integer written with the prefix `0b`.
    ReadingBinaryInteger,
    /// Inside a float; the flag says whether its exponent has begun.
    ReadingFloat(bool),
    /// At a `t`, found at the given offset, which must begin `true`.
    ReadingTrue(usize),
    /// At an `f`, found at the given offset, which must begin `false`.
    ReadingFalse(usize),
    /// A value has been handed out; only whitespace may follow on its line.
    AfterValue,
    /// A string has been read up to and including its closing quote.
    FinishedString,
    /// A float has been read; the flags are those of `FinishedNegativeInteger`.
    FinishedFloat(bool, bool),
    /// A decimal integer has been read; the flags are those of `FinishedNegativeInteger`.
    FinishedInteger(bool, bool),
    /// A binary integer has been read; the flags are those of `FinishedNegativeInteger`.
    FinishedBinaryInteger(bool, bool),
    /// A hex integer has been read; the flags are those of `FinishedNegativeInteger`.
    FinishedHexInteger(bool, bool),
    /// An octal integer has been read; the flags are those of `FinishedNegativeInteger`.
    FinishedOctalInteger(bool, bool),
    /// `true` or `false` has been read.
    FinishedBoolean(bool),
    /// The end of the document has been reached.
    EndOfFile,
}

/// A scanner as a plain value: the cursor, the line count, the state and
/// the four offsets that bound the entry being read.
pub struct ParserModel {
    pub position: int,
    pub line_number: usize,
    pub state: ParserState,
    pub name_start: Option<int>,
    pub name_end: Option<int>,
    pub value_start: Option<int>,
    pub value_end: Option<int>,
}

impl ParserState {
    /// How many more phases a pull may pass through from this state.
    pub open spec fn rank(self) -> nat {
        match self {
            ParserState::AfterValue => 8,
            ParserState::Normal => 7,
            ParserState::ReadingName => 6,
            ParserState::BeforeEquals => 5,
            ParserState::AfterEquals => 4,
            ParserState::ReadingString => 3,
            ParserState::ReadingInteger => 3,
            ParserState::ReadingNegativeInteger => 3,
            ParserState::ReadingOctalInteger => 3,
            ParserState::ReadingHexInteger => 3,
            ParserState::ReadingBinaryInteger => 3,
            ParserState::ReadingTrue(_) => 3,
            ParserState::ReadingFalse(_) => 3,
            ParserState::ReadingFloat(false) => 2,
            ParserState::ReadingFloat(true) => 1,
            _ => 0,
        }
    }

    /// The flags of a state that holds a finished number: closed by the end
    /// of the document, closed by a line ending.
    pub open spec fn closing_flags(self) -> Option<(bool, bool)> {
        match self {
            ParserState::FinishedNegativeInteger(eof, eol) => Some((eof, eol)),
            ParserState::FinishedFloat(eof, eol) => Some((eof, eol)),
            ParserState::FinishedInteger(eof, eol) => Some((eof, eol)),
            ParserState::FinishedBinaryInteger(eof, eol) => Some((eof, eol)),
            ParserState::FinishedHexInteger(eof, eol) => Some((eof, eol)),
            ParserState::FinishedOctalInteger(eof, eol) => Some((eof, eol)),
            _ => None,
        }
    }

    /// A whole entry has been read and waits to be handed out.
    pub open spec fn is_finished(self) -> bool {
        self.closing_flags() is Some || self is FinishedString || self is FinishedBoolean
    }

    /// No entry is under way: the states a scanner is in between two pulls.
    pub open spec fn is_resting(self) -> bool {
        self is Normal || self is AfterValue || self is EndOfFile
    }
}

impl ParserModel {
    /// The scanner at the start of a document: offset 0, line 1.
    pub open spec fn start() -> ParserModel {
        ParserModel {
            position: 0,
            line_number: 1,
            state: ParserState::Normal,
            name_start: None,
            name_end: None,
            value_start: None,
            value_end: None,
        }
    }

    /// The scanner is between two entries and holds no pending offset.
    pub open spec fn resumable(self) -> bool {
        &&& self.state.is_resting()
        &&& self.name_start is None
        &&& self.name_end is None
        &&& self.value_start is None
        &&& self.value_end is None
    }

    /// The pending offsets are those that the state calls for, in order
    /// and behind the cursor.
    pub open spec fn wf(self) -> bool {
        if self.state.is_resting() {
            self.resumable()
        } else if self.state is ReadingName {
            &&& self.name_start matches Some(a)
            &&& 0 <= a < self.position
            &&& self.name_end is None
            &&& self.value_start is None
            &&& self.value_end is None
        } else if self.state is BeforeEquals || self.state is AfterEquals {
            &&& self.name_start matches Some(a)
            &&& self.name_end matches Some(b)
            &&& 0 <= a < b < self.position
            &&& self.value_start is None
            &&& self.value_end is None
        } else if self.state.is_finished() {
            &&& self.name_start matches Some(a)
            &&& self.name_end matches Some(b)
            &&& self.value_start matches Some(c)
            &&& self.value_end matches Some(d)
            &&& 0 <= a < b < c <= d <= self.position
            &&& self.state.closing_flags() matches Some((eof, eol)) ==> !(eof && eol)
        } else {
            &&& self.name_start matches Some(a)
            &&& self.name_end matches Some(b)
            &&& self.value_start matches Some(c)
            &&& 0 <= a < b < c <= self.position
            &&& self.value_end is None
            &&& self.state matches ParserState::ReadingTrue(at) ==> at == c && c == self.position
            &&& self.state matches ParserState::ReadingFalse(at) ==> at == c && c == self.position
        }
    }
}

} // verus!
