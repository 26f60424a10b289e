//! The grammar of a document, as functions on its bytes: what each phase
//! of the scanner does to a scanner, and what a whole pull yields.

use vstd::prelude::*;
use vstd::utf8::{decode_utf8, is_continuation_byte};
use crate::ascii::{
    ascii_chars, digit_value, false_text, is_blank, is_break, is_digit, is_exponent_mark,
    true_text, CARRIAGE_RETURN, DOT, EQUALS, HASH, LINE_FEED, LOWER_B, LOWER_F, LOWER_O, LOWER_T,
    LOWER_X, MINUS, PLUS, QUOTE, UNDERSCORE, ZERO,
};
use crate::error::{ConversionError, ErrorKind};
use crate::number::{decoded, is_float_text, without_underscores, Decoded};
use crate::pair::{PairModel, ValueModel};
use crate::state::{ParserModel, ParserState};

verus! {

/// The line count after one more line ending. It stops at `usize::MAX`.
pub open spec fn next_line(line: usize) -> usize {
    if line < usize::MAX {
        (line + 1) as usize
    } else {
        line
    }
}

/// The kinds of run the scanner passes over in one go.
#[derive(Clone, Copy)]
pub enum Run {
    /// Spaces and tabs.
    Blank,
    /// The bytes of a name: all but `=`, whitespace and line endings.
    Name,
    /// The bytes of a string: all but `"` and line endings.
    Text,
    /// The digits of the given radix, and underscores.
    Digits(u8),
}

impl Run {
    /// The byte belongs to runs of this kind.
    pub open spec fn holds(self, b: u8) -> bool {
        match self {
            Run::Blank => is_blank(b),
            Run::Name => !(b == EQUALS || is_blank(b) || is_break(b)),
            Run::Text => !(b == QUOTE || is_break(b)),
            Run::Digits(radix) => b == UNDERSCORE || digit_value(b, radix as int) is Some,
        }
    }
}

/// The end of the run that starts at `from`: the first offset at or after
/// `from` whose byte is not of the run, or the end of the document.
pub open spec fn run_end(doc: Seq<u8>, run: Run, from: int) -> int
    decreases doc.len() - from,
{
    if 0 <= from < doc.len() && run.holds(doc[from]) {
        run_end(doc, run, from + 1)
    } else {
        from
    }
}

/// How a value is closed by what stands behind it.
pub enum Closing {
    /// By the end of the document, by whitespace or by a line ending, as the
    /// flags say; the cursor then stands at `next`, behind the closing bytes.
    Closed { eof: bool, eol: bool, next: int },
    /// A carriage return without a line feed stands there.
    BadLineEnd,
    /// Some other byte stands there.
    Open,
}

/// How a value that stops at `at` is closed.
pub open spec fn closing_at(doc: Seq<u8>, at: int) -> Closing {
    if at >= doc.len() {
        Closing::Closed { eof: true, eol: false, next: at }
    } else if is_blank(doc[at]) {
        Closing::Closed { eof: false, eol: false, next: at + 1 }
    } else if doc[at] == LINE_FEED {
        Closing::Closed { eof: false, eol: true, next: at + 1 }
    } else if doc[at] == CARRIAGE_RETURN {
        if at + 1 < doc.len() && doc[at + 1] == LINE_FEED {
            Closing::Closed { eof: false, eol: true, next: at + 2 }
        } else {
            Closing::BadLineEnd
        }
    } else {
        Closing::Open
    }
}

/// What lies between two entries, from `from` on line `line`: whitespace
/// and line endings, up to the first byte of a name or the end.
pub enum Gap {
    /// Only whitespace and line endings are left; they end at `at`.
    End { at: int, line: usize },
    /// A name begins at `at`, on line `line`.
    Name { at: int, line: usize },
    /// The gap holds a fault.
    Fault(ErrorKind),
}

/// A byte with which no name can begin: `=`, which would leave the name
/// empty; `#` and `"`, which open a comment and a quoted name; and a byte
/// from the middle of a character.
pub open spec fn bars_name(b: u8) -> bool {
    b == EQUALS || b == HASH || b == QUOTE || is_continuation_byte(b)
}

pub open spec fn gap(doc: Seq<u8>, from: int, line: usize) -> Gap
    decreases doc.len() - from,
{
    if !(0 <= from < doc.len()) {
        Gap::End { at: from, line }
    } else if is_blank(doc[from]) {
        gap(doc, from + 1, line)
    } else if doc[from] == LINE_FEED {
        gap(doc, from + 1, next_line(line))
    } else if doc[from] == CARRIAGE_RETURN {
        if from + 1 < doc.len() && doc[from + 1] == LINE_FEED {
            gap(doc, from + 2, next_line(line))
        } else {
            Gap::Fault(ErrorKind::InvalidEndOfLine(line))
        }
    } else if bars_name(doc[from]) {
        Gap::Fault(ErrorKind::InvalidName(line))
    } else {
        Gap::Name { at: from, line }
    }
}

/// The bytes can stand as a name: there is at least one, no name is barred
/// from beginning with the first, and none is `=`, whitespace or part of a
/// line ending.
pub open spec fn is_name(name: Seq<u8>) -> bool {
    &&& name.len() > 0
    &&& !bars_name(name[0])
    &&& forall|i: int| 0 <= i < name.len() ==> Run::Name.holds(#[trigger] name[i])
}

/// What one phase of the scanner comes to.
pub enum Step {
    /// The scanner moves on to this one.
    To(ParserModel),
    /// The document is at fault.
    Fault(ErrorKind),
}

/// The document holds a digit at `at`.
pub open spec fn digit_at(doc: Seq<u8>, at: int) -> bool {
    0 <= at < doc.len() && is_digit(doc[at])
}

/// From `Normal`: passes over the gap to the first byte of the next name.
pub open spec fn from_normal(doc: Seq<u8>, m: ParserModel) -> Step {
    match gap(doc, m.position, m.line_number) {
        Gap::End { at, line } => Step::To(
            ParserModel { state: ParserState::EndOfFile, position: at, line_number: line, ..m },
        ),
        Gap::Name { at, line } => Step::To(
            ParserModel {
                state: ParserState::ReadingName,
                position: at + 1,
                line_number: line,
                name_start: Some(at),
                ..m
            },
        ),
        Gap::Fault(kind) => Step::Fault(kind),
    }
}

/// From `AfterValue`: passes over the rest of the line.
pub open spec fn from_after_value(doc: Seq<u8>, m: ParserModel) -> Step {
    let at = run_end(doc, Run::Blank, m.position);
    match closing_at(doc, at) {
        Closing::Closed { eof, eol, next } => if eof {
            Step::To(ParserModel { state: ParserState::EndOfFile, position: at, ..m })
        } else if eol {
            Step::To(
                ParserModel {
                    state: ParserState::Normal,
                    position: next,
                    line_number: next_line(m.line_number),
                    ..m
                },
            )
        } else {
            Step::Fault(ErrorKind::InvalidValue(m.line_number))
        },
        Closing::BadLineEnd => Step::Fault(ErrorKind::InvalidEndOfLine(m.line_number)),
        Closing::Open => Step::Fault(ErrorKind::InvalidValue(m.line_number)),
    }
}

/// From `ReadingName`: passes over the name, which `=` or whitespace must close.
pub open spec fn from_reading_name(doc: Seq<u8>, m: ParserModel) -> Step {
    let end = run_end(doc, Run::Name, m.position);
    if 0 <= end < doc.len() && doc[end] == EQUALS {
        Step::To(
            ParserModel {
                state: ParserState::AfterEquals,
                position: end + 1,
                name_end: Some(end),
                ..m
            },
        )
    } else if 0 <= end < doc.len() && is_blank(doc[end]) {
        Step::To(
            ParserModel {
                state: ParserState::BeforeEquals,
                position: end + 1,
                name_end: Some(end),
                ..m
            },
        )
    } else {
        Step::Fault(ErrorKind::InvalidName(m.line_number))
    }
}

/// From `BeforeEquals`: passes over whitespace to the `=`.
pub open spec fn from_before_equals(doc: Seq<u8>, m: ParserModel) -> Step {
    let at = run_end(doc, Run::Blank, m.position);
    if 0 <= at < doc.len() && doc[at] == EQUALS {
        Step::To(ParserModel { state: ParserState::AfterEquals, position: at + 1, ..m })
    } else {
        Step::Fault(ErrorKind::InvalidName(m.line_number))
    }
}

/// A value that begins with `0` at `at`: the integer zero, a float, or an
/// integer in another radix.
pub open spec fn zero_lead(doc: Seq<u8>, m: ParserModel, at: int) -> Step {
    match closing_at(doc, at + 1) {
        Closing::Closed { eof, eol, next } => Step::To(
            ParserModel {
                state: ParserState::FinishedInteger(eof, eol),
                position: next,
                value_start: Some(at),
                value_end: Some(at + 1),
                ..m
            },
        ),
        Closing::BadLineEnd => Step::Fault(ErrorKind::InvalidEndOfLine(m.line_number)),
        Closing::Open => {
            let b = doc[at + 1];
            if b == DOT {
                Step::To(
                    ParserModel {
                        state: ParserState::ReadingFloat(false),
                        position: at + 2,
                        value_start: Some(at),
                        ..m
                    },
                )
            } else if is_exponent_mark(b) && digit_at(doc, at + 2) {
                Step::To(
                    ParserModel {
                        state: ParserState::ReadingFloat(true),
                        position: at + 2,
                        value_start: Some(at),
                        ..m
                    },
                )
            } else if b == LOWER_X || b == LOWER_B || b == LOWER_O {
                Step::To(
                    ParserModel {
                        state: if b == LOWER_X {
                            ParserState::ReadingHexInteger
                        } else if b == LOWER_B {
                            ParserState::ReadingBinaryInteger
                        } else {
                            ParserState::ReadingOctalInteger
                        },
                        position: at + 2,
                        value_start: Some(at + 2),
                        ..m
                    },
                )
            } else {
                Step::Fault(ErrorKind::InvalidValue(m.line_number))
            }
        },
    }
}

/// A value that begins with a digit at `at`.
pub open spec fn digit_lead(doc: Seq<u8>, m: ParserModel, at: int) -> Step {
    if doc[at] == ZERO {
        zero_lead(doc, m, at)
    } else {
        Step::To(
            ParserModel {
                state: ParserState::ReadingInteger,
                position: at + 1,
                value_start: Some(at),
                ..m
            },
        )
    }
}

/// A value that begins with `-` at `at`: zero, which only whitespace, a
/// line ending, the end or `#` may follow, or a negative integer.
pub open spec fn minus_lead(doc: Seq<u8>, m: ParserModel, at: int) -> Step {
    if digit_at(doc, at + 1) {
        if doc[at + 1] == ZERO {
            match closing_at(doc, at + 2) {
                Closing::Closed { eof, eol, next } => Step::To(
                    ParserModel {
                        state: ParserState::FinishedInteger(eof, eol),
                        position: next,
                        value_start: Some(at + 1),
                        value_end: Some(at + 2),
                        ..m
                    },
                ),
                Closing::BadLineEnd => Step::Fault(ErrorKind::InvalidEndOfLine(m.line_number)),
                Closing::Open => if doc[at + 2] == HASH {
                    Step::To(
                        ParserModel {
                            state: ParserState::FinishedInteger(false, false),
                            position: at + 2,
                            value_start: Some(at + 1),
                            value_end: Some(at + 2),
                            ..m
                        },
                    )
                } else {
                    Step::Fault(ErrorKind::InvalidEndOfLine(m.line_number))
                },
            }
        } else {
            Step::To(
                ParserModel {
                    state: ParserState::ReadingNegativeInteger,
                    position: at + 2,
                    value_start: Some(at + 1),
                    ..m
                },
            )
        }
    } else {
        Step::Fault(ErrorKind::InvalidValue(m.line_number))
    }
}

/// From `AfterEquals`: passes over whitespace and tells the kind of the
/// value by its first byte.
pub open spec fn from_after_equals(doc: Seq<u8>, m: ParserModel) -> Step {
    let at = run_end(doc, Run::Blank, m.position);
    if !(0 <= at < doc.len()) {
        Step::Fault(ErrorKind::MissingValue(m.line_number))
    } else {
        let b = doc[at];
        if b == LINE_FEED || b == HASH {
            Step::Fault(ErrorKind::MissingValue(m.line_number))
        } else if b == CARRIAGE_RETURN {
            if at + 1 < doc.len() && doc[at + 1] == LINE_FEED {
                Step::Fault(ErrorKind::MissingValue(m.line_number))
            } else {
                Step::Fault(ErrorKind::InvalidEndOfLine(m.line_number))
            }
        } else if b == QUOTE {
            Step::To(
                ParserModel {
                    state: ParserState::ReadingString,
                    position: at + 1,
                    value_start: Some(at + 1),
                    ..m
                },
            )
        } else if b == LOWER_T {
            Step::To(
                ParserModel {
                    state: ParserState::ReadingTrue(at as usize),
                    position: at,
                    value_start: Some(at),
                    ..m
                },
            )
        } else if b == LOWER_F {
            Step::To(
                ParserModel {
                    state: ParserState::ReadingFalse(at as usize),
                    position: at,
                    value_start: Some(at),
                    ..m
                },
            )
        } else if b == PLUS {
            if digit_at(doc, at + 1) {
                digit_lead(doc, m, at + 1)
            } else {
                Step::Fault(ErrorKind::InvalidValue(m.line_number))
            }
        } else if b == MINUS {
            minus_lead(doc, m, at)
        } else if is_digit(b) {
            digit_lead(doc, m, at)
        } else {
            Step::Fault(ErrorKind::UnknownValueType(m.line_number))
        }
    }
}

/// From `ReadingString`: passes over the string to its closing quote.
pub open spec fn from_reading_string(doc: Seq<u8>, m: ParserModel) -> Step {
    let end = run_end(doc, Run::Text, m.position);
    if 0 <= end < doc.len() && doc[end] == QUOTE {
        Step::To(
            ParserModel {
                state: ParserState::FinishedString,
                position: end + 1,
                value_end: Some(end),
                ..m
            },
        )
    } else {
        Step::Fault(ErrorKind::InvalidValue(m.line_number))
    }
}

/// From `ReadingTrue` or `ReadingFalse`: the literal must stand at `at`.
pub open spec fn from_reading_boolean(doc: Seq<u8>, m: ParserModel, at: int, flag: bool) -> Step {
    let text = if flag {
        true_text()
    } else {
        false_text()
    };
    if 0 <= at && at + text.len() <= doc.len() && doc.subrange(at, at + text.len()) == text {
        Step::To(
            ParserModel {
                state: ParserState::FinishedBoolean(flag),
                position: at + text.len(),
                value_end: Some(at + text.len()),
                ..m
            },
        )
    } else {
        Step::Fault(ErrorKind::InvalidValue(m.line_number))
    }
}

/// The state in which a number of the given radix and sign is finished.
pub open spec fn finished_integer(radix: u8, negative: bool, eof: bool, eol: bool) -> ParserState {
    if negative {
        ParserState::FinishedNegativeInteger(eof, eol)
    } else if radix == 16 {
        ParserState::FinishedHexInteger(eof, eol)
    } else if radix == 8 {
        ParserState::FinishedOctalInteger(eof, eol)
    } else if radix == 2 {
        ParserState::FinishedBinaryInteger(eof, eol)
    } else {
        ParserState::FinishedInteger(eof, eol)
    }
}

/// From the states that read an integer which cannot become a float: passes
/// over its digits to what closes it.
pub open spec fn from_reading_digits(
    doc: Seq<u8>,
    m: ParserModel,
    radix: u8,
    negative: bool,
) -> Step {
    let end = run_end(doc, Run::Digits(radix), m.position);
    match closing_at(doc, end) {
        Closing::Closed { eof, eol, next } => Step::To(
            ParserModel {
                state: finished_integer(radix, negative, eof, eol),
                position: next,
                value_end: Some(end),
                ..m
            },
        ),
        Closing::BadLineEnd => Step::Fault(ErrorKind::InvalidEndOfLine(m.line_number)),
        Closing::Open => Step::Fault(ErrorKind::InvalidValue(m.line_number)),
    }
}

/// From `ReadingInteger`: passes over the digits to what closes the
/// integer, or to the point or the exponent that makes it a float.
pub open spec fn from_reading_integer(doc: Seq<u8>, m: ParserModel) -> Step {
    let end = run_end(doc, Run::Digits(10), m.position);
    match closing_at(doc, end) {
        Closing::Open => if doc[end] == DOT {
            Step::To(
                ParserModel { state: ParserState::ReadingFloat(false), position: end + 1, ..m },
            )
        } else if is_exponent_mark(doc[end]) && digit_at(doc, end + 1) {
            Step::To(
                ParserModel { state: ParserState::ReadingFloat(true), position: end + 1, ..m },
            )
        } else {
            Step::Fault(ErrorKind::InvalidValue(m.line_number))
        },
        _ => from_reading_digits(doc, m, 10, false),
    }
}

/// From `ReadingFloat`: passes over digits to what closes the float, or to
/// the exponent mark if none was seen before.
pub open spec fn from_reading_float(doc: Seq<u8>, m: ParserModel, in_exponent: bool) -> Step {
    let end = run_end(doc, Run::Digits(10), m.position);
    match closing_at(doc, end) {
        Closing::Closed { eof, eol, next } => Step::To(
            ParserModel {
                state: ParserState::FinishedFloat(eof, eol),
                position: next,
                value_end: Some(end),
                ..m
            },
        ),
        Closing::BadLineEnd => Step::Fault(ErrorKind::InvalidEndOfLine(m.line_number)),
        Closing::Open => if is_exponent_mark(doc[end]) && !in_exponent && digit_at(doc, end + 1) {
            Step::To(
                ParserModel { state: ParserState::ReadingFloat(true), position: end + 1, ..m },
            )
        } else {
            Step::Fault(ErrorKind::InvalidValue(m.line_number))
        },
    }
}

/// What the phase that starts in the state of `m` comes to. The states
/// that hold a finished entry, and `EndOfFile`, have no phase.
pub open spec fn advance(doc: Seq<u8>, m: ParserModel) -> Step {
    match m.state {
        ParserState::Normal => from_normal(doc, m),
        ParserState::AfterValue => from_after_value(doc, m),
        ParserState::ReadingName => from_reading_name(doc, m),
        ParserState::BeforeEquals => from_before_equals(doc, m),
        ParserState::AfterEquals => from_after_equals(doc, m),
        ParserState::ReadingString => from_reading_string(doc, m),
        ParserState::ReadingTrue(at) => from_reading_boolean(doc, m, at as int, true),
        ParserState::ReadingFalse(at) => from_reading_boolean(doc, m, at as int, false),
        ParserState::ReadingInteger => from_reading_integer(doc, m),
        ParserState::ReadingNegativeInteger => from_reading_digits(doc, m, 10, true),
        ParserState::ReadingHexInteger => from_reading_digits(doc, m, 16, false),
        ParserState::ReadingOctalInteger => from_reading_digits(doc, m, 8, false),
        ParserState::ReadingBinaryInteger => from_reading_digits(doc, m, 2, false),
        ParserState::ReadingFloat(in_exponent) => from_reading_float(doc, m, in_exponent),
        _ => Step::To(m),
    }
}

/// What one pull yields.
pub enum Pull {
    /// The next entry, and the scanner as it is left.
    Pair { pair: PairModel, parser: ParserModel },
    /// No entry is left, and the scanner as it is left.
    End { parser: ParserModel },
    /// The document is at fault, with the conversion failure where one is the cause.
    Fault { kind: ErrorKind, source: Option<ConversionError> },
}

/// The scanner after a finished entry was handed out: the pending offsets
/// are cleared, a line ending that closed the value is counted, and the
/// state is `EndOfFile`, `Normal` or `AfterValue` as the value was closed
/// by the end of the document, by a line ending or by neither.
pub open spec fn released(m: ParserModel) -> ParserModel {
    let (eof, eol) = match m.state.closing_flags() {
        Some(flags) => flags,
        None => (false, false),
    };
    ParserModel {
        state: if eof {
            ParserState::EndOfFile
        } else if eol {
            ParserState::Normal
        } else {
            ParserState::AfterValue
        },
        position: m.position,
        line_number: if eol {
            next_line(m.line_number)
        } else {
            m.line_number
        },
        name_start: None,
        name_end: None,
        value_start: None,
        value_end: None,
    }
}

/// The integer that the bytes of a finished literal stand for, or the fault.
pub open spec fn integer_pull(
    name: Seq<char>,
    digits: Seq<u8>,
    radix: int,
    negative: bool,
    m: ParserModel,
) -> Pull {
    match decoded(digits, radix, negative) {
        Decoded::Value(number) => Pull::Pair {
            pair: PairModel { name, value: ValueModel::Integer(number) },
            parser: released(m),
        },
        Decoded::Overflow => Pull::Fault {
            kind: ErrorKind::InvalidValue(m.line_number),
            source: Some(
                if negative {
                    ConversionError::NegativeOverflow
                } else {
                    ConversionError::PositiveOverflow
                },
            ),
        },
        Decoded::Malformed => Pull::Fault {
            kind: ErrorKind::InvalidValue(m.line_number),
            source: None,
        },
    }
}

/// The entry that a scanner in a finished state hands out: the name and
/// the value are cut from the document between the pending offsets, and
/// the value is decoded as the state says. A scanner at the end of the
/// document hands out nothing and stays as it is.
pub open spec fn finish(doc: Seq<u8>, m: ParserModel) -> Pull {
    let name = decode_utf8(doc.subrange(m.name_start->0, m.name_end->0));
    let text = doc.subrange(m.value_start->0, m.value_end->0);
    match m.state {
        ParserState::FinishedString => Pull::Pair {
            pair: PairModel { name, value: ValueModel::String(decode_utf8(text)) },
            parser: released(m),
        },
        ParserState::FinishedBoolean(flag) => Pull::Pair {
            pair: PairModel { name, value: ValueModel::Bool(flag) },
            parser: released(m),
        },
        ParserState::FinishedFloat(_, _) => if is_float_text(text) {
            Pull::Pair {
                pair: PairModel {
                    name,
                    value: ValueModel::Float(ascii_chars(without_underscores(text))),
                },
                parser: released(m),
            }
        } else {
            Pull::Fault { kind: ErrorKind::InvalidValue(m.line_number), source: None }
        },
        ParserState::FinishedInteger(_, _) => integer_pull(name, text, 10, false, m),
        ParserState::FinishedNegativeInteger(_, _) => integer_pull(name, text, 10, true, m),
        ParserState::FinishedHexInteger(_, _) => integer_pull(name, text, 16, false, m),
        ParserState::FinishedOctalInteger(_, _) => integer_pull(name, text, 8, false, m),
        ParserState::FinishedBinaryInteger(_, _) => integer_pull(name, text, 2, false, m),
        _ => Pull::End { parser: m },
    }
}

/// What a pull yields from the scanner `m` on the document `doc`: the
/// scanner goes from phase to phase until an entry is finished, the end of
/// the document is reached or a fault is found. Every phase leads a well
/// formed scanner to a state of lower rank, so that the walk never stops
/// short of one of the three.
pub open spec fn pull(doc: Seq<u8>, m: ParserModel) -> Pull
    decreases m.state.rank(),
{
    if m.state.rank() == 0 {
        finish(doc, m)
    } else {
        match advance(doc, m) {
            Step::Fault(kind) => Pull::Fault { kind, source: None },
            Step::To(next) => if next.state.rank() < m.state.rank() {
                pull(doc, next)
            } else {
                Pull::End { parser: m }
            },
        }
    }
}

} // verus!
