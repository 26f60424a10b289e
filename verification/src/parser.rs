//! The scanner: a state machine over the bytes of a document that hands
//! out one entry per pull.

use vstd::prelude::*;
use vstd::hash_map::StringHashMap;
use vstd::string::StringSliceAdditionalSpecFns;
use vstd::utf8::{decode_utf8, is_char_boundary, valid_utf8};
use crate::ascii::{
    ascii_chars, blank, digit, exponent_mark, false_text, float_byte_text, is_float_byte, is_radix,
    true_text, CARRIAGE_RETURN, DOT, EQUALS, HASH, LINE_FEED, LOWER_B, LOWER_F, LOWER_O, LOWER_T,
    LOWER_X, MINUS, PLUS, QUOTE, UNDERSCORE, ZERO,
};
use crate::error::{ConversionError, Error, ErrorKind};
use crate::grammar::{
    advance, digit_lead, finish, finished_integer, from_reading_digits, integer_pull, minus_lead,
    pull, released, zero_lead, Pull, Run, Step,
};
use crate::number::{decode, is_float_text, without_underscores, Decoded};
use crate::pair::{PairModel, TomlPair, TomlValue};
use crate::progress::lemma_pull_moves_on;
use crate::scan::{close_at, count_line, pass_gap, scan_run, Close, Opening};
use crate::state::{ParserModel, ParserState};
use crate::table::{entries, table_of};
use crate::text::{bytes_of, cut, lemma_boundary_after_ascii, lemma_boundary_at_leading_byte};

verus! {

/// A scanner. It holds its place in a document between two pulls, so that
/// each pull takes up where the last one stopped.
pub struct Parser {
    position: usize,
    state: ParserState,
    line_number: usize,
    name_start: Option<usize>,
    name_end: Option<usize>,
    value_start: Option<usize>,
    value_end: Option<usize>,
}

/// An offset of the machine as an offset of the model.
pub open spec fn offset(at: Option<usize>) -> Option<int> {
    match at {
        Some(at) => Some(at as int),
        None => None,
    }
}

impl View for Parser {
    type V = ParserModel;

    closed spec fn view(&self) -> ParserModel {
        ParserModel {
            position: self.position as int,
            line_number: self.line_number,
            state: self.state,
            name_start: offset(self.name_start),
            name_end: offset(self.name_end),
            value_start: offset(self.value_start),
            value_end: offset(self.value_end),
        }
    }
}

/// The scanner `m` with its pending offsets cleared.
pub open spec fn cleared(m: ParserModel) -> ParserModel {
    ParserModel { name_start: None, name_end: None, value_start: None, value_end: None, ..m }
}

/// The scanner `m` lies within the document: unless it rests, its cursor
/// is inside; its pending offsets are inside, and those at which the
/// document will be cut lie between two characters.
pub open spec fn fits(m: ParserModel, doc: Seq<u8>) -> bool {
    &&& valid_utf8(doc)
    &&& doc.len() <= usize::MAX
    &&& !m.state.is_resting() ==> m.position <= doc.len()
    &&& m.name_start matches Some(at) ==> is_char_boundary(doc, at)
    &&& m.name_end matches Some(at) ==> is_char_boundary(doc, at)
    &&& m.value_start matches Some(at) ==> at <= doc.len() && (m.state is ReadingString
        || m.state is FinishedString ==> is_char_boundary(doc, at))
    &&& m.value_end matches Some(at) ==> at <= doc.len() && (m.state is FinishedString
        ==> is_char_boundary(doc, at))
}

/// The phase has done to the scanner what it comes to: it has led it from
/// `before` to the scanner of `step`, which is well formed, within the
/// document and of lower rank; or it has reported the fault of `step`.
pub open spec fn stepped(
    doc: Seq<u8>,
    before: ParserModel,
    after: ParserModel,
    r: Result<(), Error>,
    step: Step,
) -> bool {
    match step {
        Step::To(next) => r is Ok && after == next && after.wf() && fits(after, doc)
            && after.state.rank() < before.state.rank(),
        Step::Fault(kind) => r matches Err(e) && e.kind() == kind && e.source() is None,
    }
}

/// The finished entry has been handed out as `pulled` says: the entry,
/// with the pending offsets of the scanner cleared, or the fault.
pub open spec fn built(
    before: ParserModel,
    after: ParserModel,
    r: Result<TomlPair<'_>, Error>,
    pulled: Pull,
) -> bool {
    match pulled {
        Pull::Pair { pair, parser } => r matches Ok(p) && p@ == pair && after == cleared(before),
        Pull::Fault { kind, source } => r matches Err(e) && e.kind() == kind && e.source()
            == source,
        Pull::End { parser } => false,
    }
}

impl Parser {
    /// A scanner at the start of a document: offset 0, line 1.
    pub fn new() -> (parser: Parser)
        ensures
            parser@ == ParserModel::start(),
    {
        Parser {
            position: 0,
            state: ParserState::Normal,
            line_number: 1,
            name_start: None,
            name_end: None,
            value_start: None,
            value_end: None,
        }
    }

    /// The offset of the first byte that has not been read.
    pub fn position(&self) -> (position: usize)
        ensures
            position == self@.position,
    {
        self.position
    }

    /// The number of the line on which the cursor stands, from 1.
    pub fn line_number(&self) -> (line: usize)
        ensures
            line == self@.line_number,
    {
        self.line_number
    }

    /// Tells whether the scanner is between two entries, so that it can be
    /// pulled from. It is not after a fault.
    pub fn can_resume(&self) -> (r: bool)
        ensures
            r == self@.resumable(),
    {
        let resting = match self.state {
            ParserState::Normal => true,
            ParserState::AfterValue => true,
            ParserState::EndOfFile => true,
            _ => false,
        };
        resting && self.name_start.is_none() && self.name_end.is_none()
            && self.value_start.is_none() && self.value_end.is_none()
    }

    /// Records where the name begins.
    fn set_name_start(&mut self, name_start: usize)
        requires
            old(self)@.name_start is None,
        ensures
            final(self)@ == (ParserModel { name_start: Some(name_start as int), ..old(self)@ }),
    {
        self.name_start = Some(name_start);
    }

    /// Records where the name ends.
    fn set_name_end(&mut self, name_end: usize)
        requires
            old(self)@.name_end is None,
        ensures
            final(self)@ == (ParserModel { name_end: Some(name_end as int), ..old(self)@ }),
    {
        self.name_end = Some(name_end);
    }

    /// Records where the value begins.
    fn set_value_start(&mut self, value_start: usize)
        requires
            old(self)@.value_start is None,
        ensures
            final(self)@ == (ParserModel { value_start: Some(value_start as int), ..old(self)@ }),
    {
        self.value_start = Some(value_start);
    }

    /// Records where the value ends.
    fn set_value_end(&mut self, value_end: usize)
        requires
            old(self)@.value_end is None,
        ensures
            final(self)@ == (ParserModel { value_end: Some(value_end as int), ..old(self)@ }),
    {
        self.value_end = Some(value_end);
    }

    /// Takes the offset at which the name begins.
    fn name_start(&mut self) -> (at: usize)
        requires
            old(self)@.name_start is Some,
        ensures
            old(self)@.name_start == Some(at as int),
            final(self)@ == (ParserModel { name_start: None, ..old(self)@ }),
    {
        let at = self.name_start.unwrap();
        self.name_start = None;
        at
    }

    /// Takes the offset at which the name ends.
    fn name_end(&mut self) -> (at: usize)
        requires
            old(self)@.name_end is Some,
        ensures
            old(self)@.name_end == Some(at as int),
            final(self)@ == (ParserModel { name_end: None, ..old(self)@ }),
    {
        let at = self.name_end.unwrap();
        self.name_end = None;
        at
    }

    /// Takes the offset at which the value ends.
    fn value_end(&mut self) -> (at: usize)
        requires
            old(self)@.value_end is Some,
        ensures
            old(self)@.value_end == Some(at as int),
            final(self)@ == (ParserModel { value_end: None, ..old(self)@ }),
    {
        let at = self.value_end.unwrap();
        self.value_end = None;
        at
    }

    /// Takes the offset at which the value begins.
    fn value_start(&mut self) -> (at: usize)
        requires
            old(self)@.value_start is Some,
        ensures
            old(self)@.value_start == Some(at as int),
            final(self)@ == (ParserModel { value_start: None, ..old(self)@ }),
    {
        let at = self.value_start.unwrap();
        self.value_start = None;
        at
    }

    /// Passes over the rest of the line behind a value.
    fn process_after_value_state(&mut self, bytes: &[u8]) -> (r: Result<(), Error>)
        requires
            old(self)@.state is AfterValue,
            old(self)@.wf(),
            fits(old(self)@, bytes@),
        ensures
            stepped(bytes@, old(self)@, final(self)@, r, advance(bytes@, old(self)@)),
    {
        if self.position >= bytes.len() {
            self.state = ParserState::EndOfFile;
            return Ok(());
        }
        let at = scan_run(bytes, Run::Blank, self.position);
        match close_at(bytes, at) {
            Close::Closed { eof, eol, next } => {
                if eof {
                    self.state = ParserState::EndOfFile;
                    self.position = at;
                    Ok(())
                } else if eol {
                    self.state = ParserState::Normal;
                    self.position = next;
                    self.line_number = count_line(self.line_number);
                    Ok(())
                } else {
                    Err(Error::new(ErrorKind::InvalidValue(self.line_number), None))
                }
            },
            Close::BadLineEnd => Err(
                Error::new(ErrorKind::InvalidEndOfLine(self.line_number), None),
            ),
            Close::Open => Err(Error::new(ErrorKind::InvalidValue(self.line_number), None)),
        }
    }

    /// Passes over whitespace and line endings to the first byte of a name.
    fn process_normal_state(&mut self, bytes: &[u8]) -> (r: Result<(), Error>)
        requires
            old(self)@.state is Normal,
            old(self)@.wf(),
            fits(old(self)@, bytes@),
        ensures
            stepped(bytes@, old(self)@, final(self)@, r, advance(bytes@, old(self)@)),
    {
        match pass_gap(bytes, self.position, self.line_number) {
            Opening::End { at, line } => {
                self.state = ParserState::EndOfFile;
                self.position = at;
                self.line_number = line;
                Ok(())
            },
            Opening::Name { at, line } => {
                proof {
                    lemma_boundary_at_leading_byte(bytes@, at as int);
                }
                self.state = ParserState::ReadingName;
                self.set_name_start(at);
                self.position = at + 1;
                self.line_number = line;
                Ok(())
            },
            Opening::Fault(kind) => Err(Error::new(kind, None)),
        }
    }

    /// Passes over a name to the `=` or the whitespace that closes it.
    fn process_reading_name_state(&mut self, bytes: &[u8]) -> (r: Result<(), Error>)
        requires
            old(self)@.state is ReadingName,
            old(self)@.wf(),
            fits(old(self)@, bytes@),
        ensures
            stepped(bytes@, old(self)@, final(self)@, r, advance(bytes@, old(self)@)),
    {
        let end = scan_run(bytes, Run::Name, self.position);
        if end < bytes.len() && (bytes[end] == EQUALS || blank(bytes[end])) {
            proof {
                lemma_boundary_at_leading_byte(bytes@, end as int);
            }
            if bytes[end] == EQUALS {
                self.state = ParserState::AfterEquals;
            } else {
                self.state = ParserState::BeforeEquals;
            }
            self.set_name_end(end);
            self.position = end + 1;
            Ok(())
        } else {
            Err(Error::new(ErrorKind::InvalidName(self.line_number), None))
        }
    }

    /// Passes over the whitespace between a name and its `=`.
    fn process_before_equals_state(&mut self, bytes: &[u8]) -> (r: Result<(), Error>)
        requires
            old(self)@.state is BeforeEquals,
            old(self)@.wf(),
            fits(old(self)@, bytes@),
        ensures
            stepped(bytes@, old(self)@, final(self)@, r, advance(bytes@, old(self)@)),
    {
        let at = scan_run(bytes, Run::Blank, self.position);
        if at < bytes.len() && bytes[at] == EQUALS {
            self.state = ParserState::AfterEquals;
            self.position = at + 1;
            Ok(())
        } else {
            Err(Error::new(ErrorKind::InvalidName(self.line_number), None))
        }
    }

    /// Takes up a value that begins with `0` at `at`.
    fn zero_lead(&mut self, bytes: &[u8], at: usize) -> (r: Result<(), Error>)
        requires
            old(self)@.state is AfterEquals,
            old(self)@.wf(),
            fits(old(self)@, bytes@),
            old(self)@.position <= at < bytes@.len(),
        ensures
            stepped(bytes@, old(self)@, final(self)@, r, zero_lead(bytes@, old(self)@, at as int)),
    {
        match close_at(bytes, at + 1) {
            Close::Closed { eof, eol, next } => {
                self.state = ParserState::FinishedInteger(eof, eol);
                self.set_value_start(at);
                self.set_value_end(at + 1);
                self.position = next;
                Ok(())
            },
            Close::BadLineEnd => Err(
                Error::new(ErrorKind::InvalidEndOfLine(self.line_number), None),
            ),
            Close::Open => {
                let b = bytes[at + 1];
                if b == DOT {
                    self.state = ParserState::ReadingFloat(false);
                    self.set_value_start(at);
                    self.position = at + 2;
                    Ok(())
                } else if exponent_mark(b) && at + 2 < bytes.len() && digit(bytes[at + 2]) {
                    self.state = ParserState::ReadingFloat(true);
                    self.set_value_start(at);
                    self.position = at + 2;
                    Ok(())
                } else if b == LOWER_X || b == LOWER_B || b == LOWER_O {
                    self.state = if b == LOWER_X {
                        ParserState::ReadingHexInteger
                    } else if b == LOWER_B {
                        ParserState::ReadingBinaryInteger
                    } else {
                        ParserState::ReadingOctalInteger
                    };
                    self.set_value_start(at + 2);
                    self.position = at + 2;
                    Ok(())
                } else {
                    Err(Error::new(ErrorKind::InvalidValue(self.line_number), None))
                }
            },
        }
    }

    /// Takes up a value that begins with a digit at `at`.
    fn digit_lead(&mut self, bytes: &[u8], at: usize) -> (r: Result<(), Error>)
        requires
            old(self)@.state is AfterEquals,
            old(self)@.wf(),
            fits(old(self)@, bytes@),
            old(self)@.position <= at < bytes@.len(),
        ensures
            stepped(bytes@, old(self)@, final(self)@, r, digit_lead(bytes@, old(self)@, at as int)),
    {
        if bytes[at] == ZERO {
            self.zero_lead(bytes, at)
        } else {
            self.state = ParserState::ReadingInteger;
            self.set_value_start(at);
            self.position = at + 1;
            Ok(())
        }
    }

    /// Takes up a value that begins with `-` at `at`.
    fn minus_lead(&mut self, bytes: &[u8], at: usize) -> (r: Result<(), Error>)
        requires
            old(self)@.state is AfterEquals,
            old(self)@.wf(),
            fits(old(self)@, bytes@),
            old(self)@.position <= at < bytes@.len(),
        ensures
            stepped(bytes@, old(self)@, final(self)@, r, minus_lead(bytes@, old(self)@, at as int)),
    {
        if !(at + 1 < bytes.len() && digit(bytes[at + 1])) {
            return Err(Error::new(ErrorKind::InvalidValue(self.line_number), None));
        }
        if bytes[at + 1] != ZERO {
            self.state = ParserState::ReadingNegativeInteger;
            self.set_value_start(at + 1);
            self.position = at + 2;
            return Ok(());
        }
        match close_at(bytes, at + 2) {
            Close::Closed { eof, eol, next } => {
                self.state = ParserState::FinishedInteger(eof, eol);
                self.set_value_start(at + 1);
                self.set_value_end(at + 2);
                self.position = next;
                Ok(())
            },
            Close::BadLineEnd => Err(
                Error::new(ErrorKind::InvalidEndOfLine(self.line_number), None),
            ),
            Close::Open => {
                if bytes[at + 2] == HASH {
                    self.state = ParserState::FinishedInteger(false, false);
                    self.set_value_start(at + 1);
                    self.set_value_end(at + 2);
                    self.position = at + 2;
                    Ok(())
                } else {
                    Err(Error::new(ErrorKind::InvalidEndOfLine(self.line_number), None))
                }
            },
        }
    }

    /// Passes over whitespace to the first byte of the value, which tells
    /// its kind.
    fn process_after_equals_state(&mut self, bytes: &[u8]) -> (r: Result<(), Error>)
        requires
            old(self)@.state is AfterEquals,
            old(self)@.wf(),
            fits(old(self)@, bytes@),
        ensures
            stepped(bytes@, old(self)@, final(self)@, r, advance(bytes@, old(self)@)),
    {
        let at = scan_run(bytes, Run::Blank, self.position);
        if at >= bytes.len() {
            return Err(Error::new(ErrorKind::MissingValue(self.line_number), None));
        }
        let b = bytes[at];
        if b == LINE_FEED || b == HASH {
            Err(Error::new(ErrorKind::MissingValue(self.line_number), None))
        } else if b == CARRIAGE_RETURN {
            if at + 1 < bytes.len() && bytes[at + 1] == LINE_FEED {
                Err(Error::new(ErrorKind::MissingValue(self.line_number), None))
            } else {
                Err(Error::new(ErrorKind::InvalidEndOfLine(self.line_number), None))
            }
        } else if b == QUOTE {
            proof {
                lemma_boundary_after_ascii(bytes@, at as int);
            }
            self.state = ParserState::ReadingString;
            self.set_value_start(at + 1);
            self.position = at + 1;
            Ok(())
        } else if b == LOWER_T {
            self.state = ParserState::ReadingTrue(at);
            self.set_value_start(at);
            self.position = at;
            Ok(())
        } else if b == LOWER_F {
            self.state = ParserState::ReadingFalse(at);
            self.set_value_start(at);
            self.position = at;
            Ok(())
        } else if b == PLUS {
            if at + 1 < bytes.len() && digit(bytes[at + 1]) {
                self.digit_lead(bytes, at + 1)
            } else {
                Err(Error::new(ErrorKind::InvalidValue(self.line_number), None))
            }
        } else if b == MINUS {
            self.minus_lead(bytes, at)
        } else if digit(b) {
            self.digit_lead(bytes, at)
        } else {
            Err(Error::new(ErrorKind::UnknownValueType(self.line_number), None))
        }
    }

    /// Tells whether `text` stands in the document at `at`.
    fn stands_at(bytes: &[u8], at: usize, text: &[u8]) -> (r: bool)
        requires
            at <= bytes@.len(),
        ensures
            r == (at + text@.len() <= bytes@.len() && bytes@.subrange(
                at as int,
                at + text@.len(),
            ) == text@),
    {
        if bytes.len() - at < text.len() {
            return false;
        }
        let mut i: usize = 0;
        while i < text.len()
            invariant
                i <= text@.len(),
                at + text@.len() <= bytes@.len() <= usize::MAX,
                bytes@.subrange(at as int, at + i) == text@.subrange(0, i as int),
            decreases text@.len() - i,
        {
            if bytes[at + i] != text[i] {
                proof {
                    let whole = bytes@.subrange(at as int, at + text@.len());
                    assert(whole[i as int] != text@[i as int]);
                }
                return false;
            }
            proof {
                assert(bytes@.subrange(at as int, at + i + 1) =~= bytes@.subrange(
                    at as int,
                    at + i,
                ).push(bytes@[at + i]));
                assert(text@.subrange(0, i + 1) =~= text@.subrange(0, i as int).push(
                    text@[i as int],
                ));
            }
            i += 1;
        }
        proof {
            assert(text@.subrange(0, i as int) =~= text@);
        }
        true
    }

    /// Takes the literal `true` or `false`, which must stand at `start_index`.
    fn read_boolean(&mut self, start_index: usize, bytes: &[u8], flag: bool) -> (r: Result<
        (),
        Error,
    >)
        requires
            old(self)@.state == (if flag {
                ParserState::ReadingTrue(start_index)
            } else {
                ParserState::ReadingFalse(start_index)
            }),
            old(self)@.wf(),
            fits(old(self)@, bytes@),
        ensures
            stepped(bytes@, old(self)@, final(self)@, r, advance(bytes@, old(self)@)),
    {
        let word_true: [u8; 4] = [0x74, 0x72, 0x75, 0x65];
        let word_false: [u8; 5] = [0x66, 0x61, 0x6C, 0x73, 0x65];
        let found = if flag {
            assert(word_true@ =~= true_text());
            Self::stands_at(bytes, start_index, word_true.as_slice())
        } else {
            assert(word_false@ =~= false_text());
            Self::stands_at(bytes, start_index, word_false.as_slice())
        };
        if !found {
            return Err(Error::new(ErrorKind::InvalidValue(self.line_number), None));
        }
        let end = if flag {
            start_index + 4
        } else {
            start_index + 5
        };
        self.set_value_end(end);
        self.position = end;
        self.state = ParserState::FinishedBoolean(flag);
        Ok(())
    }

    /// Takes the literal `true`.
    fn process_reading_true_state(&mut self, start_index: usize, bytes: &[u8]) -> (r: Result<
        (),
        Error,
    >)
        requires
            old(self)@.state == ParserState::ReadingTrue(start_index),
            old(self)@.wf(),
            fits(old(self)@, bytes@),
        ensures
            stepped(bytes@, old(self)@, final(self)@, r, advance(bytes@, old(self)@)),
    {
        self.read_boolean(start_index, bytes, true)
    }

    /// Takes the literal `false`.
    fn process_reading_false_state(&mut self, start_index: usize, bytes: &[u8]) -> (r: Result<
        (),
        Error,
    >)
        requires
            old(self)@.state == ParserState::ReadingFalse(start_index),
            old(self)@.wf(),
            fits(old(self)@, bytes@),
        ensures
            stepped(bytes@, old(self)@, final(self)@, r, advance(bytes@, old(self)@)),
    {
        self.read_boolean(start_index, bytes, false)
    }

    /// Passes over a string to its closing quote.
    fn process_read_string_state(&mut self, bytes: &[u8]) -> (r: Result<(), Error>)
        requires
            old(self)@.state is ReadingString,
            old(self)@.wf(),
            fits(old(self)@, bytes@),
        ensures
            stepped(bytes@, old(self)@, final(self)@, r, advance(bytes@, old(self)@)),
    {
        let end = scan_run(bytes, Run::Text, self.position);
        if end < bytes.len() && bytes[end] == QUOTE {
            proof {
                lemma_boundary_at_leading_byte(bytes@, end as int);
            }
            self.set_value_end(end);
            self.position = end + 1;
            self.state = ParserState::FinishedString;
            Ok(())
        } else {
            Err(Error::new(ErrorKind::InvalidValue(self.line_number), None))
        }
    }

    /// The state in which a number of the given radix and sign is finished.
    fn finished(radix: u8, negative: bool, eof: bool, eol: bool) -> (state: ParserState)
        ensures
            state == finished_integer(radix, negative, eof, eol),
    {
        if negative {
            ParserState::FinishedNegativeInteger(eof, eol)
        } else if radix == 16 {
            ParserState::FinishedHexInteger(eof, eol)
        } else if radix == 8 {
            ParserState::FinishedOctalInteger(eof, eol)
        } else if radix == 2 {
            ParserState::FinishedBinaryInteger(eof, eol)
        } else {
            ParserState::FinishedInteger(eof, eol)
        }
    }

    /// Passes over the digits of an integer that cannot become a float, to
    /// what closes it.
    fn read_digits(&mut self, bytes: &[u8], radix: u8, negative: bool) -> (r: Result<(), Error>)
        requires
            is_radix(radix as int),
            old(self)@.state.rank() == 3,
            old(self)@.wf(),
            fits(old(self)@, bytes@),
        ensures
            stepped(
                bytes@,
                old(self)@,
                final(self)@,
                r,
                from_reading_digits(bytes@, old(self)@, radix, negative),
            ),
    {
        let end = scan_run(bytes, Run::Digits(radix), self.position);
        match close_at(bytes, end) {
            Close::Closed { eof, eol, next } => {
                self.state = Self::finished(radix, negative, eof, eol);
                self.set_value_end(end);
                self.position = next;
                Ok(())
            },
            Close::BadLineEnd => Err(
                Error::new(ErrorKind::InvalidEndOfLine(self.line_number), None),
            ),
            Close::Open => Err(Error::new(ErrorKind::InvalidValue(self.line_number), None)),
        }
    }

    /// Passes over the digits of a negative integer.
    fn process_negative_integer(&mut self, bytes: &[u8]) -> (r: Result<(), Error>)
        requires
            old(self)@.state is ReadingNegativeInteger,
            old(self)@.wf(),
            fits(old(self)@, bytes@),
        ensures
            stepped(bytes@, old(self)@, final(self)@, r, advance(bytes@, old(self)@)),
    {
        self.read_digits(bytes, 10, true)
    }

    /// Passes over the digits of a decimal integer, to what closes it or
    /// to the point or the exponent that makes it a float.
    fn process_read_integer_state(&mut self, bytes: &[u8]) -> (r: Result<(), Error>)
        requires
            old(self)@.state is ReadingInteger,
            old(self)@.wf(),
            fits(old(self)@, bytes@),
        ensures
            stepped(bytes@, old(self)@, final(self)@, r, advance(bytes@, old(self)@)),
    {
        let end = scan_run(bytes, Run::Digits(10), self.position);
        if end < bytes.len() && bytes[end] == DOT {
            self.state = ParserState::ReadingFloat(false);
            self.position = end + 1;
            Ok(())
        } else if end < bytes.len() && exponent_mark(bytes[end]) {
            if end + 1 < bytes.len() && digit(bytes[end + 1]) {
                self.state = ParserState::ReadingFloat(true);
                self.position = end + 1;
                Ok(())
            } else {
                Err(Error::new(ErrorKind::InvalidValue(self.line_number), None))
            }
        } else {
            self.read_digits(bytes, 10, false)
        }
    }

    /// Passes over the digits of a float, to what closes it or to its
    /// exponent.
    fn process_read_float_state(&mut self, bytes: &[u8], after_exponent: bool) -> (r: Result<
        (),
        Error,
    >)
        requires
            old(self)@.state == ParserState::ReadingFloat(after_exponent),
            old(self)@.wf(),
            fits(old(self)@, bytes@),
        ensures
            stepped(bytes@, old(self)@, final(self)@, r, advance(bytes@, old(self)@)),
    {
        let end = scan_run(bytes, Run::Digits(10), self.position);
        match close_at(bytes, end) {
            Close::Closed { eof, eol, next } => {
                self.state = ParserState::FinishedFloat(eof, eol);
                self.set_value_end(end);
                self.position = next;
                Ok(())
            },
            Close::BadLineEnd => Err(
                Error::new(ErrorKind::InvalidEndOfLine(self.line_number), None),
            ),
            Close::Open => {
                if exponent_mark(bytes[end]) && !after_exponent && end + 1 < bytes.len() && digit(
                    bytes[end + 1],
                ) {
                    self.state = ParserState::ReadingFloat(true);
                    self.position = end + 1;
                    Ok(())
                } else {
                    Err(Error::new(ErrorKind::InvalidValue(self.line_number), None))
                }
            },
        }
    }

    /// Passes over the digits of an octal integer.
    fn process_reading_octal(&mut self, bytes: &[u8]) -> (r: Result<(), Error>)
        requires
            old(self)@.state is ReadingOctalInteger,
            old(self)@.wf(),
            fits(old(self)@, bytes@),
        ensures
            stepped(bytes@, old(self)@, final(self)@, r, advance(bytes@, old(self)@)),
    {
        self.read_digits(bytes, 8, false)
    }

    /// Passes over the digits of a binary integer.
    fn process_reading_binary(&mut self, bytes: &[u8]) -> (r: Result<(), Error>)
        requires
            old(self)@.state is ReadingBinaryInteger,
            old(self)@.wf(),
            fits(old(self)@, bytes@),
        ensures
            stepped(bytes@, old(self)@, final(self)@, r, advance(bytes@, old(self)@)),
    {
        self.read_digits(bytes, 2, false)
    }

    /// Passes over the digits of a hex integer.
    fn process_reading_hex(&mut self, bytes: &[u8]) -> (r: Result<(), Error>)
        requires
            old(self)@.state is ReadingHexInteger,
            old(self)@.wf(),
            fits(old(self)@, bytes@),
        ensures
            stepped(bytes@, old(self)@, final(self)@, r, advance(bytes@, old(self)@)),
    {
        self.read_digits(bytes, 16, false)
    }

    /// Takes the four pending offsets, which are cleared.
    fn take_spans(&mut self) -> (spans: (usize, usize, usize, usize))
        requires
            old(self)@.state.is_finished(),
            old(self)@.wf(),
        ensures
            old(self)@.name_start == Some(spans.0 as int),
            old(self)@.name_end == Some(spans.1 as int),
            old(self)@.value_start == Some(spans.2 as int),
            old(self)@.value_end == Some(spans.3 as int),
            final(self)@ == cleared(old(self)@),
    {
        let value_start = self.value_start();
        let value_end = self.value_end();
        let name_start = self.name_start();
        let name_end = self.name_end();
        (name_start, name_end, value_start, value_end)
    }

    /// Hands out an entry whose value is a boolean.
    fn build_bool_pair<'a>(&mut self, bool_value: bool, data_to_parse: &'a str) -> (r: Result<
        TomlPair<'a>,
        Error,
    >)
        requires
            old(self)@.state == ParserState::FinishedBoolean(bool_value),
            old(self)@.wf(),
            fits(old(self)@, data_to_parse.spec_bytes()),
        ensures
            built(old(self)@, final(self)@, r, finish(data_to_parse.spec_bytes(), old(self)@)),
    {
        let (name_start, name_end, _, _) = self.take_spans();
        let name = cut(data_to_parse, name_start, name_end);
        Ok(TomlPair::new(name, TomlValue::Bool(bool_value)))
    }

    /// Hands out an entry whose value is an integer of the given radix and sign.
    fn build_number_pair<'a>(&mut self, data_to_parse: &'a str, radix: u8, negative: bool) -> (r:
        Result<TomlPair<'a>, Error>)
        requires
            is_radix(radix as int),
            old(self)@.state.closing_flags() is Some,
            old(self)@.wf(),
            fits(old(self)@, data_to_parse.spec_bytes()),
        ensures
            built(
                old(self)@,
                final(self)@,
                r,
                integer_pull(
                decode_utf8(
                    data_to_parse.spec_bytes().subrange(
                        old(self)@.name_start->0,
                        old(self)@.name_end->0,
                    ),
                ),
                data_to_parse.spec_bytes().subrange(
                    old(self)@.value_start->0,
                    old(self)@.value_end->0,
                ),
                radix as int,
                negative,
                old(self)@,
            ),
            ),
    {
        let (name_start, name_end, value_start, value_end) = self.take_spans();
        let name = cut(data_to_parse, name_start, name_end);
        match decode(data_to_parse.as_bytes(), value_start, value_end, radix, negative) {
            Decoded::Value(number) => Ok(TomlPair::new(name, TomlValue::Integer(number))),
            Decoded::Overflow => Err(
                Error::new(
                    ErrorKind::InvalidValue(self.line_number),
                    Some(
                        if negative {
                            ConversionError::NegativeOverflow
                        } else {
                            ConversionError::PositiveOverflow
                        },
                    ),
                ),
            ),
            Decoded::Malformed => Err(
                Error::new(ErrorKind::InvalidValue(self.line_number), None),
            ),
        }
    }

    /// Hands out an entry whose value is a decimal integer.
    fn build_integer_pair<'a>(&mut self, data_to_parse: &'a str) -> (r: Result<TomlPair<'a>, Error>)
        requires
            old(self)@.state is FinishedInteger,
            old(self)@.wf(),
            fits(old(self)@, data_to_parse.spec_bytes()),
        ensures
            built(old(self)@, final(self)@, r, finish(data_to_parse.spec_bytes(), old(self)@)),
    {
        self.build_number_pair(data_to_parse, 10, false)
    }

    /// Hands out an entry whose value is a negative integer.
    fn build_negative_integer_pair<'a>(&mut self, data_to_parse: &'a str) -> (r: Result<
        TomlPair<'a>,
        Error,
    >)
        requires
            old(self)@.state is FinishedNegativeInteger,
            old(self)@.wf(),
            fits(old(self)@, data_to_parse.spec_bytes()),
        ensures
            built(old(self)@, final(self)@, r, finish(data_to_parse.spec_bytes(), old(self)@)),
    {
        self.build_number_pair(data_to_parse, 10, true)
    }

    /// Hands out an entry whose value is a binary integer.
    fn build_binary_integer_pair<'a>(&mut self, data_to_parse: &'a str) -> (r: Result<
        TomlPair<'a>,
        Error,
    >)
        requires
            old(self)@.state is FinishedBinaryInteger,
            old(self)@.wf(),
            fits(old(self)@, data_to_parse.spec_bytes()),
        ensures
            built(old(self)@, final(self)@, r, finish(data_to_parse.spec_bytes(), old(self)@)),
    {
        self.build_number_pair(data_to_parse, 2, false)
    }

    /// Hands out an entry whose value is a hex integer.
    fn build_hex_integer_pair<'a>(&mut self, data_to_parse: &'a str) -> (r: Result<
        TomlPair<'a>,
        Error,
    >)
        requires
            old(self)@.state is FinishedHexInteger,
            old(self)@.wf(),
            fits(old(self)@, data_to_parse.spec_bytes()),
        ensures
            built(old(self)@, final(self)@, r, finish(data_to_parse.spec_bytes(), old(self)@)),
    {
        self.build_number_pair(data_to_parse, 16, false)
    }

    /// Hands out an entry whose value is an octal integer.
    fn build_octal_integer_pair<'a>(&mut self, data_to_parse: &'a str) -> (r: Result<
        TomlPair<'a>,
        Error,
    >)
        requires
            old(self)@.state is FinishedOctalInteger,
            old(self)@.wf(),
            fits(old(self)@, data_to_parse.spec_bytes()),
        ensures
            built(old(self)@, final(self)@, r, finish(data_to_parse.spec_bytes(), old(self)@)),
    {
        self.build_number_pair(data_to_parse, 8, false)
    }

    /// Hands out an entry whose value is a float: its literal without
    /// the underscores.
    fn build_float_pair<'a>(&mut self, data_to_parse: &'a str) -> (r: Result<TomlPair<'a>, Error>)
        requires
            old(self)@.state is FinishedFloat,
            old(self)@.wf(),
            fits(old(self)@, data_to_parse.spec_bytes()),
        ensures
            built(old(self)@, final(self)@, r, finish(data_to_parse.spec_bytes(), old(self)@)),
    {
        let (name_start, name_end, value_start, value_end) = self.take_spans();
        let name = cut(data_to_parse, name_start, name_end);
        let bytes = data_to_parse.as_bytes();
        let ghost whole = bytes@.subrange(value_start as int, value_end as int);
        let mut literal = String::new();
        let mut at = value_start;
        while at < value_end
            invariant
                value_start <= at <= value_end <= bytes@.len(),
                bytes@ == data_to_parse.spec_bytes(),
                old(self)@.state is FinishedFloat,
                old(self)@.value_start == Some(value_start as int),
                old(self)@.value_end == Some(value_end as int),
                self@ == cleared(old(self)@),
                whole == bytes@.subrange(value_start as int, value_end as int),
                is_float_text(bytes@.subrange(value_start as int, at as int)),
                literal@ == ascii_chars(
                    without_underscores(bytes@.subrange(value_start as int, at as int)),
                ),
            decreases value_end - at,
        {
            let ghost before = bytes@.subrange(value_start as int, at as int);
            let ghost now = bytes@.subrange(value_start as int, at + 1);
            proof {
                assert(now.drop_last() =~= before);
                assert(now.last() == bytes@[at as int]);
            }
            let b = bytes[at];
            if b != UNDERSCORE {
                match float_byte_text(b) {
                    Some(text) => {
                        literal.append(text);
                        proof {
                            assert(literal@ =~= ascii_chars(without_underscores(now)));
                        }
                    },
                    None => {
                        proof {
                            assert(whole[at - value_start] == b);
                            assert(!is_float_byte(whole[at - value_start]));
                            assert(!is_float_text(whole));
                        }
                        return Err(Error::new(ErrorKind::InvalidValue(self.line_number), None));
                    },
                }
            }
            proof {
                assert forall|i: int| 0 <= i < now.len() implies is_float_byte(
                    #[trigger] now[i],
                ) by {
                    if i < before.len() {
                        assert(now[i] == before[i]);
                    }
                }
            }
            at += 1;
        }
        Ok(TomlPair::new(name, TomlValue::Float(literal)))
    }

    /// Hands out an entry whose value is a string.
    fn build_string_pair<'a>(&mut self, data_to_parse: &'a str) -> (r: Result<TomlPair<'a>, Error>)
        requires
            old(self)@.state is FinishedString,
            old(self)@.wf(),
            fits(old(self)@, data_to_parse.spec_bytes()),
        ensures
            built(old(self)@, final(self)@, r, finish(data_to_parse.spec_bytes(), old(self)@)),
    {
        let (name_start, name_end, value_start, value_end) = self.take_spans();
        let value = cut(data_to_parse, value_start, value_end);
        let name = cut(data_to_parse, name_start, name_end);
        Ok(TomlPair::new(name, TomlValue::String(value)))
    }

    /// Lets go of a finished entry: counts the line ending that closed it, if
    /// one did, and moves to the state in which the next pull takes up.
    fn release(&mut self)
        requires
            old(self)@.state.is_finished(),
        ensures
            final(self)@ == released(
                ParserModel {
                    name_start: None,
                    name_end: None,
                    value_start: None,
                    value_end: None,
                    ..old(self)@
                },
            ),
            released(old(self)@) == released(cleared(old(self)@)),
    {
        let (eof, eol) = match self.state {
            ParserState::FinishedNegativeInteger(eof, eol) => (eof, eol),
            ParserState::FinishedFloat(eof, eol) => (eof, eol),
            ParserState::FinishedInteger(eof, eol) => (eof, eol),
            ParserState::FinishedBinaryInteger(eof, eol) => (eof, eol),
            ParserState::FinishedHexInteger(eof, eol) => (eof, eol),
            ParserState::FinishedOctalInteger(eof, eol) => (eof, eol),
            _ => (false, false),
        };
        if eol {
            self.line_number = count_line(self.line_number);
        }
        self.state = if eof {
            ParserState::EndOfFile
        } else if eol {
            ParserState::Normal
        } else {
            ParserState::AfterValue
        };
        self.name_start = None;
        self.name_end = None;
        self.value_start = None;
        self.value_end = None;
    }

    /// Pulls the next entry out of the document: `Ok(None)` when only
    /// whitespace and line endings are left, the fault when the document
    /// is at fault. The scanner takes up where the last pull on the same
    /// document stopped. After a fault it is of no further use.
    pub fn read_pair<'a>(&mut self, data_to_parse: &'a str) -> (r: Result<
        Option<TomlPair<'a>>,
        Error,
    >)
        requires
            old(self)@.resumable(),
        ensures
            match pull(data_to_parse.spec_bytes(), old(self)@) {
                Pull::Pair { pair, parser } => r matches Ok(Some(p)) && p@ == pair
                    && final(self)@ == parser,
                Pull::End { parser } => r matches Ok(None) && final(self)@ == parser,
                Pull::Fault { kind, source } => r matches Err(e) && e.kind() == kind
                    && e.source() == source,
            },
            r is Ok ==> final(self)@.resumable(),
            r matches Ok(Some(_)) ==> old(self)@.position < final(self)@.position
                <= data_to_parse.spec_bytes().len(),
            r matches Ok(None) ==> final(self)@.state is EndOfFile,
    {
        let bytes = bytes_of(data_to_parse);
        loop
            invariant
                old(self)@.resumable(),
                bytes@ == data_to_parse.spec_bytes(),
                self@.wf(),
                fits(self@, bytes@),
                pull(bytes@, self@) == pull(bytes@, old(self)@),
            decreases self@.state.rank(),
        {
            let step = match self.state {
                ParserState::Normal => self.process_normal_state(bytes),
                ParserState::ReadingName => self.process_reading_name_state(bytes),
                ParserState::BeforeEquals => self.process_before_equals_state(bytes),
                ParserState::AfterEquals => self.process_after_equals_state(bytes),
                ParserState::ReadingInteger => self.process_read_integer_state(bytes),
                ParserState::ReadingFloat(after_exponent) => self.process_read_float_state(
                    bytes,
                    after_exponent,
                ),
                ParserState::ReadingString => self.process_read_string_state(bytes),
                ParserState::AfterValue => self.process_after_value_state(bytes),
                ParserState::ReadingTrue(index) => self.process_reading_true_state(index, bytes),
                ParserState::ReadingFalse(index) => self.process_reading_false_state(
                    index,
                    bytes,
                ),
                ParserState::ReadingOctalInteger => self.process_reading_octal(bytes),
                ParserState::ReadingBinaryInteger => self.process_reading_binary(bytes),
                ParserState::ReadingNegativeInteger => self.process_negative_integer(bytes),
                ParserState::ReadingHexInteger => self.process_reading_hex(bytes),
                ParserState::EndOfFile => {
                    return Ok(None);
                },
                finished => {
                    proof {
                        lemma_pull_moves_on(bytes@, old(self)@);
                    }
                    let entry = match finished {
                        ParserState::FinishedFloat(_, _) => self.build_float_pair(data_to_parse),
                        ParserState::FinishedBoolean(bool_value) => self.build_bool_pair(
                            bool_value,
                            data_to_parse,
                        ),
                        ParserState::FinishedInteger(_, _) => self.build_integer_pair(
                            data_to_parse,
                        ),
                        ParserState::FinishedNegativeInteger(_, _) => {
                            self.build_negative_integer_pair(data_to_parse)
                        },
                        ParserState::FinishedBinaryInteger(_, _) => {
                            self.build_binary_integer_pair(data_to_parse)
                        },
                        ParserState::FinishedHexInteger(_, _) => self.build_hex_integer_pair(
                            data_to_parse,
                        ),
                        ParserState::FinishedOctalInteger(_, _) => self.build_octal_integer_pair(
                            data_to_parse,
                        ),
                        _ => self.build_string_pair(data_to_parse),
                    };
                    return match entry {
                        Ok(pair) => {
                            self.release();
                            Ok(Some(pair))
                        },
                        Err(error) => Err(error),
                    };
                },
            };
            if let Err(error) = step {
                return Err(error);
            }
        }
    }

    /// Pulls the next entry, as `read_pair` does.
    pub fn read_test_pair<'a>(&mut self, data_to_parse: &'a str) -> (r: Result<
        Option<TomlPair<'a>>,
        Error,
    >)
        requires
            old(self)@.resumable(),
        ensures
            match pull(data_to_parse.spec_bytes(), old(self)@) {
                Pull::Pair { pair, parser } => r matches Ok(Some(p)) && p@ == pair
                    && final(self)@ == parser,
                Pull::End { parser } => r matches Ok(None) && final(self)@ == parser,
                Pull::Fault { kind, source } => r matches Err(e) && e.kind() == kind
                    && e.source() == source,
            },
            r is Ok ==> final(self)@.resumable(),
            r matches Ok(Some(_)) ==> old(self)@.position < final(self)@.position
                <= data_to_parse.spec_bytes().len(),
            r matches Ok(None) ==> final(self)@.state is EndOfFile,
    {
        self.read_pair(data_to_parse)
    }

    /// Reads the document to its end and gathers the entries into a table
    /// keyed by name. Where a name occurs again, its later value replaces
    /// the earlier one. The first fault is handed on and the entries read
    /// so far are dropped.
    pub fn parse<'a>(&mut self, data_to_parse: &'a str) -> (r: Result<
        StringHashMap<TomlValue<'a>>,
        Error,
    >)
        requires
            old(self)@.resumable(),
        ensures
            match entries(data_to_parse.spec_bytes(), old(self)@) {
                Ok(pairs) => r matches Ok(table) && table@.dom() == table_of(pairs).dom()
                    && forall|name: Seq<char>| #[trigger]
                    table@.contains_key(name) ==> table@[name]@ == table_of(pairs)[name],
                Err(fault) => r matches Err(e) && e.kind() == fault.0 && e.source() == fault.1,
            },
            r is Ok ==> final(self)@.resumable() && final(self)@.state is EndOfFile,
    {
        let ghost doc = data_to_parse.spec_bytes();
        let ghost mut seen: Seq<PairModel> = Seq::empty();
        let mut hs: StringHashMap<TomlValue<'a>> = StringHashMap::new();
        loop
            invariant
                doc == data_to_parse.spec_bytes(),
                self@.resumable(),
                match entries(doc, self@) {
                    Ok(rest) => entries(doc, old(self)@) == Ok::<
                        Seq<PairModel>,
                        (ErrorKind, Option<ConversionError>),
                    >(seen + rest),
                    Err(fault) => entries(doc, old(self)@) == Err::<
                        Seq<PairModel>,
                        (ErrorKind, Option<ConversionError>),
                    >(fault),
                },
                hs@.dom() == table_of(seen).dom(),
                forall|name: Seq<char>| #[trigger]
                    hs@.contains_key(name) ==> hs@[name]@ == table_of(seen)[name],
            decreases doc.len() - self@.position,
        {
            match self.read_pair(data_to_parse) {
                Err(error) => {
                    return Err(error);
                },
                Ok(None) => {
                    proof {
                        assert(seen + Seq::<PairModel>::empty() =~= seen);
                    }
                    return Ok(hs);
                },
                Ok(Some(pair)) => {
                    proof {
                        let rest = entries(doc, self@);
                        if let Ok(tail) = rest {
                            assert(seen + (seq![pair@] + tail) =~= seen.push(pair@) + tail);
                        }
                        assert(seen.push(pair@).drop_last() =~= seen);
                        seen = seen.push(pair@);
                    }
                    let (name, value) = pair.into_parts();
                    hs.insert(name.to_owned(), value);
                    proof {
                        assert(hs@.dom() =~= table_of(seen).dom());
                    }
                },
            }
        }
    }
}

} // verus!
