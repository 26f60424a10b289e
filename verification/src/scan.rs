//! The executable counterparts of the grammar's runs and closings.

use vstd::prelude::*;
use crate::ascii::{
    blank, digit_of, is_radix, line_break, CARRIAGE_RETURN, EQUALS, HASH, LINE_FEED, QUOTE,
    UNDERSCORE,
};
use crate::error::ErrorKind;
use crate::grammar::{bars_name, closing_at, gap, next_line, run_end, Closing, Gap, Run};

verus! {

impl Run {
    /// The radix of a run of digits is one that integers are written in.
    pub open spec fn wf(self) -> bool {
        self matches Run::Digits(radix) ==> is_radix(radix as int)
    }

    /// Tells whether the byte belongs to runs of this kind.
    pub fn has(self, b: u8) -> (r: bool)
        requires
            self.wf(),
        ensures
            r == self.holds(b),
    {
        match self {
            Run::Blank => blank(b),
            Run::Name => !(b == EQUALS || blank(b) || line_break(b)),
            Run::Text => !(b == QUOTE || line_break(b)),
            Run::Digits(radix) => b == UNDERSCORE || digit_of(b, radix).is_some(),
        }
    }
}

/// A run ends at or behind its start, within the document.
pub proof fn lemma_run_end_bounds(doc: Seq<u8>, run: Run, from: int)
    requires
        0 <= from <= doc.len(),
    ensures
        from <= run_end(doc, run, from) <= doc.len(),
    decreases doc.len() - from,
{
    if from < doc.len() && run.holds(doc[from]) {
        lemma_run_end_bounds(doc, run, from + 1);
    }
}

/// Finds the end of the run that starts at `from`.
pub fn scan_run(bytes: &[u8], run: Run, from: usize) -> (end: usize)
    requires
        run.wf(),
        from <= bytes@.len(),
    ensures
        end == run_end(bytes@, run, from as int),
        from <= end <= bytes@.len(),
{
    let mut at = from;
    while at < bytes.len() && run.has(bytes[at])
        invariant
            run.wf(),
            from <= at <= bytes@.len(),
            run_end(bytes@, run, at as int) == run_end(bytes@, run, from as int),
        decreases bytes@.len() - at,
    {
        at += 1;
    }
    at
}

/// How a value is closed, with the offset as the machine holds it.
pub enum Close {
    Closed { eof: bool, eol: bool, next: usize },
    BadLineEnd,
    Open,
}

impl View for Close {
    type V = Closing;

    open spec fn view(&self) -> Closing {
        match self {
            Close::Closed { eof, eol, next } => Closing::Closed {
                eof: *eof,
                eol: *eol,
                next: *next as int,
            },
            Close::BadLineEnd => Closing::BadLineEnd,
            Close::Open => Closing::Open,
        }
    }
}

/// Tells how a value that stops at `at` is closed.
pub fn close_at(bytes: &[u8], at: usize) -> (close: Close)
    requires
        at <= bytes@.len(),
    ensures
        close@ == closing_at(bytes@, at as int),
        close matches Close::Closed { eof, eol, next } ==> at <= next <= bytes@.len() && !(eof
            && eol) && (eof ==> next == at) && (!eof ==> at < next && bytes@[at as int] < 0x80),
        !(close is Closed) ==> at < bytes@.len(),
{
    if at >= bytes.len() {
        Close::Closed { eof: true, eol: false, next: at }
    } else if blank(bytes[at]) {
        Close::Closed { eof: false, eol: false, next: at + 1 }
    } else if bytes[at] == LINE_FEED {
        Close::Closed { eof: false, eol: true, next: at + 1 }
    } else if bytes[at] == CARRIAGE_RETURN {
        if at + 1 < bytes.len() && bytes[at + 1] == LINE_FEED {
            Close::Closed { eof: false, eol: true, next: at + 2 }
        } else {
            Close::BadLineEnd
        }
    } else {
        Close::Open
    }
}

/// What lies between two entries, with the offsets as the machine holds them.
pub enum Opening {
    End { at: usize, line: usize },
    Name { at: usize, line: usize },
    Fault(ErrorKind),
}

impl View for Opening {
    type V = Gap;

    open spec fn view(&self) -> Gap {
        match self {
            Opening::End { at, line } => Gap::End { at: *at as int, line: *line },
            Opening::Name { at, line } => Gap::Name { at: *at as int, line: *line },
            Opening::Fault(kind) => Gap::Fault(*kind),
        }
    }
}

/// Tells whether no name can begin with the byte.
pub fn name_barred(b: u8) -> (r: bool)
    ensures
        r == bars_name(b),
{
    b == EQUALS || b == HASH || b == QUOTE || (0x80 <= b && b <= 0xBF)
}

/// Passes over whitespace and line endings from `from`, counting the lines.
pub fn pass_gap(bytes: &[u8], from: usize, line: usize) -> (found: Opening)
    ensures
        found@ == gap(bytes@, from as int, line),
        found matches Opening::Name { at, line } ==> from <= at < bytes@.len() <= usize::MAX
            && !bars_name(bytes@[at as int]),
{
    let mut at = from;
    let mut count = line;
    loop
        invariant
            from <= at,
            gap(bytes@, at as int, count) == gap(bytes@, from as int, line),
        decreases bytes@.len() - at,
    {
        if at >= bytes.len() {
            return Opening::End { at, line: count };
        }
        let b = bytes[at];
        if blank(b) {
            at += 1;
        } else if b == LINE_FEED {
            at += 1;
            count = count_line(count);
        } else if b == CARRIAGE_RETURN {
            if at + 1 < bytes.len() && bytes[at + 1] == LINE_FEED {
                at += 2;
                count = count_line(count);
            } else {
                return Opening::Fault(ErrorKind::InvalidEndOfLine(count));
            }
        } else if name_barred(b) {
            return Opening::Fault(ErrorKind::InvalidName(count));
        } else {
            return Opening::Name { at, line: count };
        }
    }
}

/// Counts one more line ending.
pub fn count_line(line: usize) -> (next: usize)
    ensures
        next == next_line(line),
{
    if line < usize::MAX {
        line + 1
    } else {
        line
    }
}

} // verus!
