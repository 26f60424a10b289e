//! Every phase of the scanner moves on: towards a finished entry, and
//! forwards in the document.

use vstd::prelude::*;
use crate::grammar::{
    advance, bars_name, from_after_equals, from_reading_digits, gap, minus_lead, next_line, pull,
    run_end, zero_lead, Gap, Pull, Run, Step,
};
use crate::scan::lemma_run_end_bounds;
use crate::state::{ParserModel, ParserState};

verus! {

/// The scanner lies within the document, whose offsets the machine can
/// hold: unless it rests, its cursor is inside, and at the end where the
/// state says that the end closed the value.
pub open spec fn inside(m: ParserModel, doc: Seq<u8>) -> bool {
    &&& doc.len() <= usize::MAX
    &&& m.position >= 0
    &&& !m.state.is_resting() ==> m.position <= doc.len()
    &&& m.state.closing_flags() matches Some(flags) ==> flags.0 ==> m.position == doc.len()
}

/// The offset in front of which nothing of the entry under way lies: the
/// start of its name or, before a name has begun, the cursor.
pub open spec fn low(m: ParserModel) -> int {
    match m.name_start {
        Some(at) => at,
        None => m.position,
    }
}

/// A gap ends at or behind its start; where a name follows, it begins
/// within the document with a byte that may begin a name.
pub proof fn lemma_gap_bounds(doc: Seq<u8>, from: int, line: usize)
    requires
        0 <= from,
    ensures
        match gap(doc, from, line) {
            Gap::End { at, line } => from <= at && at >= doc.len() && (from <= doc.len() ==> at
                == doc.len()),
            Gap::Name { at, line } => from <= at < doc.len() && !bars_name(doc[at])
                && Run::Name.holds(doc[at]),
            Gap::Fault(_) => true,
        },
    decreases doc.len() - from,
{
    if from < doc.len() {
        lemma_gap_bounds(doc, from + 1, line);
        lemma_gap_bounds(doc, from + 1, next_line(line));
        if from + 1 < doc.len() {
            lemma_gap_bounds(doc, from + 2, next_line(line));
        }
    }
}

/// The scanner `next` is well formed and within the document, in a state of
/// lower rank than `m`; its cursor and its entry lie no further back;
/// what `m` held of the bounds of the name, it holds too; and it is within
/// an entry if `m` was.
pub open spec fn moved_on(doc: Seq<u8>, m: ParserModel, next: ParserModel) -> bool {
    &&& next.wf()
    &&& inside(next, doc)
    &&& next.state.rank() < m.state.rank()
    &&& next.position >= m.position
    &&& low(next) >= low(m)
    &&& m.name_start is Some ==> next.name_start == m.name_start
    &&& m.name_end is Some ==> next.name_end == m.name_end
    &&& !m.state.is_resting() ==> !next.state.is_resting()
}

proof fn lemma_zero_lead_moves_on(doc: Seq<u8>, m: ParserModel, at: int)
    requires
        m.wf(),
        inside(m, doc),
        m.state is AfterEquals,
        m.position <= at < doc.len(),
    ensures
        zero_lead(doc, m, at) matches Step::To(next) ==> moved_on(doc, m, next),
{
}

proof fn lemma_minus_lead_moves_on(doc: Seq<u8>, m: ParserModel, at: int)
    requires
        m.wf(),
        inside(m, doc),
        m.state is AfterEquals,
        m.position <= at < doc.len(),
    ensures
        minus_lead(doc, m, at) matches Step::To(next) ==> moved_on(doc, m, next),
{
}

proof fn lemma_value_moves_on(doc: Seq<u8>, m: ParserModel)
    requires
        m.wf(),
        inside(m, doc),
        m.state is AfterEquals,
    ensures
        from_after_equals(doc, m) matches Step::To(next) ==> moved_on(doc, m, next),
{
    lemma_run_end_bounds(doc, Run::Blank, m.position);
    let at = run_end(doc, Run::Blank, m.position);
    if at < doc.len() {
        lemma_zero_lead_moves_on(doc, m, at);
        lemma_minus_lead_moves_on(doc, m, at);
        if at + 1 < doc.len() {
            lemma_zero_lead_moves_on(doc, m, at + 1);
        }
    }
}

proof fn lemma_digits_move_on(doc: Seq<u8>, m: ParserModel, radix: u8, negative: bool)
    requires
        m.wf(),
        inside(m, doc),
        m.state.rank() == 3,
        !(m.state is ReadingTrue),
        !(m.state is ReadingFalse),
    ensures
        from_reading_digits(doc, m, radix, negative) matches Step::To(next) ==> moved_on(
            doc,
            m,
            next,
        ),
{
    lemma_run_end_bounds(doc, Run::Digits(radix), m.position);
}

proof fn lemma_number_moves_on(doc: Seq<u8>, m: ParserModel)
    requires
        m.wf(),
        inside(m, doc),
        m.state is ReadingInteger || m.state is ReadingFloat,
    ensures
        advance(doc, m) matches Step::To(next) ==> moved_on(doc, m, next),
{
    lemma_run_end_bounds(doc, Run::Digits(10), m.position);
    if m.state is ReadingInteger {
        lemma_digits_move_on(doc, m, 10, false);
    }
}

/// A phase leaves the scanner well formed and within the document, in a
/// state of lower rank, and with its cursor and its entry no further back.
pub proof fn lemma_advance_moves_on(doc: Seq<u8>, m: ParserModel)
    requires
        m.wf(),
        inside(m, doc),
        m.state.rank() > 0,
    ensures
        advance(doc, m) matches Step::To(next) ==> moved_on(doc, m, next),
{
    match m.state {
        ParserState::Normal => {
            lemma_gap_bounds(doc, m.position, m.line_number);
        },
        ParserState::AfterValue => {
            if m.position <= doc.len() {
                lemma_run_end_bounds(doc, Run::Blank, m.position);
            }
        },
        ParserState::ReadingName => {
            lemma_run_end_bounds(doc, Run::Name, m.position);
        },
        ParserState::BeforeEquals => {
            lemma_run_end_bounds(doc, Run::Blank, m.position);
        },
        ParserState::AfterEquals => {
            lemma_value_moves_on(doc, m);
        },
        ParserState::ReadingString => {
            lemma_run_end_bounds(doc, Run::Text, m.position);
        },
        ParserState::ReadingTrue(_) => {},
        ParserState::ReadingFalse(_) => {},
        ParserState::ReadingInteger => {
            lemma_number_moves_on(doc, m);
        },
        ParserState::ReadingFloat(_) => {
            lemma_number_moves_on(doc, m);
        },
        ParserState::ReadingNegativeInteger => {
            lemma_digits_move_on(doc, m, 10, true);
        },
        ParserState::ReadingHexInteger => {
            lemma_digits_move_on(doc, m, 16, false);
        },
        ParserState::ReadingOctalInteger => {
            lemma_digits_move_on(doc, m, 8, false);
        },
        ParserState::ReadingBinaryInteger => {
            lemma_digits_move_on(doc, m, 2, false);
        },
        _ => {},
    }
}

/// What a pull leaves behind: after an entry, a scanner that can be
/// resumed, which has moved past the entry; after the end, which only a
/// scanner between two entries comes to, a scanner in `EndOfFile`.
pub proof fn lemma_pull_moves_on(doc: Seq<u8>, m: ParserModel)
    requires
        m.wf(),
        inside(m, doc),
    ensures
        match pull(doc, m) {
            Pull::Pair { pair, parser } => parser.resumable() && low(m) < parser.position
                <= doc.len() && (parser.state is EndOfFile ==> parser.position == doc.len()),
            Pull::End { parser } => parser.resumable() && parser.state is EndOfFile
                && parser.position >= m.position && m.state.is_resting(),
            Pull::Fault { .. } => true,
        },
    decreases m.state.rank(),
{
    if m.state.rank() > 0 {
        lemma_advance_moves_on(doc, m);
        if let Step::To(next) = advance(doc, m) {
            lemma_pull_moves_on(doc, next);
        }
    }
}

} // verus!
