//! How a scanner reads a document of several lines: what follows an entry
//! that is closed, and what stands in front of the cursor, is not looked at.

use vstd::prelude::*;
use crate::ascii::{
    false_text, is_blank, true_text, CARRIAGE_RETURN, LINE_FEED, MINUS, PLUS, ZERO,
};
use crate::pair::PairModel;
use crate::table::{entries, Faulty};
use crate::grammar::{
    advance, closing_at, from_after_equals, gap, minus_lead, next_line, pull, released, run_end,
    zero_lead, Closing, Gap, Pull, Run, Step,
};
use crate::laws::{lemma_run_end_holds, lemma_run_end_stops};
use crate::progress::{inside, lemma_advance_moves_on, lemma_gap_bounds, lemma_pull_moves_on};
use crate::scan::lemma_run_end_bounds;
use crate::state::{ParserModel, ParserState};

verus! {

/// The two documents hold at least `upto` bytes, and the same ones in
/// front of `upto`.
spec fn agree(one: Seq<u8>, other: Seq<u8>, upto: int) -> bool {
    &&& upto <= one.len()
    &&& upto <= other.len()
    &&& forall|i: int| 0 <= i < upto ==> one[i] == other[i]
}

/// The scanner got to its state by running into the end of the document.
spec fn sealed(m: ParserModel) -> bool {
    m.state is EndOfFile || (m.state.closing_flags() matches Some(flags) && flags.0)
}

/// The first offset that the scanner cannot have looked at on its way to
/// its state: the cursor or, in the states that are entered on a look at
/// the byte under the cursor, the offset behind it.
spec fn reach(m: ParserModel) -> int {
    match m.state {
        ParserState::AfterValue => m.position + 1,
        ParserState::ReadingTrue(_) => m.position + 1,
        ParserState::ReadingFalse(_) => m.position + 1,
        ParserState::ReadingFloat(true) => m.position + 1,
        ParserState::FinishedString => m.position + 1,
        ParserState::FinishedBoolean(_) => m.position + 1,
        _ => if m.state.closing_flags() matches Some(flags) && !flags.1 {
            m.position + 1
        } else {
            m.position
        },
    }
}

proof fn lemma_run_end_local(one: Seq<u8>, other: Seq<u8>, run: Run, from: int, upto: int)
    requires
        agree(one, other, upto),
        0 <= from,
        run_end(one, run, from) < upto,
    ensures
        run_end(other, run, from) == run_end(one, run, from),
    decreases one.len() - from,
{
    if from < one.len() && run.holds(one[from]) {
        lemma_run_end_bounds(one, run, from + 1);
        lemma_run_end_local(one, other, run, from + 1, upto);
    }
}

proof fn lemma_gap_local(one: Seq<u8>, other: Seq<u8>, from: int, line: usize, upto: int)
    requires
        agree(one, other, upto),
        0 <= from,
        gap(one, from, line) matches Gap::Name { at, line } && at < upto,
    ensures
        gap(other, from, line) == gap(one, from, line),
    decreases one.len() - from,
{
    lemma_gap_bounds(one, from, line);
    if from < one.len() {
        let b = one[from];
        if is_blank(b) {
            lemma_gap_bounds(one, from + 1, line);
            lemma_gap_local(one, other, from + 1, line, upto);
        } else if b == LINE_FEED {
            lemma_gap_bounds(one, from + 1, next_line(line));
            lemma_gap_local(one, other, from + 1, next_line(line), upto);
        } else if b == CARRIAGE_RETURN {
            lemma_gap_bounds(one, from + 2, next_line(line));
            lemma_gap_local(one, other, from + 2, next_line(line), upto);
        }
    }
}

/// The phase passes nothing on that lies behind `upto`, and ends neither
/// in a fault nor at the end of the document.
spec fn stays_in(doc: Seq<u8>, m: ParserModel, upto: int) -> bool {
    advance(doc, m) matches Step::To(next) && !sealed(next) && reach(next) <= upto
}

proof fn lemma_zero_lead_local(one: Seq<u8>, other: Seq<u8>, m: ParserModel, at: int, upto: int)
    requires
        agree(one, other, upto),
        0 <= at < one.len(),
        zero_lead(one, m, at) matches Step::To(next) && !sealed(next) && reach(next) <= upto,
    ensures
        zero_lead(other, m, at) == zero_lead(one, m, at),
{
}

proof fn lemma_minus_lead_local(one: Seq<u8>, other: Seq<u8>, m: ParserModel, at: int, upto: int)
    requires
        agree(one, other, upto),
        0 <= at < one.len(),
        minus_lead(one, m, at) matches Step::To(next) && !sealed(next) && reach(next) <= upto,
    ensures
        minus_lead(other, m, at) == minus_lead(one, m, at),
{
}

proof fn lemma_value_local(one: Seq<u8>, other: Seq<u8>, m: ParserModel, upto: int)
    requires
        m.wf(),
        inside(m, one),
        agree(one, other, upto),
        m.state is AfterEquals,
        stays_in(one, m, upto),
    ensures
        from_after_equals(other, m) == from_after_equals(one, m),
{
    let at = run_end(one, Run::Blank, m.position);
    lemma_run_end_bounds(one, Run::Blank, m.position);
    lemma_run_end_local(one, other, Run::Blank, m.position, upto);
    if at < one.len() {
        let b = one[at];
        if b == PLUS {
            if one[at + 1] == ZERO {
                lemma_zero_lead_local(one, other, m, at + 1, upto);
            }
        } else if b == MINUS {
            lemma_minus_lead_local(one, other, m, at, upto);
        } else if b == ZERO {
            lemma_zero_lead_local(one, other, m, at, upto);
        }
    }
}

proof fn lemma_digits_local(one: Seq<u8>, other: Seq<u8>, m: ParserModel, radix: u8, upto: int)
    requires
        m.wf(),
        inside(m, one),
        agree(one, other, upto),
        m.state.rank() > 0,
        ({
            let end = run_end(one, Run::Digits(radix), m.position);
            ||| closing_at(one, end) matches Closing::Closed { eof, eol, next } && !eof && next
                <= upto
            ||| closing_at(one, end) is Open && end + 1 <= upto
        }),
    ensures
        run_end(other, Run::Digits(radix), m.position) == run_end(
            one,
            Run::Digits(radix),
            m.position,
        ),
        closing_at(other, run_end(one, Run::Digits(radix), m.position)) == closing_at(
            one,
            run_end(one, Run::Digits(radix), m.position),
        ),
{
    lemma_run_end_bounds(one, Run::Digits(radix), m.position);
    lemma_run_end_local(one, other, Run::Digits(radix), m.position, upto);
}

proof fn lemma_normal_local(one: Seq<u8>, other: Seq<u8>, m: ParserModel, upto: int)
    requires
        m.wf(),
        inside(m, one),
        agree(one, other, upto),
        m.state is Normal,
        stays_in(one, m, upto),
    ensures
        advance(other, m) == advance(one, m),
        reach(m) <= reach(advance(one, m)->To_0),
{
    lemma_advance_moves_on(one, m);
    lemma_gap_bounds(one, m.position, m.line_number);
    lemma_gap_local(one, other, m.position, m.line_number, upto);
}

proof fn lemma_after_value_local(one: Seq<u8>, other: Seq<u8>, m: ParserModel, upto: int)
    requires
        m.wf(),
        inside(m, one),
        agree(one, other, upto),
        m.state is AfterValue,
        stays_in(one, m, upto),
    ensures
        advance(other, m) == advance(one, m),
        reach(m) <= reach(advance(one, m)->To_0),
{
    lemma_advance_moves_on(one, m);
    if m.position <= one.len() {
        lemma_run_end_bounds(one, Run::Blank, m.position);
        lemma_run_end_local(one, other, Run::Blank, m.position, upto);
    }
}

proof fn lemma_name_local(one: Seq<u8>, other: Seq<u8>, m: ParserModel, upto: int)
    requires
        m.wf(),
        inside(m, one),
        agree(one, other, upto),
        m.state is ReadingName || m.state is BeforeEquals,
        stays_in(one, m, upto),
    ensures
        advance(other, m) == advance(one, m),
        reach(m) <= reach(advance(one, m)->To_0),
{
    lemma_advance_moves_on(one, m);
    lemma_run_end_bounds(one, Run::Name, m.position);
    lemma_run_end_bounds(one, Run::Blank, m.position);
    if m.state is ReadingName {
        lemma_run_end_local(one, other, Run::Name, m.position, upto);
    } else {
        lemma_run_end_local(one, other, Run::Blank, m.position, upto);
    }
}

proof fn lemma_equals_local(one: Seq<u8>, other: Seq<u8>, m: ParserModel, upto: int)
    requires
        m.wf(),
        inside(m, one),
        agree(one, other, upto),
        m.state is AfterEquals,
        stays_in(one, m, upto),
    ensures
        advance(other, m) == advance(one, m),
        reach(m) <= reach(advance(one, m)->To_0),
{
    lemma_advance_moves_on(one, m);
    lemma_value_local(one, other, m, upto);
}

proof fn lemma_string_local(one: Seq<u8>, other: Seq<u8>, m: ParserModel, upto: int)
    requires
        m.wf(),
        inside(m, one),
        agree(one, other, upto),
        m.state is ReadingString,
        stays_in(one, m, upto),
    ensures
        advance(other, m) == advance(one, m),
        reach(m) <= reach(advance(one, m)->To_0),
{
    lemma_advance_moves_on(one, m);
    lemma_run_end_bounds(one, Run::Text, m.position);
    lemma_run_end_local(one, other, Run::Text, m.position, upto);
}

proof fn lemma_boolean_local(one: Seq<u8>, other: Seq<u8>, m: ParserModel, upto: int)
    requires
        m.wf(),
        inside(m, one),
        agree(one, other, upto),
        m.state is ReadingTrue || m.state is ReadingFalse,
        stays_in(one, m, upto),
    ensures
        advance(other, m) == advance(one, m),
        reach(m) <= reach(advance(one, m)->To_0),
{
    lemma_advance_moves_on(one, m);
    let at = m.position;
    assert(other.subrange(at, at + 4) =~= one.subrange(at, at + 4));
    assert(other.subrange(at, at + 5) =~= one.subrange(at, at + 5));
}

proof fn lemma_number_local(one: Seq<u8>, other: Seq<u8>, m: ParserModel, upto: int)
    requires
        m.wf(),
        inside(m, one),
        agree(one, other, upto),
        m.state is ReadingInteger || m.state is ReadingFloat,
        stays_in(one, m, upto),
    ensures
        advance(other, m) == advance(one, m),
        reach(m) <= reach(advance(one, m)->To_0),
{
    lemma_advance_moves_on(one, m);
    lemma_run_end_bounds(one, Run::Digits(10), m.position);
    lemma_digits_local(one, other, m, 10, upto);
}

proof fn lemma_radix_local(one: Seq<u8>, other: Seq<u8>, m: ParserModel, upto: int)
    requires
        m.wf(),
        inside(m, one),
        agree(one, other, upto),
        m.state is ReadingNegativeInteger || m.state is ReadingHexInteger
            || m.state is ReadingOctalInteger || m.state is ReadingBinaryInteger,
        stays_in(one, m, upto),
    ensures
        advance(other, m) == advance(one, m),
        reach(m) <= reach(advance(one, m)->To_0),
{
    lemma_advance_moves_on(one, m);
    let radix: u8 = match m.state {
        ParserState::ReadingHexInteger => 16,
        ParserState::ReadingOctalInteger => 8,
        ParserState::ReadingBinaryInteger => 2,
        _ => 10,
    };
    lemma_digits_local(one, other, m, radix, upto);
}

/// A phase that neither fails nor runs into the end looks at no byte
/// behind the reach of the scanner it leaves.
proof fn lemma_advance_local(one: Seq<u8>, other: Seq<u8>, m: ParserModel, upto: int)
    requires
        m.wf(),
        inside(m, one),
        agree(one, other, upto),
        m.state.rank() > 0,
        stays_in(one, m, upto),
    ensures
        advance(other, m) == advance(one, m),
        reach(m) <= reach(advance(one, m)->To_0),
{
    match m.state {
        ParserState::Normal => lemma_normal_local(one, other, m, upto),
        ParserState::AfterValue => lemma_after_value_local(one, other, m, upto),
        ParserState::ReadingName => lemma_name_local(one, other, m, upto),
        ParserState::BeforeEquals => lemma_name_local(one, other, m, upto),
        ParserState::AfterEquals => lemma_equals_local(one, other, m, upto),
        ParserState::ReadingString => lemma_string_local(one, other, m, upto),
        ParserState::ReadingTrue(_) => lemma_boolean_local(one, other, m, upto),
        ParserState::ReadingFalse(_) => lemma_boolean_local(one, other, m, upto),
        ParserState::ReadingInteger => lemma_number_local(one, other, m, upto),
        ParserState::ReadingFloat(_) => lemma_number_local(one, other, m, upto),
        ParserState::ReadingNegativeInteger => lemma_radix_local(one, other, m, upto),
        ParserState::ReadingHexInteger => lemma_radix_local(one, other, m, upto),
        ParserState::ReadingOctalInteger => lemma_radix_local(one, other, m, upto),
        ParserState::ReadingBinaryInteger => lemma_radix_local(one, other, m, upto),
        _ => {},
    }
}

/// A pull that yields an entry without running into the end looks at no
/// byte behind the reach of the scanner it leaves.
proof fn lemma_pull_local(one: Seq<u8>, other: Seq<u8>, m: ParserModel, upto: int)
    requires
        m.wf(),
        inside(m, one),
        agree(one, other, upto),
        pull(one, m) matches Pull::Pair { pair, parser } && !(parser.state is EndOfFile) && reach(
            parser,
        ) <= upto,
    ensures
        pull(other, m) == pull(one, m),
        !sealed(m),
        reach(m) <= upto,
    decreases m.state.rank(),
{
    if m.state.rank() > 0 {
        lemma_advance_moves_on(one, m);
        let next = advance(one, m)->To_0;
        lemma_pull_local(one, other, next, upto);
        lemma_advance_local(one, other, m, upto);
    } else {
        let from = m.name_start->0;
        let to = m.name_end->0;
        let first = m.value_start->0;
        let last = m.value_end->0;
        assert(other.subrange(from, to) =~= one.subrange(from, to));
        assert(other.subrange(first, last) =~= one.subrange(first, last));
    }
}

/// An entry that is closed is read without a look at what follows: where a
/// pull yields an entry and leaves the scanner behind a line ending, or in
/// front of more of the document, it yields the same, and leaves the
/// scanner the same, however the document goes on.
pub proof fn law_closed_entry_ignores_what_follows(doc: Seq<u8>, more: Seq<u8>, m: ParserModel)
    requires
        m.resumable(),
        inside(m, doc),
        pull(doc, m) matches Pull::Pair { pair, parser } && (parser.state is Normal
            || parser.position < doc.len()),
    ensures
        pull(doc + more, m) == pull(doc, m),
{
    lemma_pull_moves_on(doc, m);
    lemma_pull_local(doc, doc + more, m, doc.len() as int);
}

/// The state as it is for a document that has `by` more bytes in front.
pub open spec fn moved_state(state: ParserState, by: int) -> ParserState {
    match state {
        ParserState::ReadingTrue(at) => ParserState::ReadingTrue((at + by) as usize),
        ParserState::ReadingFalse(at) => ParserState::ReadingFalse((at + by) as usize),
        _ => state,
    }
}

/// The offset as it is for a document that has `by` more bytes in front.
pub open spec fn moved_offset(at: Option<int>, by: int) -> Option<int> {
    match at {
        Some(at) => Some(at + by),
        None => None,
    }
}

/// The scanner as it is for a document that has `by` more bytes in front:
/// the cursor and the pending offsets lie `by` further on.
pub open spec fn moved(m: ParserModel, by: int) -> ParserModel {
    ParserModel {
        position: m.position + by,
        line_number: m.line_number,
        state: moved_state(m.state, by),
        name_start: moved_offset(m.name_start, by),
        name_end: moved_offset(m.name_end, by),
        value_start: moved_offset(m.value_start, by),
        value_end: moved_offset(m.value_end, by),
    }
}

/// What the phase comes to for a document that has `by` more bytes in front.
spec fn moved_step(step: Step, by: int) -> Step {
    match step {
        Step::To(next) => Step::To(moved(next, by)),
        Step::Fault(kind) => Step::Fault(kind),
    }
}

/// What the pull yields for a document that has `by` more bytes in front:
/// the same entry, the same end or the same fault, with the scanner left
/// `by` further on.
pub open spec fn moved_pull(pulled: Pull, by: int) -> Pull {
    match pulled {
        Pull::Pair { pair, parser } => Pull::Pair { pair, parser: moved(parser, by) },
        Pull::End { parser } => Pull::End { parser: moved(parser, by) },
        Pull::Fault { kind, source } => Pull::Fault { kind, source },
    }
}

/// The gap as it is for a document that has `by` more bytes in front.
spec fn moved_gap(found: Gap, by: int) -> Gap {
    match found {
        Gap::End { at, line } => Gap::End { at: at + by, line },
        Gap::Name { at, line } => Gap::Name { at: at + by, line },
        Gap::Fault(kind) => Gap::Fault(kind),
    }
}

/// The closing as it is for a document that has `by` more bytes in front.
spec fn moved_closing(close: Closing, by: int) -> Closing {
    match close {
        Closing::Closed { eof, eol, next } => Closing::Closed { eof, eol, next: next + by },
        _ => close,
    }
}

proof fn lemma_run_end_moved(front: Seq<u8>, doc: Seq<u8>, run: Run, from: int)
    requires
        0 <= from,
    ensures
        run_end(front + doc, run, from + front.len()) == run_end(doc, run, from) + front.len(),
    decreases doc.len() - from,
{
    if from < doc.len() {
        assert((front + doc)[from + front.len()] == doc[from]);
        if run.holds(doc[from]) {
            lemma_run_end_moved(front, doc, run, from + 1);
        }
    }
}

proof fn lemma_closing_moved(front: Seq<u8>, doc: Seq<u8>, at: int)
    requires
        0 <= at,
    ensures
        closing_at(front + doc, at + front.len()) == moved_closing(
            closing_at(doc, at),
            front.len() as int,
        ),
{
    if at < doc.len() {
        assert((front + doc)[at + front.len()] == doc[at]);
        if at + 1 < doc.len() {
            assert((front + doc)[at + 1 + front.len()] == doc[at + 1]);
        }
    }
}

proof fn lemma_gap_moved(front: Seq<u8>, doc: Seq<u8>, from: int, line: usize)
    requires
        0 <= from,
    ensures
        gap(front + doc, from + front.len(), line) == moved_gap(
            gap(doc, from, line),
            front.len() as int,
        ),
    decreases doc.len() - from,
{
    if from < doc.len() {
        assert((front + doc)[from + front.len()] == doc[from]);
        lemma_gap_moved(front, doc, from + 1, line);
        lemma_gap_moved(front, doc, from + 1, next_line(line));
        if from + 1 < doc.len() {
            assert((front + doc)[from + 1 + front.len()] == doc[from + 1]);
            lemma_gap_moved(front, doc, from + 2, next_line(line));
        }
    }
}

/// The bytes of a document stand `front.len()` further on behind `front`.
proof fn lemma_bytes_moved(front: Seq<u8>, doc: Seq<u8>)
    ensures
        (front + doc).len() == front.len() + doc.len(),
        forall|i: int| 0 <= i < doc.len() ==> #[trigger] (front + doc)[i + front.len()] == doc[i],
{
}

proof fn lemma_zero_lead_moved(front: Seq<u8>, doc: Seq<u8>, m: ParserModel, at: int)
    requires
        0 <= at < doc.len(),
        m.state is AfterEquals,
    ensures
        zero_lead(front + doc, moved(m, front.len() as int), at + front.len()) == moved_step(
            zero_lead(doc, m, at),
            front.len() as int,
        ),
{
    lemma_bytes_moved(front, doc);
    lemma_closing_moved(front, doc, at + 1);
    if at + 1 < doc.len() {
        assert((front + doc)[at + 1 + front.len()] == doc[at + 1]);
    }
    if at + 2 < doc.len() {
        assert((front + doc)[at + 2 + front.len()] == doc[at + 2]);
    }
}

proof fn lemma_minus_lead_moved(front: Seq<u8>, doc: Seq<u8>, m: ParserModel, at: int)
    requires
        0 <= at < doc.len(),
        m.state is AfterEquals,
    ensures
        minus_lead(front + doc, moved(m, front.len() as int), at + front.len()) == moved_step(
            minus_lead(doc, m, at),
            front.len() as int,
        ),
{
    lemma_bytes_moved(front, doc);
    lemma_closing_moved(front, doc, at + 2);
    if at + 1 < doc.len() {
        assert((front + doc)[at + 1 + front.len()] == doc[at + 1]);
    }
    if at + 2 < doc.len() {
        assert((front + doc)[at + 2 + front.len()] == doc[at + 2]);
    }
}

proof fn lemma_normal_moved(front: Seq<u8>, doc: Seq<u8>, m: ParserModel)
    requires
        m.wf(),
        inside(m, doc),
        front.len() + doc.len() <= usize::MAX,
        m.state is Normal,
    ensures
        advance(front + doc, moved(m, front.len() as int)) == moved_step(
            advance(doc, m),
            front.len() as int,
        ),
{
    let by = front.len() as int;
    lemma_advance_moves_on(doc, m);
    lemma_gap_moved(front, doc, m.position, m.line_number);
}

proof fn lemma_after_value_moved(front: Seq<u8>, doc: Seq<u8>, m: ParserModel)
    requires
        m.wf(),
        inside(m, doc),
        front.len() + doc.len() <= usize::MAX,
        m.state is AfterValue,
    ensures
        advance(front + doc, moved(m, front.len() as int)) == moved_step(
            advance(doc, m),
            front.len() as int,
        ),
{
    let by = front.len() as int;
    lemma_advance_moves_on(doc, m);
    if m.position <= doc.len() {
        lemma_run_end_bounds(doc, Run::Blank, m.position);
    }
    lemma_run_end_moved(front, doc, Run::Blank, m.position);
    lemma_closing_moved(front, doc, run_end(doc, Run::Blank, m.position));
}

proof fn lemma_name_moved(front: Seq<u8>, doc: Seq<u8>, m: ParserModel)
    requires
        m.wf(),
        inside(m, doc),
        front.len() + doc.len() <= usize::MAX,
        m.state is ReadingName || m.state is BeforeEquals,
    ensures
        advance(front + doc, moved(m, front.len() as int)) == moved_step(
            advance(doc, m),
            front.len() as int,
        ),
{
    let by = front.len() as int;
    lemma_advance_moves_on(doc, m);
    lemma_bytes_moved(front, doc);
    lemma_run_end_bounds(doc, Run::Name, m.position);
    lemma_run_end_bounds(doc, Run::Blank, m.position);
    lemma_run_end_moved(front, doc, Run::Name, m.position);
    lemma_run_end_moved(front, doc, Run::Blank, m.position);
    let end = if m.state is ReadingName {
        run_end(doc, Run::Name, m.position)
    } else {
        run_end(doc, Run::Blank, m.position)
    };
    if end < doc.len() {
        assert((front + doc)[end + by] == doc[end]);
    }
}

proof fn lemma_equals_moved(front: Seq<u8>, doc: Seq<u8>, m: ParserModel)
    requires
        m.wf(),
        inside(m, doc),
        front.len() + doc.len() <= usize::MAX,
        m.state is AfterEquals,
    ensures
        advance(front + doc, moved(m, front.len() as int)) == moved_step(
            advance(doc, m),
            front.len() as int,
        ),
{
    let by = front.len() as int;
    lemma_advance_moves_on(doc, m);
    lemma_bytes_moved(front, doc);
    lemma_run_end_bounds(doc, Run::Blank, m.position);
    lemma_run_end_moved(front, doc, Run::Blank, m.position);
    let at = run_end(doc, Run::Blank, m.position);
    if at < doc.len() {
        assert((front + doc)[at + by] == doc[at]);
        lemma_zero_lead_moved(front, doc, m, at);
        lemma_minus_lead_moved(front, doc, m, at);
        if at + 1 < doc.len() {
            assert((front + doc)[at + 1 + by] == doc[at + 1]);
            lemma_zero_lead_moved(front, doc, m, at + 1);
        }
    }
}

proof fn lemma_string_moved(front: Seq<u8>, doc: Seq<u8>, m: ParserModel)
    requires
        m.wf(),
        inside(m, doc),
        front.len() + doc.len() <= usize::MAX,
        m.state is ReadingString,
    ensures
        advance(front + doc, moved(m, front.len() as int)) == moved_step(
            advance(doc, m),
            front.len() as int,
        ),
{
    let by = front.len() as int;
    lemma_advance_moves_on(doc, m);
    lemma_bytes_moved(front, doc);
    lemma_run_end_bounds(doc, Run::Text, m.position);
    lemma_run_end_moved(front, doc, Run::Text, m.position);
    let end = run_end(doc, Run::Text, m.position);
    if end < doc.len() {
        assert((front + doc)[end + by] == doc[end]);
    }
}

proof fn lemma_boolean_moved(front: Seq<u8>, doc: Seq<u8>, m: ParserModel)
    requires
        m.wf(),
        inside(m, doc),
        front.len() + doc.len() <= usize::MAX,
        m.state is ReadingTrue || m.state is ReadingFalse,
    ensures
        advance(front + doc, moved(m, front.len() as int)) == moved_step(
            advance(doc, m),
            front.len() as int,
        ),
{
    let by = front.len() as int;
    lemma_advance_moves_on(doc, m);
    let at = m.position;
    if at + 4 <= doc.len() {
        assert((front + doc).subrange(at + by, at + by + 4) =~= doc.subrange(at, at + 4));
    }
    if at + 5 <= doc.len() {
        assert((front + doc).subrange(at + by, at + by + 5) =~= doc.subrange(at, at + 5));
    }
}

proof fn lemma_number_moved(front: Seq<u8>, doc: Seq<u8>, m: ParserModel)
    requires
        m.wf(),
        inside(m, doc),
        front.len() + doc.len() <= usize::MAX,
        m.state.rank() > 0,
        !m.state.is_resting(),
        m.state.rank() <= 3,
        !(m.state is ReadingString),
        !(m.state is ReadingTrue),
        !(m.state is ReadingFalse),
    ensures
        advance(front + doc, moved(m, front.len() as int)) == moved_step(
            advance(doc, m),
            front.len() as int,
        ),
{
    let by = front.len() as int;
    lemma_advance_moves_on(doc, m);
    lemma_bytes_moved(front, doc);
    let radix: u8 = match m.state {
        ParserState::ReadingHexInteger => 16,
        ParserState::ReadingOctalInteger => 8,
        ParserState::ReadingBinaryInteger => 2,
        _ => 10,
    };
    lemma_run_end_bounds(doc, Run::Digits(radix), m.position);
    lemma_run_end_moved(front, doc, Run::Digits(radix), m.position);
    let end = run_end(doc, Run::Digits(radix), m.position);
    lemma_closing_moved(front, doc, end);
    if end < doc.len() {
        assert((front + doc)[end + by] == doc[end]);
    }
    if end + 1 < doc.len() {
        assert((front + doc)[end + 1 + by] == doc[end + 1]);
    }
}

/// A phase does the same to a scanner wherever the document begins.
proof fn lemma_advance_moved(front: Seq<u8>, doc: Seq<u8>, m: ParserModel)
    requires
        m.wf(),
        inside(m, doc),
        front.len() + doc.len() <= usize::MAX,
        m.state.rank() > 0,
    ensures
        advance(front + doc, moved(m, front.len() as int)) == moved_step(
            advance(doc, m),
            front.len() as int,
        ),
{
    match m.state {
        ParserState::Normal => lemma_normal_moved(front, doc, m),
        ParserState::AfterValue => lemma_after_value_moved(front, doc, m),
        ParserState::ReadingName => lemma_name_moved(front, doc, m),
        ParserState::BeforeEquals => lemma_name_moved(front, doc, m),
        ParserState::AfterEquals => lemma_equals_moved(front, doc, m),
        ParserState::ReadingString => lemma_string_moved(front, doc, m),
        ParserState::ReadingTrue(_) => lemma_boolean_moved(front, doc, m),
        ParserState::ReadingFalse(_) => lemma_boolean_moved(front, doc, m),
        _ => lemma_number_moved(front, doc, m),
    }
}

/// A pull yields the same wherever the document begins.
proof fn lemma_pull_moved(front: Seq<u8>, doc: Seq<u8>, m: ParserModel)
    requires
        m.wf(),
        inside(m, doc),
        front.len() + doc.len() <= usize::MAX,
    ensures
        pull(front + doc, moved(m, front.len() as int)) == moved_pull(
            pull(doc, m),
            front.len() as int,
        ),
    decreases m.state.rank(),
{
    let by = front.len() as int;
    if m.state.rank() > 0 {
        lemma_advance_moves_on(doc, m);
        lemma_advance_moved(front, doc, m);
        if let Step::To(next) = advance(doc, m) {
            lemma_pull_moved(front, doc, next);
        }
    } else if m.state.is_finished() {
        let from = m.name_start->0;
        let to = m.name_end->0;
        let first = m.value_start->0;
        let last = m.value_end->0;
        assert((front + doc).subrange(from + by, to + by) =~= doc.subrange(from, to));
        assert((front + doc).subrange(first + by, last + by) =~= doc.subrange(first, last));
        assert(released(moved(m, by)) == moved(released(m), by));
    }
}

/// What stands in front of the cursor is not looked at: behind any other
/// document `front`, a scanner that stands as far further on reads `doc`
/// as it reads it alone.
pub proof fn law_what_is_read_is_left_alone(front: Seq<u8>, doc: Seq<u8>, m: ParserModel)
    requires
        m.resumable(),
        inside(m, doc),
        front.len() + doc.len() <= usize::MAX,
    ensures
        pull(front + doc, moved(m, front.len() as int)) == moved_pull(
            pull(doc, m),
            front.len() as int,
        ),
{
    lemma_pull_moved(front, doc, m);
}

/// The scanner at the start of a document that begins on the given line.
pub open spec fn at_line(line: usize) -> ParserModel {
    ParserModel { line_number: line, ..ParserModel::start() }
}

/// A gap that reaches the end of a document goes on into what follows.
proof fn lemma_gap_leads_on(doc: Seq<u8>, more: Seq<u8>, from: int, line: usize)
    requires
        0 <= from <= doc.len(),
        gap(doc, from, line) is End,
    ensures
        gap(doc + more, from, line) == moved_gap(
            gap(more, 0, gap(doc, from, line)->End_line),
            doc.len() as int,
        ),
    decreases doc.len() - from,
{
    if from < doc.len() {
        assert((doc + more)[from] == doc[from]);
        let b = doc[from];
        if is_blank(b) {
            lemma_gap_leads_on(doc, more, from + 1, line);
        } else if b == LINE_FEED {
            lemma_gap_leads_on(doc, more, from + 1, next_line(line));
        } else if b == CARRIAGE_RETURN {
            assert((doc + more)[from + 1] == doc[from + 1]);
            lemma_gap_leads_on(doc, more, from + 2, next_line(line));
        }
    } else {
        lemma_gap_moved(doc, more, 0, line);
    }
}

proof fn lemma_blank_lines_lead_on(doc: Seq<u8>, more: Seq<u8>, m: ParserModel)
    requires
        m.resumable(),
        inside(m, doc),
        doc.len() + more.len() <= usize::MAX,
        m.state is Normal,
        m.position <= doc.len(),
        pull(doc, m) is End,
    ensures
        pull(doc + more, m) == moved_pull(
            pull(more, at_line(pull(doc, m)->End_parser.line_number)),
            doc.len() as int,
        ),
{
    let by = doc.len() as int;
    lemma_advance_moves_on(doc, m);
    lemma_gap_bounds(doc, m.position, m.line_number);
    let ended = advance(doc, m)->To_0;
    assert(pull(doc, m) == pull(doc, ended));
    lemma_pull_moves_on(doc, ended);
    assert(gap(doc, m.position, m.line_number) is End);
    let line = gap(doc, m.position, m.line_number)->End_line;
    lemma_gap_leads_on(doc, more, m.position, m.line_number);
    let fresh = at_line(line);
    assert(advance(doc + more, m) == moved_step(advance(more, fresh), by));
    lemma_advance_moves_on(more, fresh);
    if let Step::To(next) = advance(more, fresh) {
        lemma_pull_moved(doc, more, next);
    }
}

/// Blank lines lead on to what follows them: where a document holds no
/// further entry and ends in a line feed, a scanner within it reads what
/// is put behind the document as it reads that from its start, counting
/// the lines on. So the entries of the lines of a document come one by
/// one, in order, and a last line that is blank yields none.
pub proof fn law_blank_lines_lead_on(doc: Seq<u8>, more: Seq<u8>, m: ParserModel)
    requires
        m.resumable(),
        inside(m, doc),
        doc.len() + more.len() <= usize::MAX,
        doc.len() > 0 && doc.last() == LINE_FEED,
        (m.state is Normal && m.position <= doc.len()) || (m.state is AfterValue && m.position
            < doc.len()),
        pull(doc, m) is End,
    ensures
        pull(doc + more, m) == moved_pull(
            pull(more, at_line(pull(doc, m)->End_parser.line_number)),
            doc.len() as int,
        ),
{
    if m.state is Normal {
        lemma_blank_lines_lead_on(doc, more, m);
    } else {
        let upto = doc.len() as int;
        lemma_advance_moves_on(doc, m);
        lemma_run_end_bounds(doc, Run::Blank, m.position);
        lemma_run_end_stops(doc, Run::Blank, m.position, upto - 1);
        let next = advance(doc, m)->To_0;
        assert(pull(doc, m) == pull(doc, next));
        lemma_after_value_local(doc, doc + more, m, upto);
        assert(pull(doc + more, m) == pull(doc + more, next));
        lemma_blank_lines_lead_on(doc, more, next);
    }
}

/// Within an entry, the byte in front of the cursor is no line feed,
/// unless a line ending has closed the value.
spec fn behind_ok(doc: Seq<u8>, m: ParserModel) -> bool {
    !m.state.is_resting() ==> (m.state.closing_flags() matches Some(flags) && flags.1) || (1
        <= m.position <= doc.len() && doc[m.position - 1] != LINE_FEED)
}

proof fn lemma_zero_lead_behind(doc: Seq<u8>, m: ParserModel, at: int)
    requires
        0 <= at < doc.len(),
        doc[at] == ZERO,
        doc.len() <= usize::MAX,
    ensures
        zero_lead(doc, m, at) matches Step::To(next) ==> behind_ok(doc, next),
{
}

proof fn lemma_minus_lead_behind(doc: Seq<u8>, m: ParserModel, at: int)
    requires
        0 <= at < doc.len(),
        doc.len() <= usize::MAX,
    ensures
        minus_lead(doc, m, at) matches Step::To(next) ==> behind_ok(doc, next),
{
}

proof fn lemma_name_behind(doc: Seq<u8>, m: ParserModel)
    requires
        m.wf(),
        inside(m, doc),
        behind_ok(doc, m),
        m.state is Normal || m.state is ReadingName || m.state is BeforeEquals,
    ensures
        advance(doc, m) matches Step::To(next) ==> behind_ok(doc, next),
{
    lemma_advance_moves_on(doc, m);
    lemma_gap_bounds(doc, m.position, m.line_number);
    if m.position <= doc.len() {
        lemma_run_end_bounds(doc, Run::Name, m.position);
        lemma_run_end_bounds(doc, Run::Blank, m.position);
    }
}

proof fn lemma_equals_behind(doc: Seq<u8>, m: ParserModel)
    requires
        m.wf(),
        inside(m, doc),
        behind_ok(doc, m),
        m.state is AfterEquals,
    ensures
        advance(doc, m) matches Step::To(next) ==> behind_ok(doc, next),
{
    lemma_advance_moves_on(doc, m);
    lemma_run_end_bounds(doc, Run::Blank, m.position);
    lemma_run_end_holds(doc, Run::Blank, m.position);
    let at = run_end(doc, Run::Blank, m.position);
    if at < doc.len() {
        if at > m.position {
            assert(Run::Blank.holds(doc[at - 1]));
        }
        lemma_minus_lead_behind(doc, m, at);
        if doc[at] == ZERO {
            lemma_zero_lead_behind(doc, m, at);
        }
        if at + 1 < doc.len() && doc[at + 1] == ZERO {
            lemma_zero_lead_behind(doc, m, at + 1);
        }
    }
}

proof fn lemma_text_behind(doc: Seq<u8>, m: ParserModel)
    requires
        m.wf(),
        inside(m, doc),
        behind_ok(doc, m),
        m.state is ReadingString || m.state is ReadingTrue || m.state is ReadingFalse,
    ensures
        advance(doc, m) matches Step::To(next) ==> behind_ok(doc, next),
{
    lemma_advance_moves_on(doc, m);
    lemma_run_end_bounds(doc, Run::Text, m.position);
    let at = m.position;
    if m.state is ReadingTrue && advance(doc, m) is To {
        assert(doc.subrange(at, at + 4)[3] == true_text()[3]);
    }
    if m.state is ReadingFalse && advance(doc, m) is To {
        assert(doc.subrange(at, at + 5)[4] == false_text()[4]);
    }
}

proof fn lemma_number_behind(doc: Seq<u8>, m: ParserModel)
    requires
        m.wf(),
        inside(m, doc),
        behind_ok(doc, m),
        m.state.rank() > 0,
        !m.state.is_resting(),
        m.state.rank() <= 3,
        !(m.state is ReadingString),
        !(m.state is ReadingTrue),
        !(m.state is ReadingFalse),
    ensures
        advance(doc, m) matches Step::To(next) ==> behind_ok(doc, next),
{
    lemma_advance_moves_on(doc, m);
    let radix: u8 = match m.state {
        ParserState::ReadingHexInteger => 16,
        ParserState::ReadingOctalInteger => 8,
        ParserState::ReadingBinaryInteger => 2,
        _ => 10,
    };
    lemma_run_end_bounds(doc, Run::Digits(radix), m.position);
    lemma_run_end_holds(doc, Run::Digits(radix), m.position);
    let end = run_end(doc, Run::Digits(radix), m.position);
    if end > m.position {
        assert(Run::Digits(radix).holds(doc[end - 1]));
    }
}

proof fn lemma_advance_behind(doc: Seq<u8>, m: ParserModel)
    requires
        m.wf(),
        inside(m, doc),
        behind_ok(doc, m),
        m.state.rank() > 0,
    ensures
        advance(doc, m) matches Step::To(next) ==> behind_ok(doc, next),
{
    match m.state {
        ParserState::Normal => lemma_name_behind(doc, m),
        ParserState::AfterValue => {},
        ParserState::ReadingName => lemma_name_behind(doc, m),
        ParserState::BeforeEquals => lemma_name_behind(doc, m),
        ParserState::AfterEquals => lemma_equals_behind(doc, m),
        ParserState::ReadingString => lemma_text_behind(doc, m),
        ParserState::ReadingTrue(_) => lemma_text_behind(doc, m),
        ParserState::ReadingFalse(_) => lemma_text_behind(doc, m),
        _ => lemma_number_behind(doc, m),
    }
}

proof fn lemma_pull_behind(doc: Seq<u8>, m: ParserModel)
    requires
        m.wf(),
        inside(m, doc),
        behind_ok(doc, m),
    ensures
        pull(doc, m) matches Pull::Pair { pair, parser } ==> parser.state is Normal || (1
            <= parser.position <= doc.len() && doc[parser.position - 1] != LINE_FEED),
    decreases m.state.rank(),
{
    if m.state.rank() > 0 {
        lemma_advance_moves_on(doc, m);
        lemma_advance_behind(doc, m);
        if let Step::To(next) = advance(doc, m) {
            lemma_pull_behind(doc, next);
        }
    }
}

/// An entry of a document that ends in a line feed is closed: the pull
/// that yields it leaves the scanner behind a line ending, or in front of
/// more of the document.
pub proof fn lemma_entries_of_whole_lines_are_closed(doc: Seq<u8>, m: ParserModel)
    requires
        m.resumable(),
        inside(m, doc),
        doc.len() > 0 && doc.last() == LINE_FEED,
    ensures
        pull(doc, m) matches Pull::Pair { pair, parser } ==> parser.state is Normal
            || parser.position < doc.len(),
{
    lemma_pull_behind(doc, m);
    lemma_pull_moves_on(doc, m);
}

/// The line on which the scanner stands when the pulls from `m` have come
/// to the end of the document.
pub open spec fn last_line(doc: Seq<u8>, m: ParserModel) -> usize
    decreases doc.len() - m.position,
{
    match pull(doc, m) {
        Pull::Pair { pair, parser } => if m.position < parser.position <= doc.len() {
            last_line(doc, parser)
        } else {
            m.line_number
        },
        Pull::End { parser } => parser.line_number,
        Pull::Fault { .. } => m.line_number,
    }
}

/// The entries `first` and then those that follow, or the fault among
/// those that follow.
pub open spec fn and_then(first: Seq<PairModel>, then: Result<Seq<PairModel>, Faulty>) -> Result<
    Seq<PairModel>,
    Faulty,
> {
    match then {
        Ok(rest) => Ok(first + rest),
        Err(fault) => Err(fault),
    }
}

proof fn lemma_entries_moved(front: Seq<u8>, doc: Seq<u8>, m: ParserModel)
    requires
        m.resumable(),
        inside(m, doc),
        front.len() + doc.len() <= usize::MAX,
    ensures
        entries(front + doc, moved(m, front.len() as int)) == entries(doc, m),
    decreases doc.len() - m.position,
{
    lemma_pull_moved(front, doc, m);
    lemma_pull_moves_on(doc, m);
    if let Pull::Pair { pair, parser } = pull(doc, m) {
        lemma_entries_moved(front, doc, parser);
    }
}

/// Where the pull on a longer document yields what the pull on `more`
/// yields from its start, the entries are the same.
proof fn lemma_entries_follow(doc: Seq<u8>, more: Seq<u8>, m: ParserModel, fresh: ParserModel)
    requires
        fresh.resumable(),
        inside(fresh, more),
        fresh.position == 0,
        0 <= m.position <= doc.len(),
        doc.len() + more.len() <= usize::MAX,
        pull(doc + more, m) == moved_pull(pull(more, fresh), doc.len() as int),
    ensures
        entries(doc + more, m) == entries(more, fresh),
{
    lemma_pull_moves_on(more, fresh);
    if let Pull::Pair { pair, parser } = pull(more, fresh) {
        lemma_entries_moved(doc, more, parser);
    }
}

/// The entries of a document of whole lines and of what follows it are
/// the entries of the one and then those of the other: where `doc` ends in
/// a line feed and is read without fault, the pulls on `doc` with `more`
/// behind it yield the entries of `doc`, in order, and then what the pulls
/// on `more` alone yield from its start, with the lines counted on.
pub proof fn law_entries_come_line_by_line(doc: Seq<u8>, more: Seq<u8>, m: ParserModel)
    requires
        m.resumable(),
        inside(m, doc),
        doc.len() + more.len() <= usize::MAX,
        doc.len() > 0 && doc.last() == LINE_FEED,
        (m.state is Normal && m.position <= doc.len()) || (m.state is AfterValue && m.position
            < doc.len()),
        entries(doc, m) is Ok,
    ensures
        entries(doc + more, m) == and_then(
            entries(doc, m)->Ok_0,
            entries(more, at_line(last_line(doc, m))),
        ),
    decreases doc.len() - m.position,
{
    lemma_pull_moves_on(doc, m);
    match pull(doc, m) {
        Pull::End { parser } => {
            let fresh = at_line(parser.line_number);
            law_blank_lines_lead_on(doc, more, m);
            lemma_entries_follow(doc, more, m, fresh);
            if let Ok(rest) = entries(more, fresh) {
                assert(Seq::<PairModel>::empty() + rest =~= rest);
            }
        },
        Pull::Pair { pair, parser } => {
            lemma_entries_of_whole_lines_are_closed(doc, m);
            law_closed_entry_ignores_what_follows(doc, more, m);
            law_entries_come_line_by_line(doc, more, parser);
            let first = entries(doc, parser)->Ok_0;
            if let Ok(rest) = entries(more, at_line(last_line(doc, m))) {
                assert(seq![pair] + (first + rest) =~= (seq![pair] + first) + rest);
            }
        },
        Pull::Fault { .. } => {},
    }
}

} // verus!
