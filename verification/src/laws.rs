//! What holds of every document: the laws of the scanner and of the table.

use vstd::prelude::*;
use crate::ascii::{
    digit_value, is_blank, is_break, is_digit, EQUALS, MINUS, SPACE, UNDERSCORE, ZERO,
};
use crate::error::ErrorKind;
use crate::grammar::{
    advance, bars_name, closing_at, finish, gap, is_name, pull, run_end, Closing, Gap, Pull, Run,
    Step,
};
use crate::number::{
    decimal_digits, decoded, digits_value, lemma_decimal_digits_are_digits,
    lemma_decimal_digits_value, numeral, without_underscores, Decoded,
};
use crate::pair::{PairModel, ValueModel};
use vstd::utf8::decode_utf8;
use crate::progress::{
    inside, lemma_advance_moves_on, lemma_gap_bounds, lemma_pull_moves_on, low, moved_on,
};
use crate::scan::lemma_run_end_bounds;
use crate::state::{ParserModel, ParserState};
use crate::table::table_of;

verus! {

/// Once a pull has found the end of a document, every later pull, on
/// whatever document, finds the end again and leaves the scanner as it is.
pub proof fn law_end_is_final(doc: Seq<u8>, m: ParserModel, later: Seq<u8>)
    requires
        m.resumable(),
        inside(m, doc),
        pull(doc, m) is End,
    ensures
        pull(later, pull(doc, m)->End_parser) == pull(doc, m),
{
    lemma_pull_moves_on(doc, m);
}

/// A run ends where a byte that is not of the run stands, or before.
pub proof fn lemma_run_end_stops(doc: Seq<u8>, run: Run, from: int, stop: int)
    requires
        0 <= from <= stop < doc.len(),
        !run.holds(doc[stop]),
    ensures
        run_end(doc, run, from) <= stop,
    decreases stop - from,
{
    if from < stop && run.holds(doc[from]) {
        lemma_run_end_stops(doc, run, from + 1, stop);
    }
}

/// The bytes of a run are of the run, and the byte at its end is not.
pub proof fn lemma_run_end_holds(doc: Seq<u8>, run: Run, from: int)
    requires
        0 <= from <= doc.len(),
    ensures
        forall|i: int| from <= i < run_end(doc, run, from) ==> run.holds(#[trigger] doc[i]),
        run_end(doc, run, from) < doc.len() ==> !run.holds(doc[run_end(doc, run, from)]),
    decreases doc.len() - from,
{
    if from < doc.len() && run.holds(doc[from]) {
        lemma_run_end_holds(doc, run, from + 1);
    }
}

/// A name that a line ending cuts short is at fault: where a name begins
/// at `start` and a line ending stands at `stop` with no `=` between the
/// two, the pull fails with `InvalidName` on the line of the name.
pub proof fn law_broken_name_is_invalid(doc: Seq<u8>, m: ParserModel, start: int, stop: int)
    requires
        m.resumable(),
        m.state is Normal,
        inside(m, doc),
        gap(doc, m.position, m.line_number) matches Gap::Name { at, line } && at == start,
        start < stop < doc.len(),
        is_break(doc[stop]),
        forall|i: int| start <= i < stop ==> doc[i] != EQUALS,
    ensures
        pull(doc, m) == (Pull::Fault {
            kind: ErrorKind::InvalidName(gap(doc, m.position, m.line_number)->Name_line),
            source: None,
        }),
{
    lemma_gap_bounds(doc, m.position, m.line_number);
    let line = gap(doc, m.position, m.line_number)->Name_line;
    let named = advance(doc, m)->To_0;
    assert(pull(doc, m) == pull(doc, named));
    let end = run_end(doc, Run::Name, start + 1);
    lemma_run_end_bounds(doc, Run::Name, start + 1);
    lemma_run_end_stops(doc, Run::Name, start + 1, stop);
    lemma_run_end_holds(doc, Run::Name, start + 1);
    if is_blank(doc[end]) {
        let closed = advance(doc, named)->To_0;
        assert(pull(doc, named) == pull(doc, closed));
        let at = run_end(doc, Run::Blank, end + 1);
        lemma_run_end_bounds(doc, Run::Blank, end + 1);
        lemma_run_end_stops(doc, Run::Blank, end + 1, stop);
        assert(advance(doc, closed) == Step::Fault(ErrorKind::InvalidName(line)));
    } else {
        assert(advance(doc, named) == Step::Fault(ErrorKind::InvalidName(line)));
    }
}

/// Underscores do not change what a run of digits stands for.
pub proof fn law_underscores_are_skipped(digits: Seq<u8>, radix: int)
    ensures
        digits_value(without_underscores(digits), radix) == digits_value(digits, radix),
    decreases digits.len(),
{
    if digits.len() > 0 {
        law_underscores_are_skipped(digits.drop_last(), radix);
        if digits.last() != UNDERSCORE {
            let kept = without_underscores(digits.drop_last());
            assert(kept.push(digits.last()).drop_last() =~= kept);
        }
    }
}

/// A table holds a name if and only if some entry bears it.
pub proof fn law_table_holds_the_names(pairs: Seq<PairModel>, name: Seq<char>)
    ensures
        table_of(pairs).contains_key(name) <==> exists|i: int|
            0 <= i < pairs.len() && #[trigger] pairs[i].name == name,
    decreases pairs.len(),
{
    if pairs.len() > 0 {
        let front = pairs.drop_last();
        law_table_holds_the_names(front, name);
        if table_of(pairs).contains_key(name) {
            if pairs.last().name == name {
                assert(pairs[pairs.len() - 1].name == name);
            } else {
                let i = choose|i: int| 0 <= i < front.len() && #[trigger] front[i].name == name;
                assert(pairs[i].name == name);
            }
        }
        if exists|i: int| 0 <= i < pairs.len() && #[trigger] pairs[i].name == name {
            let i = choose|i: int| 0 <= i < pairs.len() && #[trigger] pairs[i].name == name;
            if i < front.len() {
                assert(front[i].name == name);
            }
        }
    }
}

/// Where a name occurs more than once, the table keeps the value of the
/// last entry that bears it.
pub proof fn law_last_value_wins(pairs: Seq<PairModel>, last: int)
    requires
        0 <= last < pairs.len(),
        forall|later: int| last < later < pairs.len() ==> pairs[later].name != pairs[last].name,
    ensures
        table_of(pairs).contains_key(pairs[last].name),
        table_of(pairs)[pairs[last].name] == pairs[last].value,
    decreases pairs.len(),
{
    if last < pairs.len() - 1 {
        let front = pairs.drop_last();
        assert(front[last] == pairs[last]);
        assert forall|later: int| last < later < front.len() implies front[later].name
            != front[last].name by {
            assert(front[later] == pairs[later]);
        }
        law_last_value_wins(front, last);
        assert(pairs.last().name != pairs[last].name);
    }
}

/// A run that is followed by bytes of its own kind up to `end`, and by no
/// such byte there, ends at `end`.
pub proof fn lemma_run_end_is(doc: Seq<u8>, run: Run, from: int, end: int)
    requires
        0 <= from <= end <= doc.len(),
        forall|i: int| from <= i < end ==> run.holds(#[trigger] doc[i]),
        end < doc.len() ==> !run.holds(doc[end]),
    ensures
        run_end(doc, run, from) == end,
    decreases end - from,
{
    if from < end {
        assert(run.holds(doc[from]));
        lemma_run_end_is(doc, run, from + 1, end);
    }
}

/// The document that holds the one entry `name = text`, without a line ending.
pub open spec fn one_entry(name: Seq<u8>, text: Seq<u8>) -> Seq<u8> {
    name + seq![SPACE, EQUALS, SPACE] + text
}

/// On a document that holds one entry, a scanner at the start comes to the
/// first byte of the value with the name in hand.
proof fn lemma_one_entry_name(name: Seq<u8>, text: Seq<u8>) -> (at_value: ParserModel)
    requires
        is_name(name),
        text.len() > 0,
        !is_blank(text[0]),
    ensures
        pull(one_entry(name, text), ParserModel::start()) == pull(one_entry(name, text), at_value),
        at_value == (ParserModel {
            state: ParserState::AfterEquals,
            position: name.len() as int + 2,
            name_start: Some(0),
            name_end: Some(name.len() as int),
            ..ParserModel::start()
        }),
        run_end(one_entry(name, text), Run::Blank, name.len() as int + 2) == name.len() + 3,
{
    let doc = one_entry(name, text);
    let n = name.len() as int;
    assert(doc.len() == n + 3 + text.len());
    assert forall|i: int| 0 <= i < n implies doc[i] == name[i] by {}
    assert(doc[n] == SPACE && doc[n + 1] == EQUALS && doc[n + 2] == SPACE);
    assert(doc[n + 3] == text[0]);
    let m0 = ParserModel::start();
    assert(Run::Name.holds(name[0]));
    assert(gap(doc, 0, 1) == Gap::Name { at: 0, line: 1 });
    let m1 = ParserModel {
        state: ParserState::ReadingName,
        position: 1,
        name_start: Some(0),
        ..m0
    };
    assert(advance(doc, m0) == Step::To(m1));
    assert(pull(doc, m0) == pull(doc, m1));
    assert forall|i: int| 1 <= i < n implies Run::Name.holds(#[trigger] doc[i]) by {
        assert(Run::Name.holds(name[i]));
    }
    lemma_run_end_is(doc, Run::Name, 1, n);
    let m2 = ParserModel {
        state: ParserState::BeforeEquals,
        position: n + 1,
        name_end: Some(n),
        ..m1
    };
    assert(advance(doc, m1) == Step::To(m2));
    assert(pull(doc, m1) == pull(doc, m2));
    lemma_run_end_is(doc, Run::Blank, n + 1, n + 1);
    let m3 = ParserModel { state: ParserState::AfterEquals, position: n + 2, ..m2 };
    assert(advance(doc, m2) == Step::To(m3));
    assert(pull(doc, m2) == pull(doc, m3));
    lemma_run_end_is(doc, Run::Blank, n + 2, n + 3);
    m3
}

/// The scanner after the only entry of a document of the given length.
pub open spec fn at_end(length: int) -> ParserModel {
    ParserModel { state: ParserState::EndOfFile, position: length, ..ParserModel::start() }
}

/// A decimal integer is read back as it was written: on the document
/// `name = n`, where `n` is the decimal numeral of an integer that an
/// `i64` can hold, the first pull yields the entry of that name and that
/// integer, and leaves the scanner at the end.
pub proof fn law_decimal_integer_is_read_back(name: Seq<u8>, n: i64)
    requires
        is_name(name),
    ensures
        pull(one_entry(name, numeral(n as int)), ParserModel::start()) == (Pull::Pair {
            pair: PairModel { name: decode_utf8(name), value: ValueModel::Integer(n) },
            parser: at_end(one_entry(name, numeral(n as int)).len() as int),
        }),
{
    let text = numeral(n as int);
    let doc = one_entry(name, text);
    let k = name.len() as int;
    let magnitude: nat = if n < 0 {
        (-n) as nat
    } else {
        n as nat
    };
    let digits = decimal_digits(magnitude);
    lemma_decimal_digits_are_digits(magnitude);
    lemma_decimal_digits_value(magnitude);
    assert(text[0] == if n < 0 {
        MINUS
    } else {
        digits[0]
    });
    let m3 = lemma_one_entry_name(name, text);
    assert(doc.len() == k + 3 + text.len());
    assert forall|i: int| 0 <= i < text.len() implies doc[k + 3 + i] == text[i] by {}
    assert(doc.subrange(0, k) =~= name);
    let first = if n < 0 {
        k + 4
    } else {
        k + 3
    };
    assert(doc.subrange(first, doc.len() as int) =~= digits);
    assert forall|i: int| first <= i < doc.len() implies Run::Digits(10).holds(
        #[trigger] doc[i],
    ) by {
        assert(doc[i] == digits[i - first]);
        assert(is_digit(digits[i - first]));
    }
    assert(doc[first] == digits[0]);
    if n == 0 {
        assert(digits =~= seq![ZERO]);
        let m4 = ParserModel {
            state: ParserState::FinishedInteger(true, false),
            position: k + 4,
            value_start: Some(k + 3),
            value_end: Some(k + 4),
            ..m3
        };
        assert(advance(doc, m3) == Step::To(m4));
        assert(pull(doc, m3) == pull(doc, m4));
        assert(pull(doc, m4) == finish(doc, m4));
    } else {
        let m4 = ParserModel {
            state: if n < 0 {
                ParserState::ReadingNegativeInteger
            } else {
                ParserState::ReadingInteger
            },
            position: first + 1,
            value_start: Some(first),
            ..m3
        };
        assert(advance(doc, m3) == Step::To(m4));
        assert(pull(doc, m3) == pull(doc, m4));
        lemma_run_end_is(doc, Run::Digits(10), first + 1, doc.len() as int);
        let m5 = ParserModel {
            state: if n < 0 {
                ParserState::FinishedNegativeInteger(true, false)
            } else {
                ParserState::FinishedInteger(true, false)
            },
            position: doc.len() as int,
            value_end: Some(doc.len() as int),
            ..m4
        };
        assert(closing_at(doc, doc.len() as int) == Closing::Closed {
            eof: true,
            eol: false,
            next: doc.len() as int,
        });
        assert(advance(doc, m4) == Step::To(m5));
        assert(pull(doc, m4) == pull(doc, m5));
        assert(pull(doc, m5) == finish(doc, m5));
        assert(decoded(digits, 10, n < 0) == Decoded::Value(n));
    }
}

/// Zero with a minus sign is zero: on the document `name = -0` the first
/// pull yields the entry of that name and the integer 0.
pub proof fn law_signed_zero_is_zero(name: Seq<u8>)
    requires
        is_name(name),
    ensures
        pull(one_entry(name, seq![MINUS, ZERO]), ParserModel::start()) == (Pull::Pair {
            pair: PairModel { name: decode_utf8(name), value: ValueModel::Integer(0) },
            parser: at_end(one_entry(name, seq![MINUS, ZERO]).len() as int),
        }),
{
    let text = seq![MINUS, ZERO];
    let doc = one_entry(name, text);
    let k = name.len() as int;
    let m3 = lemma_one_entry_name(name, text);
    assert(doc.len() == k + 5);
    assert(doc[k + 3] == MINUS && doc[k + 4] == ZERO);
    assert(doc.subrange(0, k) =~= name);
    assert(doc.subrange(k + 4, k + 5) =~= seq![ZERO]);
    let m4 = ParserModel {
        state: ParserState::FinishedInteger(true, false),
        position: k + 5,
        value_start: Some(k + 4),
        value_end: Some(k + 5),
        ..m3
    };
    assert(advance(doc, m3) == Step::To(m4));
    assert(pull(doc, m3) == pull(doc, m4));
    assert(pull(doc, m4) == finish(doc, m4));
    let zero = seq![ZERO];
    assert(zero.drop_last() =~= Seq::<u8>::empty());
    assert(digits_value(zero.drop_last(), 10) == Some(0int));
    assert(zero.last() == ZERO);
    assert(digit_value(ZERO, 10) == Some(0int));
    assert(digits_value(zero, 10) == Some(0int));
    assert(decoded(seq![ZERO], 10, false) == Decoded::Value(0));
}

/// What the scanner has read of a name so far can stand in a name.
spec fn clean(doc: Seq<u8>, m: ParserModel) -> bool {
    match (m.name_start, m.name_end) {
        (Some(from), Some(to)) => 0 <= from < to <= doc.len() && is_name(doc.subrange(from, to)),
        (Some(from), None) => 0 <= from < m.position <= doc.len() && !bars_name(doc[from])
            && forall|i: int| from <= i < m.position ==> Run::Name.holds(#[trigger] doc[i]),
        _ => true,
    }
}

proof fn lemma_advance_keeps_clean(doc: Seq<u8>, m: ParserModel)
    requires
        m.wf(),
        inside(m, doc),
        clean(doc, m),
        m.state.rank() > 0,
    ensures
        advance(doc, m) matches Step::To(next) ==> clean(doc, next) && moved_on(doc, m, next),
{
    lemma_advance_moves_on(doc, m);
    if let Step::To(next) = advance(doc, m) {
        if m.state is Normal {
            lemma_gap_bounds(doc, m.position, m.line_number);
        } else if m.state is ReadingName {
            let from = m.name_start->0;
            let to = next.name_end->0;
            lemma_run_end_bounds(doc, Run::Name, m.position);
            lemma_run_end_holds(doc, Run::Name, m.position);
            assert forall|i: int| 0 <= i < to - from implies Run::Name.holds(
                #[trigger] doc.subrange(from, to)[i],
            ) by {
                assert(Run::Name.holds(doc[from + i]));
            }
        }
    }
}

proof fn lemma_pull_names(doc: Seq<u8>, m: ParserModel)
    requires
        m.wf(),
        inside(m, doc),
        clean(doc, m),
    ensures
        pull(doc, m) matches Pull::Pair { pair, parser } ==> exists|from: int, to: int|
            low(m) <= from < to <= doc.len() && is_name(#[trigger] doc.subrange(from, to))
                && pair.name == decode_utf8(doc.subrange(from, to)),
    decreases m.state.rank(),
{
    if m.state.rank() > 0 {
        lemma_advance_keeps_clean(doc, m);
        if let Step::To(next) = advance(doc, m) {
            lemma_pull_names(doc, next);
        }
    } else if pull(doc, m) is Pair {
        let from = m.name_start->0;
        let to = m.name_end->0;
        assert(low(m) <= from < to <= doc.len() && is_name(doc.subrange(from, to)));
    }
}

/// The name of every entry is a piece of the document that lies behind the
/// cursor from which it was pulled, and can stand as a name: it is not
/// empty and holds no `=`, no whitespace and no line ending.
pub proof fn law_names_are_clean(doc: Seq<u8>, m: ParserModel)
    requires
        m.resumable(),
        inside(m, doc),
    ensures
        pull(doc, m) matches Pull::Pair { pair, parser } ==> exists|from: int, to: int|
            m.position <= from < to <= doc.len() && is_name(#[trigger] doc.subrange(from, to))
                && pair.name == decode_utf8(doc.subrange(from, to)),
{
    lemma_pull_names(doc, m);
}

} // verus!
