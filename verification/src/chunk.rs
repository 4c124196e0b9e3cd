//! Summarising a window of whole records, and why a file may be cut into such
//! windows at will.

use vstd::prelude::*;
use crate::align::{is_boundary, NEWLINE};
use crate::record::{
    find_byte, followed_by, parse_from, parse_line, parse_record, parse_window, run_len, tenths,
    ParseError, Reading, SEPARATOR,
};
use crate::stat::Tally;
use crate::summary::{merged, noted, Summary};

verus! {

/// The summary of a sequence of readings: each key with the tally of its values.
pub open spec fn summarize(readings: Seq<Reading>) -> Map<Seq<u8>, Tally>
    decreases readings.len(),
{
    if readings.len() == 0 {
        Map::empty()
    } else {
        noted(summarize(readings.drop_last()), readings.last().key, readings.last().value)
    }
}

/// How many of the readings are of `key`.
pub open spec fn occurrences(readings: Seq<Reading>, key: Seq<u8>) -> nat
    decreases readings.len(),
{
    if readings.len() == 0 {
        0
    } else {
        occurrences(readings.drop_last(), key) + if readings.last().key == key {
            1nat
        } else {
            0nat
        }
    }
}

/// What two windows give one after the other: the readings of both, or the first
/// fault.
pub open spec fn chained(
    first: Result<Seq<Reading>, ParseError>,
    second: Result<Seq<Reading>, ParseError>,
) -> Result<Seq<Reading>, ParseError> {
    match first {
        Ok(readings) => followed_by(readings, second),
        Err(e) => Err(e),
    }
}

/// A summary counts each key as often as it was read: a key is in the summary just
/// when a reading has it, and its count is the number of those readings.
pub proof fn lemma_counts(readings: Seq<Reading>, key: Seq<u8>)
    ensures
        summarize(readings).contains_key(key) <==> occurrences(readings, key) > 0,
        summarize(readings).contains_key(key) ==> summarize(readings)[key].count == occurrences(
            readings,
            key,
        ),
    decreases readings.len(),
{
    if readings.len() > 0 {
        lemma_counts(readings.drop_last(), key);
    }
}

/// Every tally of a summary is that of a non-empty bag.
pub proof fn lemma_summarize_wf(readings: Seq<Reading>, key: Seq<u8>)
    requires
        summarize(readings).contains_key(key),
    ensures
        summarize(readings)[key].wf(),
    decreases readings.len(),
{
    if readings.len() > 0 {
        let before = summarize(readings.drop_last());
        let last = readings.last();
        if before.contains_key(key) {
            lemma_summarize_wf(readings.drop_last(), key);
            if last.key == key {
                crate::stat::lemma_with_wf(before[key], last.value);
            }
        } else {
            assert(1 * last.value == last.value) by (nonlinear_arith);
        }
    }
}

/// One more reading may be noted before or after a merge.
proof fn lemma_noted_merged(
    a: Map<Seq<u8>, Tally>,
    b: Map<Seq<u8>, Tally>,
    key: Seq<u8>,
    value: int,
)
    ensures
        noted(merged(a, b), key, value) == merged(a, noted(b, key, value)),
{
    assert(noted(merged(a, b), key, value) =~= merged(a, noted(b, key, value)));
}

/// Partitioning does not matter. The summary of two runs of readings, one
/// after the other, is the merge of the summaries of each.
pub proof fn lemma_summarize_concat(a: Seq<Reading>, b: Seq<Reading>)
    ensures
        summarize(a + b) == merged(summarize(a), summarize(b)),
    decreases b.len(),
{
    if b.len() == 0 {
        assert(a + b == a);
        assert(merged(summarize(a), summarize(b)) =~= summarize(a));
    } else {
        lemma_summarize_concat(a, b.drop_last());
        assert((a + b).drop_last() == a + b.drop_last());
        assert((a + b).last() == b.last());
        lemma_noted_merged(summarize(a), summarize(b.drop_last()), b.last().key, b.last().value);
    }
}

/// Merging summaries is commutative.
pub proof fn lemma_merged_commutative(a: Map<Seq<u8>, Tally>, b: Map<Seq<u8>, Tally>)
    ensures
        merged(a, b) == merged(b, a),
{
    assert(merged(a, b) =~= merged(b, a));
}

/// Merging summaries is associative.
pub proof fn lemma_merged_associative(
    a: Map<Seq<u8>, Tally>,
    b: Map<Seq<u8>, Tally>,
    c: Map<Seq<u8>, Tally>,
)
    ensures
        merged(merged(a, b), c) == merged(a, merged(b, c)),
{
    assert(merged(merged(a, b), c) =~= merged(a, merged(b, c)));
}

/// A run of bytes that ends before the end of the first part is the same in the
/// first part alone.
proof fn lemma_run_len_prefix(a: Seq<u8>, b: Seq<u8>, pos: int, stop: u8)
    requires
        0 <= pos < a.len(),
        a.last() == stop,
    ensures
        run_len(a + b, pos, stop) == run_len(a, pos, stop),
        pos + run_len(a, pos, stop) < a.len(),
    decreases a.len() - pos,
{
    assert((a + b)[pos] == a[pos]);
    if a[pos] != stop {
        lemma_run_len_prefix(a, b, pos + 1, stop);
    }
}

/// A run of bytes in the second part is the same in the second part alone.
proof fn lemma_run_len_suffix(a: Seq<u8>, b: Seq<u8>, pos: int, stop: u8)
    requires
        0 <= pos,
    ensures
        run_len(a + b, a.len() + pos, stop) == run_len(b, pos, stop),
        pos + run_len(b, pos, stop) <= b.len() || pos >= b.len(),
    decreases b.len() - pos,
{
    if pos < b.len() {
        assert((a + b)[a.len() + pos] == b[pos]);
        if b[pos] != stop {
            lemma_run_len_suffix(a, b, pos + 1, stop);
        }
    }
}

/// The lines of the second part read the same behind any first part.
proof fn lemma_parse_suffix(a: Seq<u8>, b: Seq<u8>, pos: int)
    requires
        0 <= pos,
    ensures
        parse_from(a + b, a.len() + pos) == parse_from(b, pos),
    decreases b.len() - pos,
{
    if pos < b.len() {
        lemma_run_len_suffix(a, b, pos, NEWLINE);
        let n = run_len(b, pos, NEWLINE) as int;
        if n <= 0 {
            lemma_parse_suffix(a, b, pos + 1);
        } else {
            assert((a + b).subrange(a.len() + pos, a.len() + pos + n) == b.subrange(pos, pos + n));
            if pos + n + 1 <= b.len() {
                lemma_parse_suffix(a, b, pos + n + 1);
            }
        }
    }
}

/// Joining readings is associative, through a fault too.
proof fn lemma_followed_chained(
    r: Reading,
    x: Result<Seq<Reading>, ParseError>,
    y: Result<Seq<Reading>, ParseError>,
)
    ensures
        followed_by(seq![r], chained(x, y)) == chained(followed_by(seq![r], x), y),
{
    if let Ok(xs) = x {
        if let Ok(ys) = y {
            assert(seq![r] + (xs + ys) == (seq![r] + xs) + ys);
        }
    }
}

proof fn lemma_parse_prefix(a: Seq<u8>, b: Seq<u8>, pos: int)
    requires
        0 <= pos <= a.len(),
        a.len() == 0 || a.last() == NEWLINE,
    ensures
        parse_from(a + b, pos) == chained(parse_from(a, pos), parse_from(b, 0)),
    decreases a.len() - pos,
{
    let rest = parse_from(b, 0);
    if pos == a.len() {
        lemma_parse_suffix(a, b, 0);
        if let Ok(more) = rest {
            assert(Seq::<Reading>::empty() + more == more);
        }
    } else {
        lemma_run_len_prefix(a, b, pos, NEWLINE);
        let n = run_len(a, pos, NEWLINE) as int;
        if n <= 0 {
            lemma_parse_prefix(a, b, pos + 1);
        } else {
            assert((a + b).subrange(pos, pos + n) == a.subrange(pos, pos + n));
            lemma_parse_prefix(a, b, pos + n + 1);
            if let Ok(r) = parse_line(a.subrange(pos, pos + n)) {
                lemma_followed_chained(r, parse_from(a, pos + n + 1), rest);
            }
        }
    }
}

/// Cutting at a record boundary loses nothing and repeats nothing. Where the first
/// of two windows is empty or ends in a newline, the two read one after the other
/// as they read joined: the readings of the first, then those of the second, or
/// the first fault.
pub proof fn lemma_parse_concat(a: Seq<u8>, b: Seq<u8>)
    requires
        a.len() == 0 || a.last() == NEWLINE,
    ensures
        parse_window(a + b) == chained(parse_window(a), parse_window(b)),
{
    lemma_parse_prefix(a, b, 0);
}

/// Nothing is lost at a cut. A file cut at a record boundary into two windows that
/// both read without fault gives, window by window, every reading of the whole
/// exactly once: their numbers add up, in all and for each key, and the merge of
/// the two summaries is the summary of the whole.
pub proof fn lemma_coverage(data: Seq<u8>, cut: int, key: Seq<u8>)
    requires
        is_boundary(data, cut),
        parse_window(data.take(cut)) is Ok,
        parse_window(data.skip(cut)) is Ok,
    ensures
        parse_window(data) is Ok,
        parse_window(data)->Ok_0 == parse_window(data.take(cut))->Ok_0 + parse_window(
            data.skip(cut),
        )->Ok_0,
        parse_window(data)->Ok_0.len() == parse_window(data.take(cut))->Ok_0.len() + parse_window(
            data.skip(cut),
        )->Ok_0.len(),
        occurrences(parse_window(data)->Ok_0, key) == occurrences(
            parse_window(data.take(cut))->Ok_0,
            key,
        ) + occurrences(parse_window(data.skip(cut))->Ok_0, key),
        summarize(parse_window(data)->Ok_0) == merged(
            summarize(parse_window(data.take(cut))->Ok_0),
            summarize(parse_window(data.skip(cut))->Ok_0),
        ),
{
    assert(data.take(cut) + data.skip(cut) == data);
    lemma_parse_concat(data.take(cut), data.skip(cut));
    let a = parse_window(data.take(cut))->Ok_0;
    let b = parse_window(data.skip(cut))->Ok_0;
    lemma_summarize_concat(a, b);
    lemma_occurrences_concat(a, b, key);
}

/// The readings of a key in two runs add up.
pub proof fn lemma_occurrences_concat(a: Seq<Reading>, b: Seq<Reading>, key: Seq<u8>)
    ensures
        occurrences(a + b, key) == occurrences(a, key) + occurrences(b, key),
    decreases b.len(),
{
    if b.len() == 0 {
        assert(a + b == a);
    } else {
        lemma_occurrences_concat(a, b.drop_last(), key);
        assert((a + b).drop_last() == a + b.drop_last());
        assert((a + b).last() == b.last());
    }
}

/// A line without a `;` is a fault.
pub proof fn lemma_missing_separator(line: Seq<u8>)
    requires
        forall|i: int| 0 <= i < line.len() ==> line[i] != SEPARATOR,
    ensures
        parse_line(line) == Err::<Reading, ParseError>(ParseError::MissingSeparator),
{
    lemma_run_to_end(line, 0, SEPARATOR);
}

/// A line whose value is no number in the accepted form is a fault.
pub proof fn lemma_invalid_number(line: Seq<u8>)
    requires
        run_len(line, 0, SEPARATOR) < line.len(),
        tenths(line.skip(run_len(line, 0, SEPARATOR) as int + 1)) is None,
    ensures
        parse_line(line) == Err::<Reading, ParseError>(ParseError::InvalidNumber),
{
}

/// A faulty line is fatal wherever it stands. A window that holds, from a record
/// boundary on, a line that does not read as a record does not read as a whole,
/// whatever stands before and behind the line.
pub proof fn lemma_fault_is_fatal(before: Seq<u8>, line: Seq<u8>, after: Seq<u8>)
    requires
        before.len() == 0 || before.last() == NEWLINE,
        line.len() > 0,
        forall|i: int| 0 <= i < line.len() ==> line[i] != NEWLINE,
        parse_line(line) is Err,
    ensures
        parse_window(before + (line + seq![NEWLINE] + after)) is Err,
{
    let tail = line + seq![NEWLINE] + after;
    lemma_parse_concat(before, tail);
    lemma_run_stops(tail, 0, line.len() as int, NEWLINE);
    assert(tail.subrange(0, line.len() as int) == line);
}

/// A run ends at the first `stop`.
proof fn lemma_run_stops(data: Seq<u8>, pos: int, at: int, stop: u8)
    requires
        0 <= pos <= at < data.len(),
        data[at] == stop,
        forall|i: int| pos <= i < at ==> data[i] != stop,
    ensures
        pos + run_len(data, pos, stop) == at,
    decreases at - pos,
{
    if pos < at {
        lemma_run_stops(data, pos + 1, at, stop);
    }
}

proof fn lemma_run_to_end(data: Seq<u8>, pos: int, stop: u8)
    requires
        0 <= pos <= data.len(),
        forall|i: int| pos <= i < data.len() ==> data[i] != stop,
    ensures
        pos + run_len(data, pos, stop) == data.len(),
    decreases data.len() - pos,
{
    if pos < data.len() {
        lemma_run_to_end(data, pos + 1, stop);
    }
}

/// A window gives at most as many readings as it has bytes from `pos` on.
pub proof fn lemma_readings_fit(data: Seq<u8>, pos: int)
    requires
        0 <= pos,
    ensures
        parse_from(data, pos) matches Ok(readings) ==> pos + readings.len() <= data.len()
            || readings.len() == 0,
    decreases data.len() - pos,
{
    if pos < data.len() {
        let n = run_len(data, pos, NEWLINE) as int;
        lemma_run_len_suffix(Seq::<u8>::empty(), data, pos, NEWLINE);
        if n <= 0 {
            lemma_readings_fit(data, pos + 1);
        } else if pos + n + 1 <= data.len() {
            lemma_readings_fit(data, pos + n + 1);
        }
    }
}

/// Summarises a window of lines.
///
/// Each line that is not empty must read as a record; the first that does not
/// ends the work with its fault. Otherwise every key of the window comes out with
/// the tally of its values.
pub fn accumulate(window: &[u8]) -> (r: Result<Summary, ParseError>)
    ensures
        match parse_window(window@) {
            Ok(readings) => {
                &&& r is Ok
                &&& r->Ok_0.wf()
                &&& r->Ok_0@ == summarize(readings)
                &&& r->Ok_0.spec_total() == readings.len()
                &&& readings.len() <= window.len()
            },
            Err(e) => r is Err && r->Err_0 == e,
        },
{
    let mut summary = Summary::new();
    let ghost mut done: Seq<Reading> = Seq::empty();
    let mut pos: usize = 0;
    proof {
        if let Ok(more) = parse_from(window@, 0) {
            assert(done + more == more);
        }
    }
    while pos < window.len()
        invariant
            pos <= window.len(),
            summary.wf(),
            summary@ == summarize(done),
            summary.spec_total() == done.len(),
            done.len() <= pos,
            parse_window(window@) == followed_by(done, parse_from(window@, pos as int)),
        decreases window.len() - pos,
    {
        let end = find_byte(window, pos, NEWLINE);
        let next: usize = if end < window.len() { end + 1 } else { end };
        if end > pos {
            let line = vstd::slice::slice_subrange(window, pos, end);
            match parse_record(line) {
                Err(e) => {
                    return Err(e);
                },
                Ok((at, value)) => {
                    let key = vstd::slice::slice_subrange(line, 0, at);
                    let ghost reading = Reading { key: key@, value: value as int };
                    proof {
                        assert(line@.take(at as int) == key@);
                        assert(parse_line(line@) == Ok::<Reading, ParseError>(reading));
                        let rest = if end + 1 <= window.len() {
                            parse_from(window@, end + 1)
                        } else {
                            Ok(Seq::empty())
                        };
                        assert(rest == parse_from(window@, next as int));
                        assert(parse_from(window@, pos as int) == followed_by(seq![reading], rest));
                        if let Ok(more) = rest {
                            assert(done + (seq![reading] + more) == done.push(reading) + more);
                        }
                        assert(done.push(reading).drop_last() == done);
                    }
                    summary.record(key, value);
                    proof {
                        done = done.push(reading);
                    }
                },
            }
        }
        pos = next;
    }
    proof {
        assert(done + Seq::<Reading>::empty() == done);
    }
    Ok(summary)
}

} // verus!
