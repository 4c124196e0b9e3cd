//! The text of a record: `key;value`, the value a decimal number with at most one
//! digit behind the point, read as a whole number of tenths.

use vstd::prelude::*;
use crate::align::NEWLINE;

verus! {

/// The byte between a record's key and its value.
pub const SEPARATOR: u8 = 59;

/// Why a window of records could not be taken in.
#[derive(Clone, Copy, Debug, PartialEq, Eq, Structural)]
pub enum ParseError {
    /// A line holds no `;`.
    MissingSeparator,
    /// What follows the `;` is not a number in the accepted form.
    InvalidNumber,
    /// A key is not valid UTF-8.
    InvalidKeyEncoding,
}

/// One record as it was read: the bytes of its key and its value in tenths.
pub struct Reading {
    pub key: Seq<u8>,
    pub value: int,
}

pub open spec fn is_digit(b: u8) -> bool {
    48 <= b <= 57
}

pub open spec fn all_digits(s: Seq<u8>) -> bool {
    forall|i: int| 0 <= i < s.len() ==> is_digit(#[trigger] s[i])
}

/// The number that a run of decimal digits writes.
pub open spec fn digits_value(s: Seq<u8>) -> nat
    decreases s.len(),
{
    if s.len() == 0 {
        0
    } else {
        (digits_value(s.drop_last()) * 10 + (s.last() - 48)) as nat
    }
}

/// The tenths that an unsigned number writes: one or more digits, then nothing
/// more or a point and exactly one digit.
pub open spec fn unsigned_tenths(body: Seq<u8>) -> Option<nat> {
    let n = body.len() as int;
    if n >= 3 && body[n - 2] == 46 {
        if all_digits(body.take(n - 2)) && is_digit(body[n - 1]) {
            Some((digits_value(body.take(n - 2)) * 10 + (body[n - 1] - 48)) as nat)
        } else {
            None
        }
    } else if n >= 1 && all_digits(body) {
        Some(digits_value(body) * 10)
    } else {
        None
    }
}

/// The value in tenths that a record's number writes, where it is in the accepted
/// form (an optional `+` or `-`, then an unsigned number) and no greater in size
/// than the greatest 64-bit integer.
pub open spec fn tenths(text: Seq<u8>) -> Option<int> {
    let negative = text.len() > 0 && text[0] == 45;
    let signed = text.len() > 0 && (text[0] == 45 || text[0] == 43);
    let body = if signed { text.skip(1) } else { text };
    match unsigned_tenths(body) {
        Some(m) => if m <= i64::MAX {
            Some(if negative { -(m as int) } else { m as int })
        } else {
            None
        },
        None => None,
    }
}

/// How many bytes from `pos` on come before the first `stop`, or before the end.
pub open spec fn run_len(data: Seq<u8>, pos: int, stop: u8) -> nat
    decreases data.len() - pos,
{
    if pos < 0 || pos >= data.len() || data[pos] == stop {
        0
    } else {
        1 + run_len(data, pos + 1, stop)
    }
}

/// What one line says: the bytes before its first `;` are the key, those behind it
/// the value.
pub open spec fn parse_line(line: Seq<u8>) -> Result<Reading, ParseError> {
    let at = run_len(line, 0, SEPARATOR) as int;
    if at >= line.len() {
        Err(ParseError::MissingSeparator)
    } else {
        match tenths(line.skip(at + 1)) {
            Some(value) => Ok(Reading { key: line.take(at), value }),
            None => Err(ParseError::InvalidNumber),
        }
    }
}

/// Readings followed by what the rest gave.
pub open spec fn followed_by(done: Seq<Reading>, rest: Result<Seq<Reading>, ParseError>) -> Result<
    Seq<Reading>,
    ParseError,
> {
    match rest {
        Ok(more) => Ok(done + more),
        Err(e) => Err(e),
    }
}

/// The readings of the lines of `data` from `pos` on, in order, empty lines passed
/// over; or the fault of the first line that has one.
pub open spec fn parse_from(data: Seq<u8>, pos: int) -> Result<Seq<Reading>, ParseError>
    decreases data.len() - pos,
{
    if pos < 0 || pos >= data.len() {
        Ok(Seq::empty())
    } else {
        let n = run_len(data, pos, NEWLINE) as int;
        if n <= 0 {
            parse_from(data, pos + 1)
        } else {
            match parse_line(data.subrange(pos, pos + n)) {
                Err(e) => Err(e),
                Ok(r) => followed_by(
                    seq![r],
                    if pos + n + 1 <= data.len() {
                        parse_from(data, pos + n + 1)
                    } else {
                        Ok(Seq::empty())
                    },
                ),
            }
        }
    }
}

/// The readings of a window of lines.
pub open spec fn parse_window(data: Seq<u8>) -> Result<Seq<Reading>, ParseError> {
    parse_from(data, 0)
}

/// A longer run of digits writes no smaller a number.
proof fn lemma_digits_monotone(s: Seq<u8>, k: int)
    requires
        0 <= k <= s.len(),
        all_digits(s),
    ensures
        digits_value(s.take(k)) <= digits_value(s),
    decreases s.len() - k,
{
    if k < s.len() {
        lemma_digits_monotone(s, k + 1);
        assert(s.take(k + 1).drop_last() == s.take(k));
        assert(s.take(k + 1).last() == s[k]);
        assert(is_digit(s[k]));
    } else {
        assert(s.take(k) == s);
    }
}

/// The position of the first `stop` at or after `from`, or the end of the data.
pub fn find_byte(data: &[u8], from: usize, stop: u8) -> (at: usize)
    requires
        from <= data.len(),
    ensures
        at == from + run_len(data@, from as int, stop),
        from <= at <= data.len(),
        at < data.len() ==> data[at as int] == stop,
        forall|j: int| from <= j < at ==> data[j] != stop,
{
    let mut at: usize = from;
    while at < data.len() && data[at] != stop
        invariant
            from <= at <= data.len(),
            from + run_len(data@, from as int, stop) == at + run_len(data@, at as int, stop),
            forall|j: int| from <= j < at ==> data[j] != stop,
        decreases data.len() - at,
    {
        at += 1;
    }
    at
}

/// Reads the run of digits `text[from..to]` as a number no greater than `limit`.
fn parse_digits(text: &[u8], from: usize, to: usize, limit: u64) -> (r: Option<u64>)
    requires
        from <= to <= text.len(),
    ensures
        r is Some <==> all_digits(text@.subrange(from as int, to as int)) && digits_value(
            text@.subrange(from as int, to as int),
        ) <= limit,
        r matches Some(v) ==> v == digits_value(text@.subrange(from as int, to as int)),
{
    let ghost s = text@.subrange(from as int, to as int);
    let mut acc: u64 = 0;
    let mut i: usize = from;
    while i < to
        invariant
            from <= i <= to <= text.len(),
            s == text@.subrange(from as int, to as int),
            all_digits(s.take(i - from)),
            acc == digits_value(s.take(i - from)),
            acc <= limit,
        decreases to - i,
    {
        let b = text[i];
        proof {
            assert(s[i - from] == b);
            assert(s.take(i - from + 1).drop_last() == s.take(i - from));
            assert(s.take(i - from + 1).last() == b);
        }
        if b < 48 || b > 57 {
            return None;
        }
        let d: u64 = (b - 48) as u64;
        if limit < d || acc > (limit - d) / 10 {
            proof {
                if all_digits(s) {
                    lemma_digits_monotone(s, i - from + 1);
                }
            }
            return None;
        }
        acc = acc * 10 + d;
        proof {
            assert forall|j: int| 0 <= j < s.take(i - from + 1).len() implies is_digit(
                #[trigger] s.take(i - from + 1)[j],
            ) by {
                if j < i - from {
                    assert(s.take(i - from)[j] == s.take(i - from + 1)[j]);
                }
            }
        }
        i += 1;
    }
    proof {
        assert(s.take(to - from) == s);
    }
    Some(acc)
}

/// Reads a record's value as a whole number of tenths.
///
/// The accepted form is an optional `+` or `-`, one or more digits, and then
/// nothing more or a point and exactly one digit; the value must be no greater in
/// size than the greatest 64-bit integer.
pub fn parse_value(text: &[u8]) -> (r: Option<i64>)
    ensures
        r is Some <==> tenths(text@) is Some,
        r matches Some(v) ==> tenths(text@) == Some(v as int),
{
    let n = text.len();
    let signed = n > 0 && (text[0] == 45 || text[0] == 43);
    let negative = n > 0 && text[0] == 45;
    let start: usize = if signed { 1 } else { 0 };
    let ghost body = if signed { text@.skip(1) } else { text@ };
    proof {
        assert(body == text@.subrange(start as int, n as int));
    }
    let size: u64;
    if n - start >= 3 && text[n - 2] == 46 {
        let last = text[n - 1];
        proof {
            assert(body[body.len() - 2] == text[n - 2]);
            assert(body[body.len() - 1] == last);
            assert(body.take(body.len() - 2) == text@.subrange(start as int, n - 2));
        }
        if last < 48 || last > 57 {
            return None;
        }
        match parse_digits(text, start, n - 2, 922337203685477580) {
            None => {
                return None;
            },
            Some(whole) => {
                size = whole * 10 + ((last - 48) as u64);
            },
        }
    } else {
        if n - start == 0 {
            return None;
        }
        match parse_digits(text, start, n, 922337203685477580) {
            None => {
                return None;
            },
            Some(whole) => {
                size = whole * 10;
            },
        }
    }
    if size > 9223372036854775807 {
        return None;
    }
    if negative {
        Some(-(size as i64))
    } else {
        Some(size as i64)
    }
}

/// Reads one line: where its `;` stands, and its value in tenths. The key is what
/// stands before the `;`.
pub fn parse_record(line: &[u8]) -> (r: Result<(usize, i64), ParseError>)
    ensures
        match parse_line(line@) {
            Ok(reading) => r is Ok && r->Ok_0.0 < line.len() && reading.key == line@.take(
                r->Ok_0.0 as int,
            ) && reading.value == r->Ok_0.1,
            Err(e) => r == Err::<(usize, i64), ParseError>(e),
        },
{
    let at = find_byte(line, 0, SEPARATOR);
    if at >= line.len() {
        return Err(ParseError::MissingSeparator);
    }
    let rest = vstd::slice::slice_subrange(line, at + 1, line.len());
    proof {
        assert(rest@ == line@.skip(at + 1));
    }
    match parse_value(rest) {
        Some(value) => Ok((at, value)),
        None => Err(ParseError::InvalidNumber),
    }
}

} // verus!
