//! The rows of the final report: one for each key, in the order of the keys'
//! bytes.

use vstd::prelude::*;
use crate::stat::Tally;
use crate::summary::Summary;

verus! {

/// Lexicographic order of two runs of bytes from place `i` on.
pub open spec fn lex_less_from(a: Seq<u8>, b: Seq<u8>, i: int) -> bool
    decreases a.len() - i,
{
    if i >= b.len() {
        false
    } else if i >= a.len() {
        true
    } else if a[i] != b[i] {
        a[i] < b[i]
    } else {
        lex_less_from(a, b, i + 1)
    }
}

/// `a` comes before `b` in the lexicographic order of their bytes.
pub open spec fn lex_less(a: Seq<u8>, b: Seq<u8>) -> bool {
    lex_less_from(a, b, 0)
}

/// Of two runs of bytes that differ, one comes before the other.
pub proof fn lemma_lex_total(a: Seq<u8>, b: Seq<u8>, i: int)
    requires
        0 <= i,
        forall|j: int| 0 <= j < i && j < a.len() && j < b.len() ==> a[j] == b[j],
        i <= a.len(),
        i <= b.len(),
        a != b,
    ensures
        lex_less_from(a, b, i) || lex_less_from(b, a, i),
    decreases a.len() - i,
{
    if i < a.len() && i < b.len() && a[i] == b[i] {
        lemma_lex_total(a, b, i + 1);
    } else if i >= a.len() && i >= b.len() {
        assert(a =~= b);
    }
}

/// No run of bytes comes both before and after another.
pub proof fn lemma_lex_asymmetric(a: Seq<u8>, b: Seq<u8>, i: int)
    requires
        0 <= i,
    ensures
        !(lex_less_from(a, b, i) && lex_less_from(b, a, i)),
    decreases a.len() - i,
{
    if i < a.len() && i < b.len() && a[i] == b[i] {
        lemma_lex_asymmetric(a, b, i + 1);
    }
}

/// The order is transitive.
pub proof fn lemma_lex_transitive(a: Seq<u8>, b: Seq<u8>, c: Seq<u8>, i: int)
    requires
        0 <= i,
        lex_less_from(a, b, i),
        lex_less_from(b, c, i),
    ensures
        lex_less_from(a, c, i),
    decreases a.len() - i,
{
    if i < a.len() && i < b.len() && i < c.len() && a[i] == b[i] && b[i] == c[i] {
        lemma_lex_transitive(a, b, c, i + 1);
    }
}

/// Tells whether `a` comes before `b` in the lexicographic order of their bytes.
pub fn key_less(a: &[u8], b: &[u8]) -> (less: bool)
    ensures
        less == lex_less(a@, b@),
{
    let mut i: usize = 0;
    while i < a.len() && i < b.len() && a[i] == b[i]
        invariant
            i <= a.len(),
            i <= b.len(),
            lex_less_from(a@, b@, i as int) == lex_less(a@, b@),
        decreases a.len() - i,
    {
        i += 1;
    }
    if i >= b.len() {
        false
    } else if i >= a.len() {
        true
    } else {
        a[i] < b[i]
    }
}

/// One line of the report: a key with the count, the least, the rounded mean and
/// the greatest of its readings, the three in tenths.
#[derive(Debug)]
pub struct Row {
    pub key: Vec<u8>,
    pub count: u64,
    pub min: i64,
    pub mean: i64,
    pub max: i64,
}

impl Row {
    /// The row says of its key what the tally says.
    pub open spec fn tells(&self, tally: Tally) -> bool {
        &&& self.count == tally.count
        &&& self.min == tally.min
        &&& self.mean == tally.mean()
        &&& self.max == tally.max
    }
}

/// The places are in the order of their keys.
spec fn ordered(keys: Seq<Seq<u8>>, order: Seq<usize>) -> bool {
    forall|p: int, q: int|
        0 <= p < q < order.len() ==> lex_less(
            #[trigger] keys[order[p] as int],
            #[trigger] keys[order[q] as int],
        )
}

/// Place `i` stands somewhere in `order`.
spec fn placed(order: Seq<usize>, i: int) -> bool {
    exists|p: int| 0 <= p < order.len() && #[trigger] order[p] == i
}

/// The places of the keys of `summary`, in the order of the keys.
fn sorted_places(summary: &Summary) -> (order: Vec<usize>)
    requires
        summary.wf(),
    ensures
        order@.len() == summary.spec_keys().len(),
        forall|p: int| 0 <= p < order@.len() ==> #[trigger] order@[p] < summary.spec_keys().len(),
        forall|i: int| 0 <= i < summary.spec_keys().len() ==> #[trigger] placed(order@, i),
        ordered(summary.spec_keys(), order@),
{
    let ghost keys = summary.spec_keys();
    let n = summary.len();
    let mut order: Vec<usize> = Vec::new();
    let mut i: usize = 0;
    proof {
        summary.lemma_keys();
    }
    while i < n
        invariant
            summary.wf(),
            keys == summary.spec_keys(),
            keys.no_duplicates(),
            n == keys.len(),
            i <= n,
            order@.len() == i,
            forall|p: int| 0 <= p < order@.len() ==> #[trigger] order@[p] < i,
            forall|j: int| 0 <= j < i ==> #[trigger] placed(order@, j),
            ordered(keys, order@),
        decreases n - i,
    {
        let key = summary.key_at(i);
        let mut at: usize = 0;
        while at < order.len() && key_less(summary.key_at(order[at]), key)
            invariant
                summary.wf(),
                keys == summary.spec_keys(),
                n == keys.len(),
                i < n,
                key@ == keys[i as int],
                at <= order@.len(),
                forall|p: int| 0 <= p < order@.len() ==> #[trigger] order@[p] < i,
                forall|p: int|
                    0 <= p < at ==> lex_less(#[trigger] keys[order@[p] as int], keys[i as int]),
            decreases order@.len() - at,
        {
            at += 1;
        }
        let ghost before = order@;
        proof {
            assert forall|q: int| at <= q < before.len() implies lex_less(
                keys[i as int],
                #[trigger] keys[before[q] as int],
            ) by {
                let first = keys[before[at as int] as int];
                assert(before[at as int] < i);
                assert(first != keys[i as int]);
                lemma_lex_total(first, keys[i as int], 0);
                if q > at {
                    assert(lex_less(first, keys[before[q] as int]));
                    lemma_lex_transitive(keys[i as int], first, keys[before[q] as int], 0);
                }
            }
        }
        order.insert(at, i);
        proof {
            let after = order@;
            assert forall|p: int, q: int| 0 <= p < q < after.len() implies lex_less(
                #[trigger] keys[after[p] as int],
                #[trigger] keys[after[q] as int],
            ) by {
                if q < at {
                    assert(after[p] == before[p] && after[q] == before[q]);
                } else if q == at {
                    assert(after[p] == before[p]);
                } else if p < at {
                    assert(after[p] == before[p] && after[q] == before[q - 1]);
                } else if p == at {
                    assert(after[q] == before[q - 1]);
                } else {
                    assert(after[p] == before[p - 1] && after[q] == before[q - 1]);
                }
            }
            assert forall|j: int| 0 <= j < i + 1 implies #[trigger] placed(after, j) by {
                if j < i {
                    assert(placed(before, j));
                    let p = choose|p: int| 0 <= p < before.len() && #[trigger] before[p] == j;
                    if p < at {
                        assert(after[p] == j);
                    } else {
                        assert(after[p + 1] == j);
                    }
                } else {
                    assert(after[at as int] == j);
                }
            }
            assert forall|p: int| 0 <= p < after.len() implies #[trigger] after[p] < i + 1 by {
                if p < at {
                    assert(after[p] == before[p]);
                } else if p > at {
                    assert(after[p] == before[p - 1]);
                }
            }
        }
        i += 1;
    }
    order
}

/// The rows of the report: one for each key of the summary, in the ascending
/// lexicographic order of the keys' bytes.
pub fn report(summary: &Summary) -> (rows: Vec<Row>)
    requires
        summary.wf(),
    ensures
        rows@.len() == summary.spec_keys().len(),
        forall|p: int, q: int|
            0 <= p < q < rows@.len() ==> lex_less(#[trigger] rows@[p].key@, #[trigger] rows@[q].key@),
        forall|p: int|
            0 <= p < rows@.len() ==> summary@.contains_key(#[trigger] rows@[p].key@)
                && rows@[p].tells(summary@[rows@[p].key@]),
        forall|k: Seq<u8>|
            summary@.contains_key(k) ==> exists|p: int|
                0 <= p < rows@.len() && #[trigger] rows@[p].key@ == k,
{
    let ghost keys = summary.spec_keys();
    let order = sorted_places(summary);
    let mut rows: Vec<Row> = Vec::new();
    let mut p: usize = 0;
    while p < order.len()
        invariant
            summary.wf(),
            keys == summary.spec_keys(),
            p <= order@.len(),
            rows@.len() == p,
            forall|q: int| 0 <= q < order@.len() ==> #[trigger] order@[q] < keys.len(),
            forall|q: int| 0 <= q < p ==> (#[trigger] rows@[q]).key@ == keys[order@[q] as int],
            forall|q: int|
                0 <= q < p ==> summary@.contains_key(#[trigger] rows@[q].key@) && rows@[q].tells(
                    summary@[rows@[q].key@],
                ),
        decreases order@.len() - p,
    {
        let place = order[p];
        let stat = summary.stat_at(place);
        let key = vstd::slice::slice_to_vec(summary.key_at(place));
        let row = Row { key, count: stat.count, min: stat.min, mean: stat.mean(), max: stat.max };
        rows.push(row);
        p += 1;
    }
    proof {
        summary.lemma_keys();
        assert forall|a: int, b: int| 0 <= a < b < rows@.len() implies lex_less(
            #[trigger] rows@[a].key@,
            #[trigger] rows@[b].key@,
        ) by {
            assert(lex_less(keys[order@[a] as int], keys[order@[b] as int]));
        }
        assert forall|k: Seq<u8>| summary@.contains_key(k) implies exists|q: int|
            0 <= q < rows@.len() && #[trigger] rows@[q].key@ == k by {
            assert(keys.contains(k));
            let i = choose|i: int| 0 <= i < keys.len() && keys[i] == k;
            assert(placed(order@, i));
            let q = choose|q: int| 0 <= q < order@.len() && #[trigger] order@[q] == i;
            assert(rows@[q].key@ == k);
        }
    }
    rows
}

/// The decimal digits of a number, without leading zeros.
pub open spec fn decimal(n: nat) -> Seq<u8>
    decreases n,
{
    if n < 10 {
        seq![(48 + n) as u8]
    } else {
        decimal(n / 10).push((48 + n % 10) as u8)
    }
}

/// A number of tenths as text: a `-` where it is below zero, the whole part, a
/// point and the one digit behind it.
pub open spec fn tenths_text(v: int) -> Seq<u8> {
    let size = if v < 0 { -v } else { v };
    let body = decimal((size / 10) as nat) + seq![46u8, (48 + size % 10) as u8];
    if v < 0 {
        seq![45u8] + body
    } else {
        body
    }
}

/// The line of one row: `key: min/mean/max`.
pub open spec fn row_text(row: Row) -> Seq<u8> {
    row.key@ + seq![58u8, 32u8] + tenths_text(row.min as int) + seq![47u8] + tenths_text(
        row.mean as int,
    ) + seq![47u8] + tenths_text(row.max as int)
}

/// The lines of the rows with a newline between each two.
pub open spec fn lines_text(rows: Seq<Row>) -> Seq<u8>
    decreases rows.len(),
{
    if rows.len() == 0 {
        Seq::empty()
    } else if rows.len() == 1 {
        row_text(rows[0])
    } else {
        lines_text(rows.drop_last()) + seq![10u8] + row_text(rows.last())
    }
}

/// Writes the decimal digits of `n` behind what `out` holds.
fn push_decimal(out: &mut Vec<u8>, n: u64)
    ensures
        final(out)@ == old(out)@ + decimal(n as nat),
    decreases n,
{
    if n >= 10 {
        push_decimal(out, n / 10);
    }
    let digit: u8 = (48 + n % 10) as u8;
    out.push(digit);
    proof {
        if n >= 10 {
            assert(old(out)@ + decimal(n as nat) == (old(out)@ + decimal((n / 10) as nat)).push(
                digit,
            ));
        } else {
            assert(old(out)@ + decimal(n as nat) == old(out)@.push(digit));
        }
    }
}

/// Writes a number of tenths behind what `out` holds.
fn push_tenths(out: &mut Vec<u8>, v: i64)
    ensures
        final(out)@ == old(out)@ + tenths_text(v as int),
{
    let size: u64 = if v < 0 { (-(v as i128)) as u64 } else { v as u64 };
    if v < 0 {
        out.push(45);
    }
    let ghost signed = out@;
    push_decimal(out, size / 10);
    out.push(46);
    let digit: u8 = (48 + size % 10) as u8;
    out.push(digit);
    proof {
        let body = decimal((size / 10) as nat) + seq![46u8, digit];
        assert(out@ == signed + body);
        if v < 0 {
            assert(old(out)@.push(45u8) + body == old(out)@ + (seq![45u8] + body));
        }
    }
}

/// Writes the line of one row behind what `out` holds.
fn push_row(out: &mut Vec<u8>, row: &Row)
    ensures
        final(out)@ == old(out)@ + row_text(*row),
{
    out.extend_from_slice(row.key.as_slice());
    out.push(58);
    out.push(32);
    let ghost a = out@;
    push_tenths(out, row.min);
    out.push(47);
    let ghost b = out@;
    push_tenths(out, row.mean);
    out.push(47);
    let ghost c = out@;
    push_tenths(out, row.max);
    proof {
        let k = row.key@ + seq![58u8, 32u8];
        assert(a == old(out)@ + k);
        assert(b == old(out)@ + (k + tenths_text(row.min as int) + seq![47u8]));
        assert(c == old(out)@ + (k + tenths_text(row.min as int) + seq![47u8] + tenths_text(
            row.mean as int,
        ) + seq![47u8]));
        assert(out@ == old(out)@ + row_text(*row));
    }
}

/// The text of the report: for each row the line `key: min/mean/max`, each number
/// with one digit behind the point, and a newline between each two lines.
pub fn render(rows: &Vec<Row>) -> (text: Vec<u8>)
    ensures
        text@ == lines_text(rows@),
{
    let mut text: Vec<u8> = Vec::new();
    let mut i: usize = 0;
    while i < rows.len()
        invariant
            i <= rows@.len(),
            text@ == lines_text(rows@.take(i as int)),
        decreases rows@.len() - i,
    {
        let ghost before = text@;
        if i > 0 {
            text.push(10);
        }
        push_row(&mut text, &rows[i]);
        proof {
            let upto = rows@.take(i + 1);
            assert(upto.drop_last() == rows@.take(i as int));
            assert(upto.last() == rows@[i as int]);
            if i == 0 {
                assert(upto[0] == rows@[0]);
                assert(before + row_text(rows@[0]) == row_text(rows@[0]));
            } else {
                assert(before.push(10u8) + row_text(rows@[i as int]) == before + seq![10u8]
                    + row_text(rows@[i as int]));
            }
        }
        i += 1;
    }
    proof {
        assert(rows@.take(rows@.len() as int) == rows@);
    }
    text
}

} // verus!
