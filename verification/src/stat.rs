//! The running statistics of one key.

use vstd::prelude::*;

verus! {

/// What is known of a non-empty bag of readings: how many there are, the least,
/// the greatest and their sum. Readings are in tenths of a unit.
pub struct Tally {
    pub count: nat,
    pub min: int,
    pub max: int,
    pub sum: int,
}

pub open spec fn lesser(a: int, b: int) -> int {
    if a <= b { a } else { b }
}

pub open spec fn greater(a: int, b: int) -> int {
    if a >= b { a } else { b }
}

impl Tally {
    /// The tally of a single reading.
    pub open spec fn one(v: int) -> Tally {
        Tally { count: 1, min: v, max: v, sum: v }
    }

    /// This tally with one more reading.
    pub open spec fn with(self, v: int) -> Tally {
        Tally {
            count: self.count + 1,
            min: lesser(self.min, v),
            max: greater(self.max, v),
            sum: self.sum + v,
        }
    }

    /// The tally of two bags taken together.
    pub open spec fn merge(self, other: Tally) -> Tally {
        Tally {
            count: self.count + other.count,
            min: lesser(self.min, other.min),
            max: greater(self.max, other.max),
            sum: self.sum + other.sum,
        }
    }

    /// Holds of the tally of every non-empty bag.
    pub open spec fn wf(self) -> bool {
        &&& self.count >= 1
        &&& self.min <= self.max
        &&& self.count * self.min <= self.sum
        &&& self.sum <= self.count * self.max
    }

    /// The arithmetic mean rounded to a whole tenth, a tie going away from zero.
    pub open spec fn mean(self) -> int
        recommends
            self.count >= 1,
    {
        if self.sum >= 0 {
            (2 * self.sum + self.count) / (2 * self.count as int)
        } else {
            -((2 * (-self.sum) + self.count) / (2 * self.count as int))
        }
    }
}

/// The statistics of one key: count, least, greatest and sum of its readings,
/// each reading a whole number of tenths.
#[derive(Clone, Copy, Debug)]
pub struct StatRecord {
    pub count: u64,
    pub min: i64,
    pub max: i64,
    pub sum: i128,
}

impl View for StatRecord {
    type V = Tally;

    open spec fn view(&self) -> Tally {
        Tally {
            count: self.count as nat,
            min: self.min as int,
            max: self.max as int,
            sum: self.sum as int,
        }
    }
}

/// A well-formed tally whose fields fit the record's integer types has a sum well
/// inside the 128-bit range.
proof fn lemma_sum_bounds(t: Tally)
    requires
        t.wf(),
        t.count <= u64::MAX,
        i64::MIN <= t.min,
        t.max <= i64::MAX,
    ensures
        -0x7fff_ffff_ffff_ffff_8000_0000_0000_0000 <= t.sum,
        t.sum <= 0x7fff_ffff_ffff_ffff_8000_0000_0000_0000,
{
    let c = t.count as int;
    assert(c * t.min >= c * (-0x8000_0000_0000_0000)) by (nonlinear_arith)
        requires
            c >= 0,
            t.min >= -0x8000_0000_0000_0000,
    ;
    assert(c * (-0x8000_0000_0000_0000) >= 0xffff_ffff_ffff_ffff * (-0x8000_0000_0000_0000))
        by (nonlinear_arith)
        requires
            0 <= c <= 0xffff_ffff_ffff_ffff,
    ;
    assert(c * t.max <= c * 0x7fff_ffff_ffff_ffff) by (nonlinear_arith)
        requires
            c >= 0,
            t.max <= 0x7fff_ffff_ffff_ffff,
    ;
    assert(c * 0x7fff_ffff_ffff_ffff <= 0xffff_ffff_ffff_ffff * 0x7fff_ffff_ffff_ffff)
        by (nonlinear_arith)
        requires
            0 <= c <= 0xffff_ffff_ffff_ffff,
    ;
}

/// One more reading keeps a tally well formed.
pub proof fn lemma_with_wf(t: Tally, v: int)
    requires
        t.wf(),
    ensures
        t.with(v).wf(),
{
    let c = t.count as int;
    let lo = lesser(t.min, v);
    let hi = greater(t.max, v);
    assert(c * lo <= c * t.min) by (nonlinear_arith)
        requires
            c >= 0,
            lo <= t.min,
    ;
    assert(c * t.max <= c * hi) by (nonlinear_arith)
        requires
            c >= 0,
            t.max <= hi,
    ;
    assert((c + 1) * lo == c * lo + lo) by (nonlinear_arith);
    assert((c + 1) * hi == c * hi + hi) by (nonlinear_arith);
}

/// Two well-formed tallies merge into a well-formed one.
pub proof fn lemma_merge_wf(a: Tally, b: Tally)
    requires
        a.wf(),
        b.wf(),
    ensures
        a.merge(b).wf(),
{
    let ca = a.count as int;
    let cb = b.count as int;
    let lo = lesser(a.min, b.min);
    let hi = greater(a.max, b.max);
    assert(ca * lo <= ca * a.min) by (nonlinear_arith)
        requires
            ca >= 0,
            lo <= a.min,
    ;
    assert(cb * lo <= cb * b.min) by (nonlinear_arith)
        requires
            cb >= 0,
            lo <= b.min,
    ;
    assert(ca * a.max <= ca * hi) by (nonlinear_arith)
        requires
            ca >= 0,
            a.max <= hi,
    ;
    assert(cb * b.max <= cb * hi) by (nonlinear_arith)
        requires
            cb >= 0,
            b.max <= hi,
    ;
    assert((ca + cb) * lo == ca * lo + cb * lo) by (nonlinear_arith);
    assert((ca + cb) * hi == ca * hi + cb * hi) by (nonlinear_arith);
}

/// Merging is commutative: the order of the two tallies does not matter.
pub proof fn lemma_merge_commutative(a: Tally, b: Tally)
    ensures
        a.merge(b) == b.merge(a),
{
}

/// Merging is associative: tallies may be folded together in any grouping.
pub proof fn lemma_merge_associative(a: Tally, b: Tally, c: Tally)
    ensures
        a.merge(b).merge(c) == a.merge(b.merge(c)),
{
}

/// Adding a reading is merging with the tally of that reading alone.
pub proof fn lemma_with_is_merge(a: Tally, v: int)
    ensures
        a.with(v) == a.merge(Tally::one(v)),
{
}

/// The rounded mean of a well-formed tally lies between its least and its greatest
/// reading.
pub proof fn lemma_mean_between(t: Tally)
    requires
        t.wf(),
    ensures
        t.min <= t.mean() <= t.max,
{
    let c = t.count as int;
    let d = 2 * c;
    if t.sum >= 0 {
        let x = 2 * t.sum + c;
        let q = x / d;
        vstd::arithmetic::div_mod::lemma_fundamental_div_mod(x, d);
        vstd::arithmetic::div_mod::lemma_mod_bound(x, d);
        assert(q <= t.max) by (nonlinear_arith)
            requires
                x == d * q + x % d,
                0 <= x % d < d,
                d == 2 * c,
                c >= 1,
                x == 2 * t.sum + c,
                t.sum <= c * t.max,
        ;
        assert(q >= t.min) by (nonlinear_arith)
            requires
                x == d * q + x % d,
                0 <= x % d < d,
                d == 2 * c,
                c >= 1,
                x == 2 * t.sum + c,
                t.sum >= c * t.min,
        ;
    } else {
        let x = 2 * (-t.sum) + c;
        let q = x / d;
        vstd::arithmetic::div_mod::lemma_fundamental_div_mod(x, d);
        vstd::arithmetic::div_mod::lemma_mod_bound(x, d);
        assert(-q >= t.min) by (nonlinear_arith)
            requires
                x == d * q + x % d,
                0 <= x % d < d,
                d == 2 * c,
                c >= 1,
                x == 2 * (-t.sum) + c,
                t.sum >= c * t.min,
        ;
        assert(q >= 0) by (nonlinear_arith)
            requires
                x == d * q + x % d,
                0 <= x % d < d,
                d >= 2,
                x >= 0,
        ;
        assert(-q <= t.max) by (nonlinear_arith)
            requires
                x == d * q + x % d,
                0 <= x % d < d,
                d == 2 * c,
                c >= 1,
                x == 2 * (-t.sum) + c,
                t.sum <= c * t.max,
                q >= 0,
        ;
    }
}

impl StatRecord {
    /// The record's tally is that of a non-empty bag.
    pub open spec fn wf(&self) -> bool {
        self@.wf()
    }

    /// Starts a record from the first reading of a key.
    pub fn from_item(item: i64) -> (r: StatRecord)
        ensures
            r.wf(),
            r@ == Tally::one(item as int),
    {
        let sum: i128 = item as i128;
        let r = StatRecord { count: 1, min: item, max: item, sum };
        proof {
            assert(1 * (item as int) == item as int) by (nonlinear_arith);
        }
        r
    }

    /// Folds one more reading into the record.
    pub fn update(&mut self, item: i64)
        requires
            old(self).wf(),
            old(self).count < u64::MAX,
        ensures
            final(self).wf(),
            final(self)@ == old(self)@.with(item as int),
    {
        proof {
            lemma_sum_bounds(self@);
            lemma_with_wf(self@, item as int);
        }
        self.count = self.count + 1;
        if item < self.min {
            self.min = item;
        }
        if item > self.max {
            self.max = item;
        }
        self.sum = self.sum + (item as i128);
    }

    /// The record of both bags of readings together.
    pub fn merge(self, other: StatRecord) -> (r: StatRecord)
        requires
            self.wf(),
            other.wf(),
            self.count + other.count <= u64::MAX,
        ensures
            r.wf(),
            r@ == self@.merge(other@),
    {
        proof {
            lemma_sum_bounds(self@);
            lemma_sum_bounds(other@);
            lemma_merge_wf(self@, other@);
            lemma_sum_bounds(self@.merge(other@));
        }
        StatRecord {
            count: self.count + other.count,
            min: if self.min <= other.min { self.min } else { other.min },
            max: if self.max >= other.max { self.max } else { other.max },
            sum: self.sum + other.sum,
        }
    }

    /// The mean of the readings, rounded to a whole tenth, a tie going away from
    /// zero.
    pub fn mean(&self) -> (m: i64)
        requires
            self.wf(),
        ensures
            m == self@.mean(),
            self.min <= m <= self.max,
    {
        proof {
            lemma_sum_bounds(self@);
            lemma_mean_between(self@);
        }
        let c: u128 = self.count as u128;
        let negative = self.sum < 0;
        let size: u128 = if negative { (-self.sum) as u128 } else { self.sum as u128 };
        let q: u128 = size / c;
        let r: u128 = size % c;
        let up: u128 = if r >= c - r { 1 } else { 0 };
        proof {
            let x = 2 * (size as int) + (c as int);
            let d = 2 * (c as int);
            vstd::arithmetic::div_mod::lemma_fundamental_div_mod(size as int, c as int);
            if up == 1 {
                assert(x == d * (q + 1) + (2 * r - c)) by (nonlinear_arith)
                    requires
                        x == 2 * (size as int) + (c as int),
                        d == 2 * (c as int),
                        size as int == (c as int) * (q as int) + (r as int),
                ;
                vstd::arithmetic::div_mod::lemma_fundamental_div_mod_converse(
                    x,
                    d,
                    q + 1,
                    2 * r - c,
                );
            } else {
                assert(x == d * q + (2 * r + c)) by (nonlinear_arith)
                    requires
                        x == 2 * (size as int) + (c as int),
                        d == 2 * (c as int),
                        size as int == (c as int) * (q as int) + (r as int),
                ;
                vstd::arithmetic::div_mod::lemma_fundamental_div_mod_converse(x, d, q as int, 2 * r + c);
            }
            assert(x / d == q + up);
        }
        let whole: u128 = q + up;
        if negative {
            let m: i128 = -(whole as i128);
            m as i64
        } else {
            whole as i64
        }
    }
}

} // verus!
