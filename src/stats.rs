use vstd::prelude::*;

verus! {

/// Largest magnitude of a value, counted in units of its last fractional digit.
pub const VALUE_LIMIT: i64 = 1_000_000_000_000_000_000;

/// Running count, sum, minimum and maximum of the values seen for one key.
///
/// Values are fixed-point integers: a value with `F` fractional digits is
/// stored as the value times `10^F`.
#[derive(Clone, Copy, Debug, PartialEq, Eq, Structural)]
pub struct StatAccumulator {
    pub count: u64,
    pub sum: i128,
    pub min: i64,
    pub max: i64,
}

/// The mathematical statistics of one key.
pub struct Stats {
    pub count: int,
    pub sum: int,
    pub min: int,
    pub max: int,
}

pub open spec fn value_in_range(v: int) -> bool {
    -(VALUE_LIMIT as int) <= v <= VALUE_LIMIT as int
}

/// A state that some non-empty list of in-range values produces.
pub open spec fn stats_wf(s: Stats) -> bool {
    &&& 1 <= s.count <= u64::MAX
    &&& value_in_range(s.min)
    &&& value_in_range(s.max)
    &&& s.min <= s.max
    &&& s.min * s.count <= s.sum <= s.max * s.count
}

/// The statistics of the single value `v`.
pub open spec fn first_value(v: int) -> Stats {
    Stats { count: 1, sum: v, min: v, max: v }
}

pub open spec fn min_int(a: int, b: int) -> int {
    if a <= b { a } else { b }
}

pub open spec fn max_int(a: int, b: int) -> int {
    if a >= b { a } else { b }
}

/// The statistics after one more value `v`.
pub open spec fn observe(s: Stats, v: int) -> Stats {
    Stats { count: s.count + 1, sum: s.sum + v, min: min_int(s.min, v), max: max_int(s.max, v) }
}

/// The statistics of the values behind `a` together with those behind `b`.
pub open spec fn combine(a: Stats, b: Stats) -> Stats {
    Stats {
        count: a.count + b.count,
        sum: a.sum + b.sum,
        min: min_int(a.min, b.min),
        max: max_int(a.max, b.max),
    }
}

impl View for StatAccumulator {
    type V = Stats;

    open spec fn view(&self) -> Stats {
        Stats {
            count: self.count as int,
            sum: self.sum as int,
            min: self.min as int,
            max: self.max as int,
        }
    }
}

proof fn lemma_scaled_bounds(c: int, s: int, lo: int, hi: int, lo2: int, hi2: int)
    requires
        c >= 0,
        lo2 <= lo,
        hi <= hi2,
        lo * c <= s <= hi * c,
    ensures
        lo2 * c <= s <= hi2 * c,
{
    assert(lo2 * c <= lo * c) by (nonlinear_arith)
        requires
            lo2 <= lo,
            c >= 0,
    ;
    assert(hi * c <= hi2 * c) by (nonlinear_arith)
        requires
            hi <= hi2,
            c >= 0,
    ;
}

pub(crate) proof fn lemma_sum_fits(s: Stats)
    requires
        stats_wf(s),
    ensures
        -(VALUE_LIMIT as int) * s.count <= s.sum <= (VALUE_LIMIT as int) * s.count,
        -(VALUE_LIMIT as int) * (u64::MAX as int) <= s.sum <= (VALUE_LIMIT as int) * (u64::MAX as int),
{
    lemma_scaled_bounds(s.count, s.sum, s.min, s.max, -(VALUE_LIMIT as int), VALUE_LIMIT as int);
    assert((VALUE_LIMIT as int) * s.count <= (VALUE_LIMIT as int) * (u64::MAX as int))
        by (nonlinear_arith)
        requires
            s.count <= u64::MAX,
    ;
    assert(-(VALUE_LIMIT as int) * (u64::MAX as int) <= -(VALUE_LIMIT as int) * s.count)
        by (nonlinear_arith)
        requires
            s.count <= u64::MAX,
    ;
}

proof fn lemma_combine_wf(a: Stats, b: Stats)
    requires
        stats_wf(a),
        stats_wf(b),
        a.count + b.count <= u64::MAX,
    ensures
        stats_wf(combine(a, b)),
{
    let c = combine(a, b);
    lemma_scaled_bounds(a.count, a.sum, a.min, a.max, c.min, c.max);
    lemma_scaled_bounds(b.count, b.sum, b.min, b.max, c.min, c.max);
    assert(c.min * a.count + c.min * b.count == c.min * c.count) by (nonlinear_arith)
        requires
            c.count == a.count + b.count,
    ;
    assert(c.max * a.count + c.max * b.count == c.max * c.count) by (nonlinear_arith)
        requires
            c.count == a.count + b.count,
    ;
}

proof fn lemma_observe_is_combine(s: Stats, v: int)
    ensures
        observe(s, v) == combine(s, first_value(v)),
{
}

impl StatAccumulator {
    /// The statistics of the single value `v`.
    pub fn new(v: i64) -> (r: StatAccumulator)
        requires
            value_in_range(v as int),
        ensures
            r@ == first_value(v as int),
            stats_wf(r@),
    {
        StatAccumulator { count: 1, sum: v as i128, min: v, max: v }
    }

    /// Folds the value `v` in.
    pub fn add(&mut self, v: i64)
        requires
            stats_wf(old(self)@),
            value_in_range(v as int),
            old(self).count < u64::MAX,
        ensures
            final(self)@ == observe(old(self)@, v as int),
            stats_wf(final(self)@),
    {
        proof {
            lemma_observe_is_combine(self@, v as int);
            lemma_combine_wf(self@, first_value(v as int));
            lemma_sum_fits(self@);
        }
        self.count = self.count + 1;
        self.sum = self.sum + v as i128;
        if v < self.min {
            self.min = v;
        }
        if v > self.max {
            self.max = v;
        }
    }

    /// Folds in the statistics `other`, gathered elsewhere for the same key.
    pub fn merge(&mut self, other: &StatAccumulator)
        requires
            stats_wf(old(self)@),
            stats_wf(other@),
            old(self).count + other.count <= u64::MAX,
        ensures
            final(self)@ == combine(old(self)@, other@),
            stats_wf(final(self)@),
    {
        proof {
            lemma_combine_wf(self@, other@);
            lemma_sum_fits(self@);
            lemma_sum_fits(other@);
        }
        self.count = self.count + other.count;
        self.sum = self.sum + other.sum;
        if other.min < self.min {
            self.min = other.min;
        }
        if other.max > self.max {
            self.max = other.max;
        }
    }
}

} // verus!
