//! The running aggregate for one key: minimum, maximum, sum and count of the
//! values folded in, all in exact integer tenths. `update` and `merge` form a
//! commutative monoid, which is what makes parallel aggregation independent
//! of how the input was split and in which order partial results were merged.

use vstd::prelude::*;

verus! {

/// The mathematical value of a running aggregate.
pub struct AggV {
    pub min: int,
    pub max: int,
    pub sum: int,
    pub count: nat,
}

/// The aggregate of a single observation.
pub open spec fn unit_agg(v: int) -> AggV {
    AggV { min: v, max: v, sum: v, count: 1 }
}

/// Combining two aggregates of the same key.
pub open spec fn combine_agg(a: AggV, b: AggV) -> AggV {
    AggV {
        min: vstd::math::min(a.min, b.min),
        max: vstd::math::max(a.max, b.max),
        sum: a.sum + b.sum,
        count: (a.count + b.count) as nat,
    }
}

/// Well-formedness: at least one observation, bounds ordered and inside the
/// tenths range, and the sum bracketed by `count * min` and `count * max`.
pub open spec fn aggv_wf(a: AggV) -> bool {
    &&& a.count >= 1
    &&& -(i64::MAX as int) <= a.min <= a.max <= i64::MAX as int
    &&& a.count * a.min <= a.sum <= a.count * a.max
}

/// Combining aggregates is commutative.
pub proof fn lemma_combine_comm(a: AggV, b: AggV)
    ensures
        combine_agg(a, b) == combine_agg(b, a),
{
}

/// Combining aggregates is associative.
pub proof fn lemma_combine_assoc(a: AggV, b: AggV, c: AggV)
    ensures
        combine_agg(combine_agg(a, b), c) == combine_agg(a, combine_agg(b, c)),
{
}

/// Combining preserves well-formedness.
pub proof fn lemma_combine_wf(a: AggV, b: AggV)
    requires
        aggv_wf(a),
        aggv_wf(b),
    ensures
        aggv_wf(combine_agg(a, b)),
{
    let c = combine_agg(a, b);
    assert(a.count * c.min <= a.sum && b.count * c.min <= b.sum && a.sum <= a.count * c.max
        && b.sum <= b.count * c.max) by (nonlinear_arith)
        requires
            aggv_wf(a),
            aggv_wf(b),
            c.min <= a.min,
            c.min <= b.min,
            a.max <= c.max,
            b.max <= c.max,
            c == combine_agg(a, b),
    {}
    assert(c.count * c.min == a.count * c.min + b.count * c.min) by (nonlinear_arith)
        requires
            c.count == a.count + b.count,
    {}
    assert(c.count * c.max == a.count * c.max + b.count * c.max) by (nonlinear_arith)
        requires
            c.count == a.count + b.count,
    {}
}

/// The sum of a well-formed aggregate is bounded by its count times the
/// tenths range, so it fits comfortably in an `i128` while the count fits
/// in a `usize`.
pub proof fn lemma_sum_bound(a: AggV)
    requires
        aggv_wf(a),
        a.count <= usize::MAX,
    ensures
        -(0x7fffffffffffffffffffffffffffffff) <= a.sum
            <= 0x7fffffffffffffffffffffffffffffff,
{
    assert(a.count * a.min >= a.count * (-(i64::MAX as int)) && a.count * a.max <= a.count * (
    i64::MAX as int)) by (nonlinear_arith)
        requires
            aggv_wf(a),
    {}
    assert(a.count * (i64::MAX as int) <= (usize::MAX as int) * (i64::MAX as int))
        by (nonlinear_arith)
        requires
            a.count <= usize::MAX,
    {}
}

/// One key's accumulator: min/max/sum/count over integer tenths.
#[derive(Clone, Copy, Debug)]
pub struct Measurement {
    pub min: i64,
    pub max: i64,
    pub sum: i128,
    pub count: usize,
}

impl Measurement {
    /// The aggregate this accumulator stands for.
    pub open spec fn view(&self) -> AggV {
        AggV {
            min: self.min as int,
            max: self.max as int,
            sum: self.sum as int,
            count: self.count as nat,
        }
    }

    pub open spec fn wf(&self) -> bool {
        aggv_wf(self@)
    }

    /// A fresh aggregate holding one observation.
    pub fn new(value: i64) -> (r: Measurement)
        requires
            -i64::MAX <= value,
        ensures
            r@ == unit_agg(value as int),
            r.wf(),
    {
        Measurement { min: value, max: value, sum: value as i128, count: 1 }
    }

    /// Folds one more observation into the aggregate.
    pub fn update(&mut self, value: i64)
        requires
            old(self).wf(),
            -i64::MAX <= value,
            old(self)@.count < usize::MAX,
        ensures
            final(self)@ == combine_agg(old(self)@, unit_agg(value as int)),
            final(self).wf(),
    {
        proof {
            lemma_sum_bound(old(self)@);
            lemma_combine_wf(old(self)@, unit_agg(value as int));
            lemma_sum_bound(combine_agg(old(self)@, unit_agg(value as int)));
        }
        if value < self.min {
            self.min = value;
        }
        if value > self.max {
            self.max = value;
        }
        self.sum = self.sum + value as i128;
        self.count = self.count + 1;
    }

    /// Folds another aggregate of the same key into this one.
    pub fn merge(&mut self, other: &Measurement)
        requires
            old(self).wf(),
            other.wf(),
            old(self)@.count + other@.count <= usize::MAX,
        ensures
            final(self)@ == combine_agg(old(self)@, other@),
            final(self).wf(),
    {
        proof {
            lemma_sum_bound(old(self)@);
            lemma_sum_bound(other@);
            lemma_combine_wf(old(self)@, other@);
            lemma_sum_bound(combine_agg(old(self)@, other@));
        }
        if other.min < self.min {
            self.min = other.min;
        }
        if other.max > self.max {
            self.max = other.max;
        }
        self.sum = self.sum + other.sum;
        self.count = self.count + other.count;
    }
}

} // verus!
