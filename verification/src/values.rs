//! Per-name aggregates: minimum, maximum, sum and count of measurements.
//!
//! Measurements are fixed-point integers in tenths, so sums stay exact.  The
//! mathematical model of an aggregate is [`AggModel`]; a non-empty sequence of
//! measurements is summarised by [`agg_vals`], and two aggregates over
//! disjoint record groups are folded together by [`combine`], which is proved
//! commutative and associative.

use vstd::prelude::*;
use vstd::arithmetic::div_mod::{
    lemma_div_is_ordered, lemma_div_multiples_vanish_fancy, lemma_div_pos_is_pos,
};

verus! {

/// Largest magnitude, in tenths, of a single parsed measurement.
pub const VAL_LIMIT: i32 = 9999;

/// Largest record count a single aggregate may reach; keeps every sum of
/// measurements well inside `i64`.
pub const MAX_COUNT: u64 = 0x4000_0000_0000;

/// Mathematical summary of a non-empty collection of measurements (tenths).
pub struct AggModel {
    pub min: int,
    pub max: int,
    pub sum: int,
    pub count: nat,
}

pub open spec fn min_int(a: int, b: int) -> int {
    if a <= b {
        a
    } else {
        b
    }
}

pub open spec fn max_int(a: int, b: int) -> int {
    if a >= b {
        a
    } else {
        b
    }
}

/// The summary of a single measurement.
pub open spec fn agg_one(v: int) -> AggModel {
    AggModel { min: v, max: v, sum: v, count: 1 }
}

/// The summary of the union of two non-empty groups, given their summaries.
pub open spec fn combine(a: AggModel, b: AggModel) -> AggModel {
    AggModel {
        min: min_int(a.min, b.min),
        max: max_int(a.max, b.max),
        sum: a.sum + b.sum,
        count: (a.count + b.count) as nat,
    }
}

/// `combine` lifted to possibly-empty groups (`None` summarises no records).
pub open spec fn combine_opt(a: Option<AggModel>, b: Option<AggModel>) -> Option<AggModel> {
    match (a, b) {
        (Option::None, _) => b,
        (Option::Some(x), Option::None) => Some(x),
        (Option::Some(x), Option::Some(y)) => Some(combine(x, y)),
    }
}

/// The summary of a sequence of measurements, `None` when it is empty.
pub open spec fn agg_vals(vs: Seq<int>) -> Option<AggModel>
    decreases vs.len(),
{
    if vs.len() == 0 {
        None
    } else {
        combine_opt(agg_vals(vs.drop_last()), Some(agg_one(vs.last())))
    }
}

/// Range and consistency conditions every stored aggregate satisfies.
pub open spec fn agg_wf(m: AggModel) -> bool {
    &&& 1 <= m.count <= MAX_COUNT
    &&& -(VAL_LIMIT as int) <= m.min <= m.max <= VAL_LIMIT as int
    &&& m.min * m.count <= m.sum <= m.max * m.count
}

/// `combine` keeps aggregates well-formed while the total count stays in range.
pub proof fn lemma_combine_wf(a: AggModel, b: AggModel)
    requires
        agg_wf(a),
        agg_wf(b),
        a.count + b.count <= MAX_COUNT,
    ensures
        agg_wf(combine(a, b)),
{
    let c = combine(a, b);
    assert(c.min * c.count <= c.sum && c.sum <= c.max * c.count) by (nonlinear_arith)
        requires
            c.min == min_int(a.min, b.min),
            c.max == max_int(a.max, b.max),
            c.sum == a.sum + b.sum,
            c.count == a.count + b.count,
            a.min * a.count <= a.sum <= a.max * a.count,
            b.min * b.count <= b.sum <= b.max * b.count,
            a.count >= 1,
            b.count >= 1,
            c.min <= a.min,
            c.min <= b.min,
            c.max >= a.max,
            c.max >= b.max,
    {}
}

/// Merging group summaries in either order gives the same summary.
pub proof fn lemma_combine_commutes(a: AggModel, b: AggModel)
    ensures
        combine(a, b) == combine(b, a),
{
}

/// Merging group summaries associates: any grouping of merges agrees.
pub proof fn lemma_combine_assoc(a: AggModel, b: AggModel, c: AggModel)
    ensures
        combine(combine(a, b), c) == combine(a, combine(b, c)),
{
}

/// Summarising a concatenation equals combining the two summaries: the heart
/// of merge correctness for partitioned record groups.
pub proof fn lemma_agg_vals_concat(xs: Seq<int>, ys: Seq<int>)
    ensures
        agg_vals(xs + ys) == combine_opt(agg_vals(xs), agg_vals(ys)),
    decreases ys.len(),
{
    if ys.len() == 0 {
        assert(xs + ys =~= xs);
    } else {
        lemma_agg_vals_concat(xs, ys.drop_last());
        assert((xs + ys).drop_last() =~= xs + ys.drop_last());
        assert((xs + ys).len() > 0);
        assert((xs + ys).last() == ys.last());
        match (agg_vals(xs), agg_vals(ys.drop_last())) {
            (Option::Some(mx), Option::Some(my)) => {
                lemma_combine_assoc(mx, my, agg_one(ys.last()));
            },
            _ => {},
        }
    }
}

/// Running aggregate of the values seen so far for one station name.
#[derive(Clone, Copy, Debug)]
pub struct StationValues {
    pub min: i32,
    pub max: i32,
    pub sum: i64,
    pub count: u64,
}

impl StationValues {
    /// The mathematical summary this aggregate stores.
    pub open spec fn model(self) -> AggModel {
        AggModel {
            min: self.min as int,
            max: self.max as int,
            sum: self.sum as int,
            count: self.count as nat,
        }
    }

    pub open spec fn wf(self) -> bool {
        agg_wf(self.model())
    }

    /// A fresh aggregate over exactly one measurement.
    pub fn new(initial_value: i32) -> (r: Self)
        requires
            -VAL_LIMIT <= initial_value <= VAL_LIMIT,
        ensures
            r.wf(),
            r.model() == agg_one(initial_value as int),
    {
        Self { min: initial_value, max: initial_value, sum: initial_value as i64, count: 1 }
    }

    /// Folds one further measurement into the aggregate.
    pub fn update(&mut self, new_value: i32)
        requires
            old(self).wf(),
            -VAL_LIMIT <= new_value <= VAL_LIMIT,
            old(self).count < MAX_COUNT,
        ensures
            final(self).wf(),
            final(self).model() == combine(old(self).model(), agg_one(new_value as int)),
    {
        proof {
            lemma_combine_wf(old(self).model(), agg_one(new_value as int));
            lemma_sum_in_range(old(self).model());
        }
        if new_value > self.max {
            self.max = new_value;
        }
        if new_value < self.min {
            self.min = new_value;
        }
        self.sum = self.sum + new_value as i64;
        self.count = self.count + 1;
    }

    /// Folds a whole aggregate for the same name into this one.
    pub fn merge(&mut self, other: &Self)
        requires
            old(self).wf(),
            other.wf(),
            old(self).count + other.count <= MAX_COUNT,
        ensures
            final(self).wf(),
            final(self).model() == combine(old(self).model(), other.model()),
    {
        proof {
            lemma_combine_wf(old(self).model(), other.model());
            lemma_sum_in_range(old(self).model());
            lemma_sum_in_range(other.model());
        }
        if other.max > self.max {
            self.max = other.max;
        }
        if other.min < self.min {
            self.min = other.min;
        }
        self.sum = self.sum + other.sum;
        self.count = self.count + other.count;
    }

    /// The mean of the values seen so far, in tenths, rounded to nearest
    /// with ties away from zero; always between the minimum and the maximum.
    pub fn mean_tenths(&self) -> (m: i64)
        requires
            self.wf(),
        ensures
            m == mean_rounded(self.model().sum, self.model().count as int),
            self.min <= m <= self.max,
    {
        proof {
            lemma_sum_in_range(self.model());
            lemma_mean_bounds(self.model());
        }
        let c = self.count;
        let neg = self.sum < 0;
        let mag: u64 = if neg {
            (-self.sum) as u64
        } else {
            self.sum as u64
        };
        let q: u64 = (2 * mag + c) / (2 * c);
        proof {
            vstd::arithmetic::div_mod::lemma_div_nonincreasing(
                2 * mag as int + c as int,
                2 * c as int,
            );
        }
        if neg {
            -(q as i64)
        } else {
            q as i64
        }
    }
}

/// The arithmetic mean in tenths, rounded to the nearest integer with ties
/// away from zero; rendered at the same one-decimal precision as the inputs.
pub open spec fn mean_rounded(sum: int, count: int) -> int
    recommends
        count >= 1,
{
    if sum >= 0 {
        (2 * sum + count) / (2 * count)
    } else {
        -((2 * (-sum) + count) / (2 * count))
    }
}

/// The rounded mean of a well-formed aggregate lies between its minimum and
/// its maximum.
pub proof fn lemma_mean_bounds(m: AggModel)
    requires
        agg_wf(m),
    ensures
        m.min <= mean_rounded(m.sum, m.count as int) <= m.max,
{
    let s = m.sum;
    let c = m.count as int;
    let mn = m.min;
    let mx = m.max;
    if s >= 0 {
        let q = (2 * s + c) / (2 * c);
        assert(mx >= 0) by (nonlinear_arith)
            requires
                s >= 0,
                s <= mx * c,
                c >= 1,
        {}
        assert(2 * s + c <= (2 * c) * mx + c) by (nonlinear_arith)
            requires
                s <= mx * c,
        {}
        lemma_div_is_ordered(2 * s + c, (2 * c) * mx + c, 2 * c);
        lemma_div_multiples_vanish_fancy(mx, c, 2 * c);
        assert(q <= mx);
        if mn >= 0 {
            assert((2 * c) * mn + c <= 2 * s + c) by (nonlinear_arith)
                requires
                    mn * c <= s,
            {}
            lemma_div_is_ordered((2 * c) * mn + c, 2 * s + c, 2 * c);
            lemma_div_multiples_vanish_fancy(mn, c, 2 * c);
            assert(q >= mn);
        } else {
            lemma_div_pos_is_pos(2 * s + c, 2 * c);
            assert(q >= 0);
        }
    } else {
        let g = -s;
        let q = (2 * g + c) / (2 * c);
        assert(mn < 0) by (nonlinear_arith)
            requires
                mn * c <= s,
                s < 0,
                c >= 1,
        {}
        assert(2 * g + c <= (2 * c) * (-mn) + c) by (nonlinear_arith)
            requires
                mn * c <= s,
                g == -s,
        {}
        lemma_div_is_ordered(2 * g + c, (2 * c) * (-mn) + c, 2 * c);
        lemma_div_multiples_vanish_fancy(-mn, c, 2 * c);
        assert(q <= -mn);
        if mx >= 0 {
            lemma_div_pos_is_pos(2 * g + c, 2 * c);
            assert(q >= 0);
        } else {
            assert((2 * c) * (-mx) + c <= 2 * g + c) by (nonlinear_arith)
                requires
                    s <= mx * c,
                    g == -s,
            {}
            lemma_div_is_ordered((2 * c) * (-mx) + c, 2 * g + c, 2 * c);
            lemma_div_multiples_vanish_fancy(-mx, c, 2 * c);
            assert(q >= -mx);
        }
    }
}

/// A well-formed aggregate's sum is bounded by `VAL_LIMIT * MAX_COUNT`.
pub proof fn lemma_sum_in_range(m: AggModel)
    requires
        agg_wf(m),
    ensures
        -(VAL_LIMIT as int) * (MAX_COUNT as int) <= m.sum <= (VAL_LIMIT as int) * (MAX_COUNT as int),
{
    assert(-(VAL_LIMIT as int) * (MAX_COUNT as int) <= m.sum <= (VAL_LIMIT as int) * (MAX_COUNT
        as int)) by (nonlinear_arith)
        requires
            1 <= m.count <= MAX_COUNT,
            -(VAL_LIMIT as int) <= m.min <= m.max <= VAL_LIMIT as int,
            m.min * m.count <= m.sum <= m.max * m.count,
            VAL_LIMIT > 0,
            MAX_COUNT > 0,
    {}
}

} // verus!
