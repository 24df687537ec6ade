//! The quantile engine: reading an estimate off the centroids.
//!
//! The centroids are taken as points of a curve from rank to value. The
//! middle of each centroid lies on it, at the centroid's mean; so do the
//! smallest sample, at rank 0, and the largest, at the rank of the total
//! weight. Between two neighbouring points the curve is a straight line.
//! Ranks are doubled throughout, which keeps the middle of every centroid
//! an integer.

use vstd::prelude::*;
use vstd::arithmetic::div_mod::{
    lemma_div_is_ordered, lemma_div_multiples_vanish, lemma_div_pos_is_pos,
};
use vstd::arithmetic::mul::{
    lemma_mul_inequality, lemma_mul_is_commutative, lemma_mul_nonnegative, lemma_mul_upper_bound,
};
use crate::centroid::{lemma_lerp_bounds, lerp, scaled_span, Centroid, MAX_TOTAL_WEIGHT};
use crate::store::{
    lemma_weight_le_sum, lemma_weight_sum_take, ordered, weight_sum, weighted, within,
};

verus! {

/// The doubled rank of the middle of centroid `i`: twice the samples before
/// it, and its own once.
pub open spec fn knot(cs: Seq<Centroid>, i: int) -> int
    recommends
        0 <= i < cs.len(),
{
    2 * weight_sum(cs.take(i)) + cs[i].weight
}

/// The first centroid from `from` on whose middle lies at or above the
/// doubled rank `target`, or the number of centroids if there is none.
pub open spec fn segment_from(cs: Seq<Centroid>, target: int, from: nat) -> nat
    decreases cs.len() - from,
{
    if from >= cs.len() || knot(cs, from as int) >= target {
        from
    } else {
        segment_from(cs, target, from + 1)
    }
}

/// The value of the curve at the doubled rank `target`: interpolated
/// between the middles of the two centroids around it, or between the
/// smallest sample and the first middle, or between the last middle and the
/// largest sample.
pub open spec fn estimate(cs: Seq<Centroid>, min: int, max: int, target: int) -> int
    recommends
        cs.len() > 0,
        0 <= target <= 2 * weight_sum(cs),
{
    let at = segment_from(cs, target, 0) as int;
    let end = cs.len() - 1;
    if at == 0 {
        lerp(min, cs[0].mean as int, target, knot(cs, 0))
    } else if at == cs.len() {
        lerp(
            cs[end].mean as int,
            max,
            target - knot(cs, end),
            2 * weight_sum(cs) - knot(cs, end),
        )
    } else {
        lerp(
            cs[at - 1].mean as int,
            cs[at].mean as int,
            target - knot(cs, at - 1),
            knot(cs, at) - knot(cs, at - 1),
        )
    }
}

/// The doubled rank that the quantile `numerator / denominator` asks for
/// in a digest of `total` samples, rounded down.
pub open spec fn target_rank(numerator: nat, denominator: nat, total: nat) -> int
    recommends
        0 < denominator,
{
    (2 * numerator * total) as int / denominator as int
}

/// The middles of the centroids lie strictly inside the rank range and
/// strictly after one another.
pub proof fn lemma_knots(cs: Seq<Centroid>, i: int)
    requires
        weighted(cs),
        0 <= i < cs.len(),
    ensures
        0 < knot(cs, i) < 2 * weight_sum(cs),
        knot(cs, i) + cs[i].weight <= 2 * weight_sum(cs),
        i == 0 ==> knot(cs, i) == cs[0].weight,
        i > 0 ==> knot(cs, i) == knot(cs, i - 1) + cs[i - 1].weight + cs[i].weight,
        i == cs.len() - 1 ==> knot(cs, i) + cs[i].weight == 2 * weight_sum(cs),
{
    lemma_weight_le_sum(cs, i);
    if i > 0 {
        lemma_weight_sum_take(cs, i);
    } else {
        assert(cs.take(0) =~= Seq::<Centroid>::empty());
    }
    if i == cs.len() - 1 {
        lemma_weight_sum_take(cs, i + 1);
        assert(cs.take(i + 1) =~= cs);
    }
}

/// `segment_from` parts the middles below `target` from the first one that
/// reaches it.
pub proof fn lemma_segment(cs: Seq<Centroid>, target: int, from: nat)
    requires
        from <= cs.len(),
    ensures
        from <= segment_from(cs, target, from) <= cs.len(),
        forall|j: int| from <= j < segment_from(cs, target, from) ==> knot(cs, j) < target,
        segment_from(cs, target, from) < cs.len() ==> knot(
            cs,
            segment_from(cs, target, from) as int,
        ) >= target,
    decreases cs.len() - from,
{
    if from < cs.len() && knot(cs, from as int) < target {
        lemma_segment(cs, target, from + 1);
    }
}

/// The estimate lies between the smallest and the largest sample; at rank 0
/// it is the smallest, at the rank of the total weight it is the largest.
pub proof fn lemma_estimate(cs: Seq<Centroid>, min: int, max: int, target: int)
    requires
        ordered(cs),
        cs.len() > 0,
        within(cs, min, max),
        0 <= target <= 2 * weight_sum(cs),
    ensures
        min <= estimate(cs, min, max, target) <= max,
        target == 0 ==> estimate(cs, min, max, target) == min,
        target == 2 * weight_sum(cs) ==> estimate(cs, min, max, target) == max,
{
    let at = segment_from(cs, target, 0) as int;
    let end = cs.len() - 1;
    lemma_segment(cs, target, 0);
    lemma_knots(cs, 0);
    lemma_knots(cs, end);
    if at == 0 {
        lemma_lerp_bounds(min, cs[0].mean as int, target, knot(cs, 0));
    } else if at == cs.len() {
        lemma_lerp_bounds(
            cs[end].mean as int,
            max,
            target - knot(cs, end),
            2 * weight_sum(cs) - knot(cs, end),
        );
    } else {
        lemma_knots(cs, at);
        assert(cs[at - 1].mean < cs[at].mean);
        lemma_lerp_bounds(
            cs[at - 1].mean as int,
            cs[at].mean as int,
            target - knot(cs, at - 1),
            knot(cs, at) - knot(cs, at - 1),
        );
    }
}

/// The target rank lies in the rank range; the quantile 0 asks for rank 0
/// and the quantile 1 for the rank of the total weight.
pub proof fn lemma_target_rank(numerator: nat, denominator: nat, total: nat)
    requires
        numerator <= denominator,
        0 < denominator,
    ensures
        0 <= target_rank(numerator, denominator, total) <= 2 * total,
        numerator == 0 ==> target_rank(numerator, denominator, total) == 0,
        numerator == denominator ==> target_rank(numerator, denominator, total) == 2 * total,
{
    let n = numerator as int;
    let d = denominator as int;
    let t2 = 2 * total as int;
    assert(2 * numerator * total == n * t2) by (nonlinear_arith)
        requires
            n == numerator,
            t2 == 2 * total,
    ;
    lemma_mul_nonnegative(n, t2);
    lemma_div_pos_is_pos(n * t2, d);
    lemma_mul_inequality(n, d, t2);
    lemma_div_is_ordered(n * t2, d * t2, d);
    lemma_mul_is_commutative(d, t2);
    lemma_div_multiples_vanish(t2, d);
    if numerator == 0 {
        assert(n * t2 == 0);
    }
}

/// Computes the doubled rank that a quantile asks for.
pub fn target_of(numerator: u64, denominator: u64, total: u64) -> (target: u64)
    requires
        numerator <= denominator,
        0 < denominator,
        total <= MAX_TOTAL_WEIGHT,
    ensures
        target == target_rank(numerator as nat, denominator as nat, total as nat),
        target <= 2 * total,
{
    proof {
        lemma_target_rank(numerator as nat, denominator as nat, total as nat);
        lemma_mul_upper_bound(
            2 * numerator as int,
            0x1_ffff_ffff_ffff_fffe,
            total as int,
            MAX_TOTAL_WEIGHT as int,
        );
    }
    let doubled: u128 = 2 * (numerator as u128);
    let product: u128 = doubled * (total as u128);
    (product / (denominator as u128)) as u64
}

/// Reads the estimate at the doubled rank `target` off the centroids.
pub fn estimate_at(cs: &Vec<Centroid>, min: i64, max: i64, target: u64) -> (value: i64)
    requires
        ordered(cs@),
        cs.len() > 0,
        within(cs@, min as int, max as int),
        target <= 2 * weight_sum(cs@),
    ensures
        value == estimate(cs@, min as int, max as int, target as int),
{
    let mut before: u64 = 0;
    let mut x0: u64 = 0;
    let mut y0: i64 = min;
    let mut i: usize = 0;
    while i < cs.len()
        invariant
            i <= cs.len(),
            ordered(cs@),
            cs.len() > 0,
            within(cs@, min as int, max as int),
            target <= 2 * weight_sum(cs@),
            before == weight_sum(cs@.take(i as int)),
            segment_from(cs@, target as int, 0) == segment_from(cs@, target as int, i as nat),
            i == 0 ==> x0 == 0 && y0 == min,
            i > 0 ==> x0 == knot(cs@, i - 1) && y0 == cs@[i - 1].mean && x0 < target,
        decreases cs.len() - i,
    {
        let c: Centroid = cs[i];
        proof {
            lemma_knots(cs@, i as int);
            if i > 0 {
                assert(cs@[i - 1].mean < cs@[i as int].mean);
            }
            assert(cs@.take(0) =~= Seq::<Centroid>::empty());
            lemma_weight_sum_take(cs@, i + 1);
        }
        let x1: u64 = 2 * before + c.weight;
        if x1 >= target {
            let step: u64 = scaled_span(y0, c.mean, target - x0, x1 - x0);
            return (y0 as i128 + step as i128) as i64;
        }
        before = before + c.weight;
        x0 = x1;
        y0 = c.mean;
        i += 1;
    }
    proof {
        lemma_knots(cs@, cs.len() - 1);
        assert(cs@.take(cs.len() as int) =~= cs@);
    }
    let step: u64 = scaled_span(y0, max, target - x0, 2 * before - x0);
    (y0 as i128 + step as i128) as i64
}

} // verus!
