//! Centroids: the weighted means a digest is made of.

use vstd::prelude::*;
use vstd::arithmetic::div_mod::{
    lemma_div_is_ordered, lemma_div_multiples_vanish, lemma_div_pos_is_pos,
    lemma_multiply_divide_lt,
};
use vstd::arithmetic::mul::{
    lemma_mul_inequality, lemma_mul_is_commutative, lemma_mul_nonnegative,
    lemma_mul_strict_inequality, lemma_mul_upper_bound,
};

verus! {

/// The largest number of samples a digest counts.
pub const MAX_TOTAL_WEIGHT: u64 = 0x7fff_ffff_ffff_ffff;

/// A weighted mean: `weight` samples whose values are summarised by `mean`.
#[derive(Clone, Copy, Debug, PartialEq, Eq, Structural)]
pub struct Centroid {
    pub mean: i64,
    pub weight: u64,
}

/// `low + (high - low) * part / whole`, rounded down: the point that lies
/// `part / whole` of the way from `low` to `high`.
pub open spec fn lerp(low: int, high: int, part: int, whole: int) -> int {
    low + (high - low) * part / whole
}

/// The interpolated point lies between the two ends, reaches `high` only
/// when `part == whole`, and is `low` when `part == 0`.
pub proof fn lemma_lerp_bounds(low: int, high: int, part: int, whole: int)
    requires
        low <= high,
        0 <= part <= whole,
        0 < whole,
    ensures
        low <= lerp(low, high, part, whole) <= high,
        part == 0 ==> lerp(low, high, part, whole) == low,
        part == whole ==> lerp(low, high, part, whole) == high,
        part < whole && low < high ==> lerp(low, high, part, whole) < high,
{
    let span = high - low;
    lemma_mul_nonnegative(span, part);
    lemma_div_pos_is_pos(span * part, whole);
    lemma_mul_inequality(part, whole, span);
    lemma_mul_is_commutative(span, part);
    lemma_mul_is_commutative(span, whole);
    lemma_div_is_ordered(span * part, span * whole, whole);
    lemma_div_multiples_vanish(span, whole);
    lemma_mul_is_commutative(whole, span);
    if part == 0 {
        assert(span * part == 0);
    }
    if part < whole && low < high {
        lemma_mul_strict_inequality(part, whole, span);
        lemma_multiply_divide_lt(span * part, whole, span);
    }
}

impl Centroid {
    /// The centroid that stands for the samples of `self` and of `right`
    /// together: the weights add up, and the mean moves from `self.mean`
    /// towards `right.mean` by the share of `right` in the joint weight.
    pub open spec fn combined(self, right: Centroid) -> Centroid {
        Centroid {
            mean: lerp(
                self.mean as int,
                right.mean as int,
                right.weight as int,
                self.weight + right.weight,
            ) as i64,
            weight: (self.weight + right.weight) as u64,
        }
    }

    /// Joins `self` with a centroid to its right.
    pub fn combine(&self, right: &Centroid) -> (joint: Centroid)
        requires
            self.mean <= right.mean,
            0 < self.weight + right.weight <= MAX_TOTAL_WEIGHT,
        ensures
            joint == self.combined(*right),
            self.mean <= joint.mean <= right.mean,
            self.weight >= 1 && self.mean < right.mean ==> joint.mean < right.mean,
            joint.weight == self.weight + right.weight,
    {
        let whole: u64 = self.weight + right.weight;
        let step: u64 = scaled_span(self.mean, right.mean, right.weight, whole);
        proof {
            lemma_lerp_bounds(
                self.mean as int,
                right.mean as int,
                right.weight as int,
                whole as int,
            );
        }
        let mean: i64 = (self.mean as i128 + step as i128) as i64;
        Centroid { mean, weight: whole }
    }
}

/// `(high - low) * part / whole`, rounded down: how far the interpolated
/// point lies above `low`.
pub fn scaled_span(low: i64, high: i64, part: u64, whole: u64) -> (step: u64)
    requires
        low <= high,
        part <= whole,
        0 < whole,
    ensures
        low + step == lerp(low as int, high as int, part as int, whole as int),
        step <= high - low,
{
    let span: u128 = (high as i128 - low as i128) as u128;
    proof {
        lemma_mul_upper_bound(
            span as int,
            0xffff_ffff_ffff_ffff,
            part as int,
            0xffff_ffff_ffff_ffff,
        );
        lemma_lerp_bounds(low as int, high as int, part as int, whole as int);
    }
    let scaled: u128 = span * (part as u128);
    (scaled / (whole as u128)) as u64
}

} // verus!
