//! The scale function: how much weight a centroid may hold, by its rank.
//!
//! A centroid whose middle lies at the rank fraction `q` of a digest of
//! `total` samples may hold `4 * total * q * (1 - q) / compression` samples.
//! The bound is largest at the median and falls towards 0 at both tails, so
//! that the extreme quantiles stay sharp. Ranks are handed over doubled, as
//! `rank2 = 2 * q * total`, which keeps the middle of every centroid an
//! integer.

use vstd::prelude::*;
use vstd::arithmetic::div_mod::{
    lemma_div_basics_1, lemma_div_denominator, lemma_div_is_ordered,
    lemma_div_is_ordered_by_denominator, lemma_div_multiples_vanish, lemma_div_pos_is_pos,
};
use vstd::arithmetic::mul::{lemma_mul_is_commutative, lemma_mul_nonnegative, lemma_mul_upper_bound};
use crate::centroid::MAX_TOTAL_WEIGHT;

verus! {

/// The weight bound at the doubled rank `rank2`, rounded down: with
/// `q = rank2 / (2 * total)` it is `4 * total * q * (1 - q) / compression`,
/// that is `rank2 * (2 * total - rank2) / (compression * total)`. It is 0
/// where `total` or `compression` is 0.
pub open spec fn scale_bound(rank2: nat, total: nat, compression: nat) -> nat
    recommends
        rank2 <= 2 * total,
{
    if total == 0 || compression == 0 {
        0
    } else {
        (rank2 * (2 * total - rank2) / (compression * total) as int) as nat
    }
}

/// Whether two neighbouring centroids may be joined: their joint weight must
/// stay within the bound at the middle of the left one and at the middle of
/// the right one. `before` is the weight of all centroids to their left.
pub open spec fn may_join(before: nat, left: nat, right: nat, total: nat, compression: nat) -> bool
    recommends
        before + left + right <= total,
{
    &&& left + right <= scale_bound(2 * before + left, total, compression)
    &&& left + right <= scale_bound(2 * (before + left) + right, total, compression)
}

/// `rank2 * (2 * total - rank2)` is never negative on the rank range and
/// never above `total * total`.
pub proof fn lemma_rank_product(rank2: int, total: int)
    requires
        0 <= rank2 <= 2 * total,
    ensures
        0 <= rank2 * (2 * total - rank2) <= total * total,
{
    lemma_mul_nonnegative(rank2, 2 * total - rank2);
    assert(total * total - rank2 * (2 * total - rank2) == (total - rank2) * (total - rank2))
        by (nonlinear_arith);
    assert((total - rank2) * (total - rank2) >= 0) by (nonlinear_arith);
}

/// The scale function is symmetric around the median: the bound at the rank
/// fraction `q` is the bound at `1 - q`.
pub proof fn lemma_scale_symmetric(rank2: nat, total: nat, compression: nat)
    requires
        rank2 <= 2 * total,
    ensures
        scale_bound(rank2, total, compression) == scale_bound(
            (2 * total - rank2) as nat,
            total,
            compression,
        ),
{
    let mirror = 2 * total - rank2;
    assert(rank2 * (2 * total - rank2) == mirror * (2 * total - mirror)) by (nonlinear_arith)
        requires
            mirror == 2 * total - rank2,
    ;
}

/// The scale function tightens towards the tails: between the lower tail and
/// the median a smaller rank has a smaller bound (and by symmetry between the
/// median and the upper tail a larger rank has).
pub proof fn lemma_scale_monotone(low2: nat, high2: nat, total: nat, compression: nat)
    requires
        low2 <= high2 <= total,
    ensures
        scale_bound(low2, total, compression) <= scale_bound(high2, total, compression),
{
    if total != 0 && compression != 0 {
        let t = total as int;
        let a = low2 as int;
        let b = high2 as int;
        assert(b * (2 * t - b) - a * (2 * t - a) == (b - a) * ((t - a) + (t - b)))
            by (nonlinear_arith);
        lemma_mul_nonnegative(b - a, (t - a) + (t - b));
        lemma_rank_product(a, t);
        lemma_rank_product(b, t);
        lemma_mul_nonnegative(compression as int, t);
        assert(compression * total > 0) by (nonlinear_arith)
            requires
                compression > 0,
                total > 0,
        ;
        lemma_div_is_ordered(a * (2 * t - a), b * (2 * t - b), (compression * total) as int);
        lemma_div_pos_is_pos(a * (2 * t - a), (compression * total) as int);
        lemma_div_pos_is_pos(b * (2 * t - b), (compression * total) as int);
    }
}

/// No centroid may hold more than `total / compression` samples, and at the
/// two ends of the rank range the bound is 0.
pub proof fn lemma_scale_range(rank2: nat, total: nat, compression: nat)
    requires
        rank2 <= 2 * total,
    ensures
        scale_bound(rank2, total, compression) <= total,
        compression >= 1 ==> scale_bound(rank2, total, compression) <= total / compression,
        scale_bound(0, total, compression) == 0,
        scale_bound(2 * total, total, compression) == 0,
{
    if total != 0 && compression != 0 {
        let t = total as int;
        let c = compression as int;
        let r = rank2 as int;
        lemma_rank_product(r, t);
        assert(c * t > 0 && c * t >= t) by (nonlinear_arith)
            requires
                c >= 1,
                t >= 1,
        ;
        // r(2t - r) / (ct) <= t*t / (ct) == t / c <= t
        lemma_div_is_ordered(r * (2 * t - r), t * t, c * t);
        lemma_div_pos_is_pos(r * (2 * t - r), c * t);
        lemma_div_denominator(t * t, t, c);
        lemma_mul_is_commutative(c, t);
        lemma_div_multiples_vanish(t, t);
        assert(t * t / (t * c) == (t * t / t) / c);
        assert(t * t / t == t);
        lemma_div_is_ordered_by_denominator(t, 1, c);
        assert(t / 1 == t);
        assert(0 * (2 * t - 0) == 0);
        assert((2 * t) * (2 * t - 2 * t) == 0) by (nonlinear_arith);
        assert(0int / (c * t) == 0) by {
            lemma_div_basics_1(c * t);
        }
    }
}

/// The scale function: the weight bound at the doubled rank `rank2`.
pub fn weight_bound(rank2: u64, total: u64, compression: u64) -> (bound: u64)
    requires
        rank2 <= 2 * total,
        total <= MAX_TOTAL_WEIGHT,
    ensures
        bound == scale_bound(rank2 as nat, total as nat, compression as nat),
        bound <= total,
{
    if total == 0 || compression == 0 {
        return 0;
    }
    proof {
        lemma_rank_product(rank2 as int, total as int);
        lemma_scale_range(rank2 as nat, total as nat, compression as nat);
        lemma_mul_upper_bound(
            total as int,
            MAX_TOTAL_WEIGHT as int,
            total as int,
            MAX_TOTAL_WEIGHT as int,
        );
        lemma_mul_upper_bound(
            compression as int,
            0xffff_ffff_ffff_ffff,
            total as int,
            MAX_TOTAL_WEIGHT as int,
        );
        assert(compression * total >= 1) by (nonlinear_arith)
            requires
                compression >= 1,
                total >= 1,
        ;
    }
    let mirror: u128 = 2 * (total as u128) - (rank2 as u128);
    let product: u128 = (rank2 as u128) * mirror;
    let divisor: u128 = (compression as u128) * (total as u128);
    (product / divisor) as u64
}

/// Whether two neighbouring centroids of weights `left` and `right`, with
/// `before` samples to their left, may be joined.
pub fn can_join(before: u64, left: u64, right: u64, total: u64, compression: u64) -> (yes: bool)
    requires
        before + left + right <= total,
        total <= MAX_TOTAL_WEIGHT,
    ensures
        yes == may_join(
            before as nat,
            left as nat,
            right as nat,
            total as nat,
            compression as nat,
        ),
{
    let joint: u64 = left + right;
    let left_middle: u64 = 2 * before + left;
    let right_middle: u64 = 2 * (before + left) + right;
    joint <= weight_bound(left_middle, total, compression) && joint <= weight_bound(
        right_middle,
        total,
        compression,
    )
}

} // verus!
