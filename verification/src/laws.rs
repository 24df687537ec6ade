//! Laws of the digest: what holds across several of its operations.

use vstd::prelude::*;
use vstd::arithmetic::div_mod::lemma_div_is_ordered;
use vstd::arithmetic::mul::{lemma_mul_inequality, lemma_mul_is_commutative};
use crate::centroid::{lemma_lerp_bounds, lerp, Centroid, MAX_TOTAL_WEIGHT};
use crate::model::{centroid_limit, lower, upper, DigestView};
use crate::quantile::{
    estimate, knot, lemma_knots, lemma_segment, lemma_target_rank, segment_from, target_rank,
};
use crate::store::{
    lemma_place_all, lemma_place_twice, ordered, place, place_all, weight_sum, within,
};
use crate::tally::{
    lemma_place_all_associates, lemma_place_all_commutes, lemma_place_all_into_empty,
};

verus! {

/// The smallest of the values; they must not be empty.
pub open spec fn smallest(values: Seq<i64>) -> int
    recommends
        values.len() > 0,
    decreases values.len(),
{
    if values.len() <= 1 {
        values[0] as int
    } else {
        lower(smallest(values.drop_last()), values.last() as int)
    }
}

/// The largest of the values; they must not be empty.
pub open spec fn largest(values: Seq<i64>) -> int
    recommends
        values.len() > 0,
    decreases values.len(),
{
    if values.len() <= 1 {
        values[0] as int
    } else {
        upper(largest(values.drop_last()), values.last() as int)
    }
}

/// The digest after `count` insertions of the one sample `value`.
pub open spec fn insert_repeated(d: DigestView, value: i64, count: nat) -> DigestView
    decreases count,
{
    if count == 0 {
        d
    } else {
        insert_repeated(d, value, (count - 1) as nat).insert(value)
    }
}

/// `smallest` is one of the values and none of them lies below it; `largest`
/// is one of the values and none of them lies above it.
pub proof fn lemma_smallest_largest(values: Seq<i64>)
    requires
        values.len() > 0,
    ensures
        forall|i: int|
            0 <= i < values.len() ==> smallest(values) <= #[trigger] values[i] <= largest(values),
        exists|i: int| 0 <= i < values.len() && values[i] == smallest(values),
        exists|i: int| 0 <= i < values.len() && values[i] == largest(values),
    decreases values.len(),
{
    if values.len() <= 1 {
        assert(values[0] == smallest(values));
        assert(values[0] == largest(values));
    } else {
        let rest = values.drop_last();
        let end = values.len() - 1;
        lemma_smallest_largest(rest);
        assert forall|i: int| 0 <= i < values.len() implies smallest(values)
            <= #[trigger] values[i] <= largest(values) by {
            if i < end {
                assert(rest[i] == values[i]);
            }
        }
        let low = choose|i: int| 0 <= i < rest.len() && rest[i] == smallest(rest);
        let high = choose|i: int| 0 <= i < rest.len() && rest[i] == largest(rest);
        assert(rest[low] == values[low] && rest[high] == values[high]);
        if smallest(values) == values[end] {
            assert(values[end] == smallest(values));
        } else {
            assert(values[low] == smallest(values));
        }
        if largest(values) == values[end] {
            assert(values[end] == largest(values));
        } else {
            assert(values[high] == largest(values));
        }
    }
}

/// A digest that was filled from a stream knows the extremes of the stream
/// exactly: its smallest sample is the smallest value that entered, its
/// largest sample the largest.
pub proof fn lemma_extend_extremes(compression: nat, values: Seq<i64>)
    requires
        1 <= compression <= u64::MAX,
        0 < values.len() <= MAX_TOTAL_WEIGHT,
    ensures
        DigestView::empty(compression).extend(values).min == smallest(values),
        DigestView::empty(compression).extend(values).max == largest(values),
        !DigestView::empty(compression).extend(values).is_empty(),
    decreases values.len(),
{
    let start = DigestView::empty(compression);
    start.lemma_extend(values.drop_last());
    if values.len() > 1 {
        lemma_extend_extremes(compression, values.drop_last());
    } else {
        assert(values.drop_last() =~= Seq::<i64>::empty());
        assert(start.extend(values.drop_last()) == start);
    }
}

/// The quantile 0 of a stream is its smallest value and the quantile 1 its
/// largest, exactly, whatever the compression.
pub proof fn lemma_stream_extremes(compression: nat, values: Seq<i64>, denominator: nat)
    requires
        1 <= compression <= u64::MAX,
        0 < values.len() <= MAX_TOTAL_WEIGHT,
        0 < denominator,
    ensures
        DigestView::empty(compression).extend(values).quantile(0, denominator) == smallest(
            values,
        ),
        DigestView::empty(compression).extend(values).quantile(denominator, denominator)
            == largest(values),
{
    let start = DigestView::empty(compression);
    lemma_extend_extremes(compression, values);
    start.lemma_extend(values);
    start.extend(values).lemma_quantile(0, denominator);
}

/// While the digest has room for one more centroid, so that no
/// recompression is called for, samples of one value that enter one by one
/// leave the digest exactly as if they had entered at once.
pub proof fn lemma_insert_repeated(d: DigestView, value: i64, count: u64)
    requires
        d.wf(),
        d.total_weight + count <= MAX_TOTAL_WEIGHT,
        place(d.centroids, value, 1).len() <= centroid_limit(d.compression),
    ensures
        insert_repeated(d, value, count as nat) == d.insert_many(value, count),
    decreases count,
{
    if count >= 2 {
        let fewer = (count - 1) as u64;
        lemma_insert_repeated(d, value, fewer);
        lemma_place_twice(d.centroids, value, fewer, 1);
        if fewer >= 2 {
            lemma_place_twice(d.centroids, value, 1, (fewer - 1) as u64);
        }
        d.lemma_insert_many(value, fewer);
        d.lemma_empty();
        d.insert_many(value, fewer).lemma_empty();
        assert(insert_repeated(d, value, count as nat).centroids =~= d.insert_many(
            value,
            count,
        ).centroids);
    } else if count == 1 {
        assert(insert_repeated(d, value, 0) == d);
    }
}

/// The estimate grows with the rank: a larger target never has a smaller
/// estimate.
pub proof fn lemma_estimate_monotone(
    cs: Seq<Centroid>,
    min: int,
    max: int,
    low: int,
    high: int,
)
    requires
        ordered(cs),
        cs.len() > 0,
        within(cs, min, max),
        0 <= low <= high <= 2 * weight_sum(cs),
    ensures
        estimate(cs, min, max, low) <= estimate(cs, min, max, high),
{
    let a = segment_from(cs, low, 0) as int;
    let b = segment_from(cs, high, 0) as int;
    let end = cs.len() - 1;
    lemma_segment(cs, low, 0);
    lemma_segment(cs, high, 0);
    lemma_knots(cs, 0);
    lemma_knots(cs, end);
    if a < cs.len() {
        lemma_knots(cs, a);
    }
    if b < cs.len() {
        lemma_knots(cs, b);
    }
    if a > b {
        // the middle of centroid `b` reaches `high`, so it reaches `low`
        assert(knot(cs, b) < low);
    } else if a == b {
        if a == 0 {
            lemma_lerp_monotone(min, cs[0].mean as int, low, high, knot(cs, 0));
        } else if a == cs.len() {
            lemma_lerp_monotone(
                cs[end].mean as int,
                max,
                low - knot(cs, end),
                high - knot(cs, end),
                2 * weight_sum(cs) - knot(cs, end),
            );
        } else {
            assert(cs[a - 1].mean < cs[a].mean);
            lemma_lerp_monotone(
                cs[a - 1].mean as int,
                cs[a].mean as int,
                low - knot(cs, a - 1),
                high - knot(cs, a - 1),
                knot(cs, a) - knot(cs, a - 1),
            );
        }
    } else {
        // `low` is answered at or below the mean of centroid `a`, `high` at
        // or above the mean of centroid `b - 1`
        assert(estimate(cs, min, max, low) <= cs[a].mean) by {
            if a == 0 {
                lemma_lerp_bounds(min, cs[0].mean as int, low, knot(cs, 0));
            } else {
                assert(cs[a - 1].mean < cs[a].mean);
                lemma_lerp_bounds(
                    cs[a - 1].mean as int,
                    cs[a].mean as int,
                    low - knot(cs, a - 1),
                    knot(cs, a) - knot(cs, a - 1),
                );
            }
        }
        assert(cs[b - 1].mean <= estimate(cs, min, max, high)) by {
            lemma_knots(cs, b - 1);
            if b == cs.len() {
                lemma_lerp_bounds(
                    cs[end].mean as int,
                    max,
                    high - knot(cs, end),
                    2 * weight_sum(cs) - knot(cs, end),
                );
            } else {
                assert(cs[b - 1].mean < cs[b].mean);
                lemma_lerp_bounds(
                    cs[b - 1].mean as int,
                    cs[b].mean as int,
                    high - knot(cs, b - 1),
                    knot(cs, b) - knot(cs, b - 1),
                );
            }
        }
        if a < b - 1 {
            assert(cs[a].mean < cs[b - 1].mean);
        }
    }
}

/// On one stretch of the curve, a larger part gives no smaller point.
pub proof fn lemma_lerp_monotone(low: int, high: int, part: int, more: int, whole: int)
    requires
        low <= high,
        0 <= part <= more,
        0 < whole,
    ensures
        lerp(low, high, part, whole) <= lerp(low, high, more, whole),
{
    let span = high - low;
    lemma_mul_inequality(part, more, span);
    lemma_mul_is_commutative(span, part);
    lemma_mul_is_commutative(span, more);
    lemma_div_is_ordered(span * part, span * more, whole);
}

/// The quantile estimates of a digest grow with the quantile: of two
/// fractions of one denominator, the larger never has the smaller
/// estimate.
pub proof fn lemma_quantile_monotone(d: DigestView, low: nat, high: nat, denominator: nat)
    requires
        d.wf(),
        !d.is_empty(),
        low <= high <= denominator,
        0 < denominator,
    ensures
        d.quantile(low, denominator) <= d.quantile(high, denominator),
{
    d.lemma_empty();
    lemma_target_rank(low, denominator, d.total_weight);
    lemma_target_rank(high, denominator, d.total_weight);
    let t = d.total_weight as int;
    assert(2 * low * d.total_weight <= 2 * high * d.total_weight) by (nonlinear_arith)
        requires
            low <= high,
    ;
    lemma_div_is_ordered(
        (2 * low * d.total_weight) as int,
        (2 * high * d.total_weight) as int,
        denominator as int,
    );
    lemma_estimate_monotone(
        d.centroids,
        d.min,
        d.max,
        target_rank(low, denominator, d.total_weight),
        target_rank(high, denominator, d.total_weight),
    );
}

/// An empty digest that takes in another of its compression parameter
/// becomes that digest.
pub proof fn lemma_merge_into_empty(a: DigestView, b: DigestView)
    requires
        a.wf(),
        b.wf(),
        a.is_empty(),
        a.compression == b.compression,
    ensures
        a.merge(b) == b,
{
    a.lemma_empty();
    b.lemma_empty();
    lemma_place_all_into_empty(b.centroids);
}

/// Merging is commutative: two digests of one compression parameter merge
/// to the same digest in either order.
pub proof fn lemma_merge_commutes(a: DigestView, b: DigestView)
    requires
        a.wf(),
        b.wf(),
        a.compression == b.compression,
        a.total_weight + b.total_weight <= MAX_TOTAL_WEIGHT,
    ensures
        a.merge(b) == b.merge(a),
{
    a.lemma_empty();
    b.lemma_empty();
    if a.is_empty() {
        lemma_merge_into_empty(a, b);
    } else if b.is_empty() {
        lemma_merge_into_empty(b, a);
    } else {
        lemma_place_all_commutes(a.centroids, b.centroids);
    }
}

/// Merging is associative while no recompression is called for: three
/// digests of one compression parameter whose centroids together stay
/// within the centroid limit merge to the same digest however they are
/// grouped.
pub proof fn lemma_merge_associates(a: DigestView, b: DigestView, c: DigestView)
    requires
        a.wf(),
        b.wf(),
        c.wf(),
        a.compression == b.compression,
        b.compression == c.compression,
        a.total_weight + b.total_weight + c.total_weight <= MAX_TOTAL_WEIGHT,
        place_all(place_all(a.centroids, b.centroids), c.centroids).len() <= centroid_limit(
            a.compression,
        ),
    ensures
        a.merge(b).merge(c) == a.merge(b.merge(c)),
{
    let low = i64::MIN as int;
    let high = i64::MAX as int;
    a.lemma_empty();
    b.lemma_empty();
    c.lemma_empty();
    a.lemma_merge(b);
    b.lemma_merge(c);
    lemma_place_all(a.centroids, b.centroids, low, high);
    lemma_place_all(b.centroids, c.centroids, low, high);
    lemma_place_all(place_all(a.centroids, b.centroids), c.centroids, low, high);
    lemma_place_all_associates(a.centroids, b.centroids, c.centroids);
    // the centroids of `b` and `c` together are no more than those of all three
    lemma_place_all_commutes(a.centroids, place_all(b.centroids, c.centroids));
    lemma_place_all(place_all(b.centroids, c.centroids), a.centroids, low, high);
    a.merge(b).lemma_empty();
    b.merge(c).lemma_empty();
    if c.is_empty() {
    } else if b.is_empty() {
        lemma_place_all_into_empty(c.centroids);
        assert(b.merge(c) == c);
    } else if a.is_empty() {
        lemma_place_all_into_empty(b.centroids);
        lemma_place_all_into_empty(place_all(b.centroids, c.centroids));
        assert(a.merge(b) == b);
        assert(a.merge(b.merge(c)) == b.merge(c));
    } else {
        assert(a.merge(b).centroids == place_all(a.centroids, b.centroids));
        assert(b.merge(c).centroids == place_all(b.centroids, c.centroids));
    }
}

} // verus!
