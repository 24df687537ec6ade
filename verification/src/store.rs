//! The centroid store: an ordered list of centroids, the passes over it
//! (placing samples, recompressing, thinning out), and what is proved of
//! them.

use vstd::prelude::*;
use crate::centroid::{lemma_lerp_bounds, Centroid, MAX_TOTAL_WEIGHT};
use crate::scale::{can_join, may_join};

verus! {

/// The number of samples that the centroids stand for.
pub open spec fn weight_sum(cs: Seq<Centroid>) -> nat
    decreases cs.len(),
{
    if cs.len() == 0 {
        0
    } else {
        weight_sum(cs.drop_last()) + cs.last().weight as nat
    }
}

/// The means grow strictly from each centroid to the next.
pub open spec fn ascending(cs: Seq<Centroid>) -> bool {
    forall|i: int, j: int|
        0 <= i < j < cs.len() ==> (#[trigger] cs[i]).mean < (#[trigger] cs[j]).mean
}

/// Every centroid stands for at least one sample.
pub open spec fn weighted(cs: Seq<Centroid>) -> bool {
    forall|i: int| 0 <= i < cs.len() ==> (#[trigger] cs[i]).weight >= 1
}

/// Every mean lies between `low` and `high`.
pub open spec fn within(cs: Seq<Centroid>, low: int, high: int) -> bool {
    forall|i: int| 0 <= i < cs.len() ==> low <= (#[trigger] cs[i]).mean <= high
}

/// What holds of the centroids of every digest: strictly ascending means,
/// no empty centroid, and a sample count that the digest can hold.
pub open spec fn ordered(cs: Seq<Centroid>) -> bool {
    &&& ascending(cs)
    &&& weighted(cs)
    &&& weight_sum(cs) <= MAX_TOTAL_WEIGHT
}

/// The number of centroids whose mean lies below `value`, for ascending
/// centroids: the place in the order where `value` belongs.
pub open spec fn rank_of(cs: Seq<Centroid>, value: int) -> nat
    decreases cs.len(),
{
    if cs.len() == 0 || cs.last().mean < value {
        cs.len()
    } else {
        rank_of(cs.drop_last(), value)
    }
}

/// The store after `count` samples of `value` have entered it: they join
/// the centroid whose mean is `value`, or form a centroid of their own at
/// their place in the order.
pub open spec fn place(cs: Seq<Centroid>, value: i64, count: u64) -> Seq<Centroid> {
    let at = rank_of(cs, value as int) as int;
    if at < cs.len() && cs[at].mean == value {
        cs.update(at, Centroid { mean: value, weight: (cs[at].weight + count) as u64 })
    } else {
        cs.insert(at, Centroid { mean: value, weight: count })
    }
}

/// The store after every centroid of `others` has entered it, in order, as
/// `weight` samples of value `mean`.
pub open spec fn place_all(cs: Seq<Centroid>, others: Seq<Centroid>) -> Seq<Centroid>
    decreases others.len(),
{
    if others.len() == 0 {
        cs
    } else {
        place(place_all(cs, others.drop_last()), others.last().mean, others.last().weight)
    }
}

/// One step of recompression: `next` joins the last centroid of `out` if the
/// scale function allows their joint weight, and else follows it.
pub open spec fn absorb(out: Seq<Centroid>, next: Centroid, total: nat, compression: nat) -> Seq<
    Centroid,
>
    recommends
        out.len() > 0,
{
    let last = out.last();
    if may_join(
        weight_sum(out.drop_last()),
        last.weight as nat,
        next.weight as nat,
        total,
        compression,
    ) {
        out.drop_last().push(last.combined(next))
    } else {
        out.push(next)
    }
}

/// The first `n` centroids of `cs` after recompression, in a digest of
/// `total` samples.
pub open spec fn compress_prefix(cs: Seq<Centroid>, n: nat, total: nat, compression: nat) -> Seq<
    Centroid,
>
    recommends
        n <= cs.len(),
    decreases n,
{
    if n == 0 {
        Seq::empty()
    } else if n == 1 {
        seq![cs[0]]
    } else {
        absorb(
            compress_prefix(cs, (n - 1) as nat, total, compression),
            cs[n - 1],
            total,
            compression,
        )
    }
}

/// The store after recompression: one pass from the lowest mean to the
/// highest, in which each centroid joins the one before it wherever the
/// scale function allows.
pub open spec fn compress(cs: Seq<Centroid>, compression: nat) -> Seq<Centroid> {
    compress_prefix(cs, cs.len(), weight_sum(cs), compression)
}

/// The first `n` centroids joined two by two: the first with the second,
/// the third with the fourth, and so on. An odd one at the end stays as it
/// is.
pub open spec fn pair_up_prefix(cs: Seq<Centroid>, n: nat) -> Seq<Centroid>
    recommends
        n <= cs.len(),
    decreases n,
{
    if n == 0 {
        Seq::empty()
    } else if n % 2 == 1 {
        pair_up_prefix(cs, (n - 1) as nat).push(cs[n - 1])
    } else {
        pair_up_prefix(cs, (n - 2) as nat).push(cs[n - 2].combined(cs[n - 1]))
    }
}

/// The centroids joined two by two, which leaves half as many.
pub open spec fn pair_up(cs: Seq<Centroid>) -> Seq<Centroid> {
    pair_up_prefix(cs, cs.len())
}

/// The store thinned out to at most `limit` centroids: joined two by two,
/// again and again, until no more than `limit` are left, or one.
pub open spec fn thin(cs: Seq<Centroid>, limit: nat) -> Seq<Centroid>
    decreases cs.len(),
{
    if cs.len() <= limit || cs.len() <= 1 {
        cs
    } else {
        proof {
            lemma_pair_up_len(cs, cs.len());
        }
        thin(pair_up(cs), limit)
    }
}

/// Joining `n` centroids two by two leaves half of `n`, rounded up.
pub proof fn lemma_pair_up_len(cs: Seq<Centroid>, n: nat)
    ensures
        pair_up_prefix(cs, n).len() == (n + 1) / 2,
    decreases n,
{
    if n == 0 {
    } else if n % 2 == 1 {
        lemma_pair_up_len(cs, (n - 1) as nat);
    } else {
        lemma_pair_up_len(cs, (n - 2) as nat);
    }
}

/// The samples of the first `n` centroids are the samples of the first
/// `n - 1` and those of centroid `n - 1`.
pub proof fn lemma_weight_sum_take(cs: Seq<Centroid>, n: int)
    requires
        0 < n <= cs.len(),
    ensures
        weight_sum(cs.take(n)) == weight_sum(cs.take(n - 1)) + cs[n - 1].weight,
{
    assert(cs.take(n).drop_last() =~= cs.take(n - 1));
}

/// A part of the store holds no more samples than the whole.
pub proof fn lemma_weight_sum_prefix(cs: Seq<Centroid>, n: int)
    requires
        0 <= n <= cs.len(),
    ensures
        weight_sum(cs.take(n)) <= weight_sum(cs),
    decreases cs.len(),
{
    if n == cs.len() {
        assert(cs.take(n) =~= cs);
    } else {
        lemma_weight_sum_prefix(cs.drop_last(), n);
        assert(cs.drop_last().take(n) =~= cs.take(n));
    }
}

/// No centroid holds more samples than the store.
pub proof fn lemma_weight_le_sum(cs: Seq<Centroid>, i: int)
    requires
        0 <= i < cs.len(),
    ensures
        weight_sum(cs.take(i)) + cs[i].weight <= weight_sum(cs),
{
    lemma_weight_sum_take(cs, i + 1);
    lemma_weight_sum_prefix(cs, i + 1);
}

/// A store without samples has no centroid, if none of them is empty.
pub proof fn lemma_weight_sum_zero(cs: Seq<Centroid>)
    requires
        weighted(cs),
    ensures
        weight_sum(cs) == 0 <==> cs.len() == 0,
{
}

/// A store in which no centroid is empty holds at least as many samples
/// as centroids.
pub proof fn lemma_len_le_weight_sum(cs: Seq<Centroid>)
    requires
        weighted(cs),
    ensures
        cs.len() <= weight_sum(cs),
    decreases cs.len(),
{
    if cs.len() > 0 {
        assert(cs[cs.len() - 1].weight >= 1);
        assert forall|i: int| 0 <= i < cs.drop_last().len() implies (#[trigger] cs.drop_last()[i]).weight
            >= 1 by {
            assert(cs.drop_last()[i] == cs[i]);
        }
        lemma_len_le_weight_sum(cs.drop_last());
    }
}

/// A centroid that enters the store brings its samples.
pub proof fn lemma_weight_sum_insert(cs: Seq<Centroid>, at: int, c: Centroid)
    requires
        0 <= at <= cs.len(),
    ensures
        weight_sum(cs.insert(at, c)) == weight_sum(cs) + c.weight,
    decreases cs.len(),
{
    if at == cs.len() {
        assert(cs.insert(at, c).drop_last() =~= cs);
    } else {
        lemma_weight_sum_insert(cs.drop_last(), at, c);
        assert(cs.insert(at, c).drop_last() =~= cs.drop_last().insert(at, c));
    }
}

/// A centroid that is replaced takes its samples with it.
pub proof fn lemma_weight_sum_update(cs: Seq<Centroid>, at: int, c: Centroid)
    requires
        0 <= at < cs.len(),
    ensures
        weight_sum(cs.update(at, c)) + cs[at].weight == weight_sum(cs) + c.weight,
    decreases cs.len(),
{
    if at == cs.len() - 1 {
        assert(cs.update(at, c).drop_last() =~= cs.drop_last());
    } else {
        lemma_weight_sum_update(cs.drop_last(), at, c);
        assert(cs.update(at, c).drop_last() =~= cs.drop_last().update(at, c));
    }
}

/// `rank_of` is the one place that parts the means below `value` from the
/// others.
pub proof fn lemma_rank_of_unique(cs: Seq<Centroid>, value: int, at: int)
    requires
        0 <= at <= cs.len(),
        forall|j: int| 0 <= j < at ==> cs[j].mean < value,
        forall|j: int| at <= j < cs.len() ==> cs[j].mean >= value,
    ensures
        rank_of(cs, value) == at,
    decreases cs.len(),
{
    if cs.len() == 0 {
    } else if cs.last().mean < value {
        if at < cs.len() {
            assert(cs[cs.len() - 1].mean >= value);
        }
    } else {
        if at == cs.len() {
            assert(cs[cs.len() - 1].mean < value);
        }
        lemma_rank_of_unique(cs.drop_last(), value, at);
    }
}

/// In ascending centroids, the means before `rank_of` lie below `value` and
/// those from it on do not.
pub proof fn lemma_rank_of_parts(cs: Seq<Centroid>, value: int)
    requires
        ascending(cs),
    ensures
        rank_of(cs, value) <= cs.len(),
        forall|j: int| 0 <= j < rank_of(cs, value) ==> cs[j].mean < value,
        forall|j: int| rank_of(cs, value) <= j < cs.len() ==> cs[j].mean >= value,
    decreases cs.len(),
{
    if cs.len() == 0 {
    } else if cs.last().mean < value {
        assert forall|j: int| 0 <= j < cs.len() implies cs[j].mean < value by {
            if j < cs.len() - 1 {
                assert(cs[j].mean < cs[cs.len() - 1].mean);
            }
        }
    } else {
        lemma_rank_of_parts(cs.drop_last(), value);
        assert forall|j: int| 0 <= j < rank_of(cs, value) implies cs[j].mean < value by {
            assert(cs.drop_last()[j] == cs[j]);
        }
        assert forall|j: int| rank_of(cs, value) <= j < cs.len() implies cs[j].mean >= value by {
            if j < cs.len() - 1 {
                assert(cs.drop_last()[j] == cs[j]);
            }
        }
    }
}

/// Placing samples keeps the store in order, adds exactly their count,
/// adds at most one centroid, and keeps every mean within bounds that hold
/// `value`.
pub proof fn lemma_place(cs: Seq<Centroid>, value: i64, count: u64, low: int, high: int)
    requires
        ordered(cs),
        count >= 1,
        weight_sum(cs) + count <= MAX_TOTAL_WEIGHT,
        within(cs, low, high),
        low <= value <= high,
    ensures
        ordered(place(cs, value, count)),
        weight_sum(place(cs, value, count)) == weight_sum(cs) + count,
        cs.len() <= place(cs, value, count).len() <= cs.len() + 1,
        within(place(cs, value, count), low, high),
{
    let at = rank_of(cs, value as int) as int;
    let placed = place(cs, value, count);
    lemma_rank_of_parts(cs, value as int);
    if at < cs.len() && cs[at].mean == value {
        let c = Centroid { mean: value, weight: (cs[at].weight + count) as u64 };
        lemma_weight_sum_update(cs, at, c);
        lemma_weight_le_sum(cs, at);
        assert forall|i: int, j: int| 0 <= i < j < placed.len() implies placed[i].mean
            < placed[j].mean by {
            assert(placed[i].mean == cs[i].mean);
            assert(placed[j].mean == cs[j].mean);
        }
    } else {
        let c = Centroid { mean: value, weight: count };
        lemma_weight_sum_insert(cs, at, c);
        assert forall|i: int, j: int| 0 <= i < j < placed.len() implies placed[i].mean
            < placed[j].mean by {
            if j < at {
                assert(placed[i] == cs[i] && placed[j] == cs[j]);
            } else if j == at {
                assert(placed[i] == cs[i]);
            } else if i < at {
                assert(placed[i] == cs[i] && placed[j] == cs[j - 1]);
            } else if i == at {
                assert(placed[j] == cs[j - 1]);
                assert(cs[j - 1].mean >= value);
                if at < cs.len() {
                    assert(cs[at].mean != value);
                    assert(cs[at].mean <= cs[j - 1].mean);
                }
            } else {
                assert(placed[i] == cs[i - 1] && placed[j] == cs[j - 1]);
            }
        }
        assert forall|i: int| 0 <= i < placed.len() implies placed[i].weight >= 1 && low
            <= placed[i].mean <= high by {
            if i < at {
                assert(placed[i] == cs[i]);
            } else if i > at {
                assert(placed[i] == cs[i - 1]);
            }
        }
    }
}

/// Samples of one value that enter in two parts leave the store as if they
/// had entered at once.
pub proof fn lemma_place_twice(cs: Seq<Centroid>, value: i64, first: u64, second: u64)
    requires
        ordered(cs),
        first >= 1,
        second >= 1,
        weight_sum(cs) + first + second <= MAX_TOTAL_WEIGHT,
    ensures
        place(place(cs, value, first), value, second) == place(
            cs,
            value,
            (first + second) as u64,
        ),
        place(cs, value, first).len() == place(cs, value, (first + second) as u64).len(),
{
    let at = rank_of(cs, value as int) as int;
    let placed = place(cs, value, first);
    lemma_rank_of_parts(cs, value as int);
    if at < cs.len() {
        lemma_weight_le_sum(cs, at);
    }
    assert forall|j: int| 0 <= j < at implies placed[j].mean < value by {
        assert(placed[j] == cs[j]);
    }
    assert forall|j: int| at <= j < placed.len() implies placed[j].mean >= value by {
        if j > at {
            if at < cs.len() && cs[at].mean == value {
                assert(placed[j] == cs[j]);
            } else {
                assert(placed[j] == cs[j - 1]);
            }
        }
    }
    lemma_rank_of_unique(placed, value as int, at);
    assert(place(placed, value, second) =~= place(cs, value, (first + second) as u64));
}

/// Placing the centroids of another store keeps the store in order, adds
/// exactly their samples, and keeps every mean within bounds that hold the
/// means of both.
pub proof fn lemma_place_all(cs: Seq<Centroid>, others: Seq<Centroid>, low: int, high: int)
    requires
        ordered(cs),
        weighted(others),
        weight_sum(cs) + weight_sum(others) <= MAX_TOTAL_WEIGHT,
        within(cs, low, high),
        within(others, low, high),
    ensures
        ordered(place_all(cs, others)),
        weight_sum(place_all(cs, others)) == weight_sum(cs) + weight_sum(others),
        cs.len() <= place_all(cs, others).len() <= cs.len() + others.len(),
        within(place_all(cs, others), low, high),
    decreases others.len(),
{
    if others.len() > 0 {
        let rest = others.drop_last();
        let c = others.last();
        assert(weighted(rest)) by {
            assert forall|i: int| 0 <= i < rest.len() implies (#[trigger] rest[i]).weight >= 1 by {
                assert(rest[i] == others[i]);
            }
        }
        assert(within(rest, low, high)) by {
            assert forall|i: int| 0 <= i < rest.len() implies low <= (#[trigger] rest[i]).mean
                <= high by {
                assert(rest[i] == others[i]);
            }
        }
        lemma_place_all(cs, rest, low, high);
        assert(others[others.len() - 1].weight >= 1);
        lemma_place(place_all(cs, rest), c.mean, c.weight, low, high);
    }
}

/// Recompressing the first `n` centroids keeps them in order and keeps
/// their samples; no mean leaves the range of the means that went in.
pub proof fn lemma_compress_prefix(cs: Seq<Centroid>, n: nat, compression: nat)
    requires
        ordered(cs),
        1 <= n <= cs.len(),
    ensures
        ({
            let out = compress_prefix(cs, n, weight_sum(cs), compression);
            &&& 1 <= out.len() <= n
            &&& ascending(out)
            &&& weighted(out)
            &&& weight_sum(out) == weight_sum(cs.take(n as int))
            &&& cs[0].mean <= out[0].mean
            &&& out.last().mean <= cs[n - 1].mean
        }),
    decreases n,
{
    let total = weight_sum(cs);
    let out = compress_prefix(cs, n, total, compression);
    if n == 1 {
        assert(out.drop_last() =~= Seq::<Centroid>::empty());
        assert(cs.take(1) =~= out);
    } else {
        let prev = compress_prefix(cs, (n - 1) as nat, total, compression);
        lemma_compress_prefix(cs, (n - 1) as nat, compression);
        let last = prev.last();
        let next = cs[n - 1];
        lemma_weight_sum_take(cs, n as int);
        lemma_weight_sum_prefix(cs, n as int);
        assert(cs[n - 2].mean < cs[n - 1].mean);
        if may_join(
            weight_sum(prev.drop_last()),
            last.weight as nat,
            next.weight as nat,
            total,
            compression,
        ) {
            let joined = last.combined(next);
            lemma_lerp_bounds(
                last.mean as int,
                next.mean as int,
                next.weight as int,
                last.weight + next.weight,
            );
            assert(out.drop_last() =~= prev.drop_last());
            assert forall|i: int, j: int| 0 <= i < j < out.len() implies (#[trigger] out[i]).mean
                < (#[trigger] out[j]).mean by {
                assert(out[i] == prev[i]);
                if j < out.len() - 1 {
                    assert(out[j] == prev[j]);
                } else {
                    assert(prev[i].mean < prev[prev.len() - 1].mean);
                }
            }
            assert forall|i: int| 0 <= i < out.len() implies (#[trigger] out[i]).weight >= 1 by {
                if i < out.len() - 1 {
                    assert(out[i] == prev[i]);
                }
            }
        } else {
            assert(out.drop_last() =~= prev);
            assert forall|i: int, j: int| 0 <= i < j < out.len() implies (#[trigger] out[i]).mean
                < (#[trigger] out[j]).mean by {
                assert(out[i] == prev[i]);
                if j < out.len() - 1 {
                    assert(out[j] == prev[j]);
                } else if i < prev.len() - 1 {
                    assert(prev[i].mean < prev[prev.len() - 1].mean);
                }
            }
            assert forall|i: int| 0 <= i < out.len() implies (#[trigger] out[i]).weight >= 1 by {
                if i < out.len() - 1 {
                    assert(out[i] == prev[i]);
                }
            }
        }
    }
}

/// Recompression keeps the store in order, keeps the number of samples,
/// adds no centroid, leaves a store with samples at least one, and keeps
/// every mean within the bounds that held before.
pub proof fn lemma_compress(cs: Seq<Centroid>, compression: nat, low: int, high: int)
    requires
        ordered(cs),
        within(cs, low, high),
    ensures
        ordered(compress(cs, compression)),
        weight_sum(compress(cs, compression)) == weight_sum(cs),
        compress(cs, compression).len() <= cs.len(),
        cs.len() > 0 ==> compress(cs, compression).len() > 0,
        within(compress(cs, compression), low, high),
{
    let out = compress(cs, compression);
    if cs.len() > 0 {
        lemma_compress_prefix(cs, cs.len(), compression);
        assert(cs.take(cs.len() as int) =~= cs);
        assert forall|i: int| 0 <= i < out.len() implies low <= (#[trigger] out[i]).mean
            <= high by {
            assert(low <= cs[0].mean);
            assert(cs[cs.len() - 1].mean <= high);
            if 0 < i {
                assert(out[0].mean < out[i].mean);
            }
            if i < out.len() - 1 {
                assert(out[i].mean < out[out.len() - 1].mean);
            }
        }
    }
}

/// Joining the first `n` centroids two by two keeps them in order and
/// keeps their samples; no mean leaves the range of the means that went in.
pub proof fn lemma_pair_up_prefix(cs: Seq<Centroid>, n: nat)
    requires
        ordered(cs),
        n <= cs.len(),
    ensures
        ({
            let out = pair_up_prefix(cs, n);
            &&& out.len() == (n + 1) / 2
            &&& ascending(out)
            &&& weighted(out)
            &&& weight_sum(out) == weight_sum(cs.take(n as int))
            &&& n > 0 ==> cs[0].mean <= out[0].mean && out.last().mean <= cs[n - 1].mean
        }),
    decreases n,
{
    let out = pair_up_prefix(cs, n);
    lemma_pair_up_len(cs, n);
    if n == 0 {
        assert(cs.take(0) =~= Seq::<Centroid>::empty());
    } else {
        let fewer = if n % 2 == 1 {
            (n - 1) as nat
        } else {
            (n - 2) as nat
        };
        let prev = pair_up_prefix(cs, fewer);
        lemma_pair_up_prefix(cs, fewer);
        lemma_pair_up_len(cs, fewer);
        lemma_weight_sum_take(cs, n as int);
        lemma_weight_sum_prefix(cs, n as int);
        assert(out.drop_last() =~= prev);
        if n % 2 == 0 {
            lemma_weight_sum_take(cs, n - 1);
            assert(cs[n - 2].mean < cs[n - 1].mean);
            assert(cs[n - 2].weight >= 1 && cs[n - 1].weight >= 1);
            lemma_lerp_bounds(
                cs[n - 2].mean as int,
                cs[n - 1].mean as int,
                cs[n - 1].weight as int,
                cs[n - 2].weight + cs[n - 1].weight,
            );
        } else {
            assert(cs[n - 1].weight >= 1);
        }
        if fewer > 0 {
            assert(cs[fewer - 1].mean < cs[fewer as int].mean);
        }
        assert forall|i: int, j: int| 0 <= i < j < out.len() implies (#[trigger] out[i]).mean
            < (#[trigger] out[j]).mean by {
            assert(out[i] == prev[i]);
            if j < out.len() - 1 {
                assert(out[j] == prev[j]);
            } else if i < prev.len() - 1 {
                assert(prev[i].mean < prev[prev.len() - 1].mean);
            }
        }
        assert forall|i: int| 0 <= i < out.len() implies (#[trigger] out[i]).weight >= 1 by {
            if i < out.len() - 1 {
                assert(out[i] == prev[i]);
            }
        }
    }
}

/// Joining the centroids two by two keeps the store in order, keeps the
/// number of samples, and keeps every mean within the bounds that held
/// before.
pub proof fn lemma_pair_up(cs: Seq<Centroid>, low: int, high: int)
    requires
        ordered(cs),
        within(cs, low, high),
    ensures
        ordered(pair_up(cs)),
        weight_sum(pair_up(cs)) == weight_sum(cs),
        pair_up(cs).len() == (cs.len() + 1) / 2,
        within(pair_up(cs), low, high),
{
    let out = pair_up(cs);
    lemma_pair_up_prefix(cs, cs.len());
    assert(cs.take(cs.len() as int) =~= cs);
    if cs.len() > 0 {
        assert forall|i: int| 0 <= i < out.len() implies low <= (#[trigger] out[i]).mean
            <= high by {
            assert(low <= cs[0].mean);
            assert(cs[cs.len() - 1].mean <= high);
            if 0 < i {
                assert(out[0].mean < out[i].mean);
            }
            if i < out.len() - 1 {
                assert(out[i].mean < out[out.len() - 1].mean);
            }
        }
    }
}

/// Thinning out keeps the store in order, keeps the number of samples and
/// the bounds of the means, and leaves no more than `limit` centroids.
pub proof fn lemma_thin(cs: Seq<Centroid>, limit: nat, low: int, high: int)
    requires
        ordered(cs),
        within(cs, low, high),
        limit >= 1,
    ensures
        ordered(thin(cs, limit)),
        weight_sum(thin(cs, limit)) == weight_sum(cs),
        thin(cs, limit).len() <= limit,
        thin(cs, limit).len() <= cs.len(),
        within(thin(cs, limit), low, high),
    decreases cs.len(),
{
    if cs.len() > limit && cs.len() > 1 {
        lemma_pair_up(cs, low, high);
        lemma_thin(pair_up(cs), limit, low, high);
    }
}

/// Finds the place of `value` in the order of the means.
pub fn find_rank(cs: &Vec<Centroid>, value: i64) -> (at: usize)
    requires
        ascending(cs@),
    ensures
        at == rank_of(cs@, value as int),
        at <= cs.len(),
{
    let mut low: usize = 0;
    let mut high: usize = cs.len();
    while low < high
        invariant
            low <= high <= cs.len(),
            forall|j: int| 0 <= j < low ==> cs@[j].mean < value,
            forall|j: int| high <= j < cs.len() ==> cs@[j].mean >= value,
            ascending(cs@),
        decreases high - low,
    {
        let middle: usize = low + (high - low) / 2;
        if cs[middle].mean < value {
            assert forall|j: int| 0 <= j < middle + 1 implies cs@[j].mean < value by {
                if j < middle {
                    assert(cs@[j].mean < cs@[middle as int].mean);
                }
            }
            low = middle + 1;
        } else {
            assert forall|j: int| middle <= j < cs.len() implies cs@[j].mean >= value by {
                if middle < j {
                    assert(cs@[middle as int].mean < cs@[j].mean);
                }
            }
            high = middle;
        }
    }
    proof {
        lemma_rank_of_unique(cs@, value as int, low as int);
    }
    low
}

/// Lets `count` samples of `value` enter the store.
pub fn place_sample(cs: &mut Vec<Centroid>, value: i64, count: u64)
    requires
        ordered(old(cs)@),
        count >= 1,
        weight_sum(old(cs)@) + count <= MAX_TOTAL_WEIGHT,
    ensures
        final(cs)@ == place(old(cs)@, value, count),
{
    let at: usize = find_rank(cs, value);
    if at < cs.len() && cs[at].mean == value {
        proof {
            lemma_weight_le_sum(cs@, at as int);
        }
        let grown = Centroid { mean: value, weight: cs[at].weight + count };
        cs.set(at, grown);
    } else {
        cs.insert(at, Centroid { mean: value, weight: count });
    }
}

/// Lets every centroid of `others` enter the store, in order.
pub fn place_centroids(cs: &mut Vec<Centroid>, others: &Vec<Centroid>)
    requires
        ordered(old(cs)@),
        weighted(others@),
        weight_sum(old(cs)@) + weight_sum(others@) <= MAX_TOTAL_WEIGHT,
    ensures
        final(cs)@ == place_all(old(cs)@, others@),
{
    let mut j: usize = 0;
    while j < others.len()
        invariant
            j <= others.len(),
            weighted(others@),
            weight_sum(old(cs)@) + weight_sum(others@) <= MAX_TOTAL_WEIGHT,
            cs@ == place_all(old(cs)@, others@.take(j as int)),
            ordered(cs@),
            weight_sum(cs@) == weight_sum(old(cs)@) + weight_sum(others@.take(j as int)),
        decreases others.len() - j,
    {
        let c: Centroid = others[j];
        proof {
            lemma_weight_sum_take(others@, j + 1);
            lemma_weight_sum_prefix(others@, j + 1);
            assert(others@.take(j + 1).drop_last() =~= others@.take(j as int));
            assert(within(cs@, i64::MIN as int, i64::MAX as int));
            lemma_place(cs@, c.mean, c.weight, i64::MIN as int, i64::MAX as int);
        }
        place_sample(cs, c.mean, c.weight);
        j += 1;
    }
    proof {
        assert(others@.take(others.len() as int) =~= others@);
    }
}

/// Recompresses the store: one pass from the lowest mean to the highest.
pub fn compress_store(cs: &Vec<Centroid>, compression: u64) -> (out: Vec<Centroid>)
    requires
        ordered(cs@),
    ensures
        out@ == compress(cs@, compression as nat),
{
    let mut out: Vec<Centroid> = Vec::new();
    if cs.len() == 0 {
        return out;
    }
    let total: u64 = total_weight(cs);
    let mut last: Centroid = cs[0];
    let mut before: u64 = 0;
    let mut i: usize = 1;
    while i < cs.len()
        invariant
            1 <= i <= cs.len(),
            ordered(cs@),
            total == weight_sum(cs@),
            out@.push(last) == compress_prefix(cs@, i as nat, total as nat, compression as nat),
            before == weight_sum(out@),
        decreases cs.len() - i,
    {
        let next: Centroid = cs[i];
        proof {
            lemma_compress_prefix(cs@, i as nat, compression as nat);
            lemma_weight_sum_take(cs@, i + 1);
            lemma_weight_sum_prefix(cs@, i + 1);
            assert(out@.push(last).drop_last() =~= out@);
            assert(cs@[i - 1].mean < cs@[i as int].mean);
        }
        if can_join(before, last.weight, next.weight, total, compression) {
            last = last.combine(&next);
        } else {
            out.push(last);
            before = before + last.weight;
            last = next;
        }
        i += 1;
    }
    out.push(last);
    out
}

/// Joins the centroids two by two.
pub fn pair_up_store(cs: &Vec<Centroid>) -> (out: Vec<Centroid>)
    requires
        ordered(cs@),
    ensures
        out@ == pair_up(cs@),
{
    let mut out: Vec<Centroid> = Vec::new();
    let mut i: usize = 0;
    while i + 1 < cs.len()
        invariant
            i <= cs.len(),
            i % 2 == 0,
            ordered(cs@),
            out@ == pair_up_prefix(cs@, i as nat),
        decreases cs.len() - i,
    {
        proof {
            lemma_weight_le_sum(cs@, i + 1);
            lemma_weight_sum_take(cs@, i + 1);
            assert(cs@[i as int].mean < cs@[i + 1].mean);
            assert(cs@[i as int].weight >= 1);
        }
        out.push(cs[i].combine(&cs[i + 1]));
        i += 2;
    }
    if i < cs.len() {
        out.push(cs[i]);
    }
    out
}

/// Thins the store out to at most `limit` centroids.
pub fn thin_store(cs: Vec<Centroid>, limit: usize) -> (out: Vec<Centroid>)
    requires
        ordered(cs@),
    ensures
        out@ == thin(cs@, limit as nat),
{
    let mut out: Vec<Centroid> = cs;
    while out.len() > limit && out.len() > 1
        invariant
            ordered(out@),
            thin(out@, limit as nat) == thin(cs@, limit as nat),
        decreases out.len(),
    {
        proof {
            lemma_pair_up(out@, i64::MIN as int, i64::MAX as int);
        }
        out = pair_up_store(&out);
    }
    out
}

/// Counts the samples of the store.
pub fn total_weight(cs: &Vec<Centroid>) -> (total: u64)
    requires
        weight_sum(cs@) <= MAX_TOTAL_WEIGHT,
    ensures
        total == weight_sum(cs@),
{
    let mut total: u64 = 0;
    let mut i: usize = 0;
    while i < cs.len()
        invariant
            i <= cs.len(),
            weight_sum(cs@) <= MAX_TOTAL_WEIGHT,
            total == weight_sum(cs@.take(i as int)),
        decreases cs.len() - i,
    {
        proof {
            lemma_weight_sum_take(cs@, i + 1);
            lemma_weight_sum_prefix(cs@, i + 1);
        }
        total = total + cs[i].weight;
        i += 1;
    }
    proof {
        assert(cs@.take(cs.len() as int) =~= cs@);
    }
    total
}

/// Judges centroids that come from outside: whether they are in strict
/// order, none of them empty, their means between `min` and `max`, and
/// their samples no more than a digest can count. Returns the number of
/// samples if so.
pub fn validate_store(cs: &Vec<Centroid>, min: i64, max: i64) -> (total: Option<u64>)
    ensures
        match total {
            Some(sum) => ordered(cs@) && within(cs@, min as int, max as int) && sum == weight_sum(
                cs@,
            ),
            None => !(ordered(cs@) && within(cs@, min as int, max as int)),
        },
{
    let mut sum: u64 = 0;
    let mut i: usize = 0;
    while i < cs.len()
        invariant
            i <= cs.len(),
            ordered(cs@.take(i as int)),
            within(cs@.take(i as int), min as int, max as int),
            sum == weight_sum(cs@.take(i as int)),
        decreases cs.len() - i,
    {
        let c: Centroid = cs[i];
        proof {
            lemma_weight_sum_take(cs@, i + 1);
            lemma_weight_sum_prefix(cs@, i + 1);
        }
        if c.weight == 0 || c.weight > MAX_TOTAL_WEIGHT - sum || c.mean < min || c.mean > max {
            return None;
        }
        if i > 0 && cs[i - 1].mean >= c.mean {
            proof {
                assert(!(cs@[i - 1].mean < cs@[i as int].mean));
            }
            return None;
        }
        proof {
            let next = cs@.take(i + 1);
            let prev = cs@.take(i as int);
            assert forall|a: int, b: int| 0 <= a < b < next.len() implies (#[trigger] next[a]).mean
                < (#[trigger] next[b]).mean by {
                if b < i {
                    assert(prev[a].mean < prev[b].mean);
                } else if a < i - 1 {
                    assert(prev[a].mean < prev[i - 1].mean);
                }
            }
            assert forall|a: int| 0 <= a < next.len() implies (#[trigger] next[a]).weight >= 1
                && min <= next[a].mean <= max by {
                if a < i {
                    assert(prev[a] == next[a]);
                }
            }
        }
        sum = sum + c.weight;
        i += 1;
    }
    proof {
        assert(cs@.take(cs.len() as int) =~= cs@);
    }
    Some(sum)
}

} // verus!
