//! Stores as tallies: how many samples a store holds at each mean.
//!
//! An ordered store is known by its tally: two of them that hold the same
//! weight at every mean are the same store. Placing samples adds to the
//! tally, so stores that are put together by placing come out the same in
//! whatever order and grouping they are put together.

use vstd::prelude::*;
use crate::centroid::{Centroid, MAX_TOTAL_WEIGHT};
use crate::store::{
    ascending, lemma_place_all, lemma_rank_of_parts, lemma_weight_le_sum, ordered, place,
    place_all, rank_of, weight_sum, weighted,
};

verus! {

/// The weight that the store holds at the mean `value`.
pub open spec fn weight_at(cs: Seq<Centroid>, value: int) -> nat
    decreases cs.len(),
{
    if cs.len() == 0 {
        0
    } else {
        weight_at(cs.drop_last(), value) + if cs.last().mean == value {
            cs.last().weight as nat
        } else {
            0
        }
    }
}

/// The weight that the one centroid `c` holds at the mean `value`.
pub open spec fn weight_of(c: Centroid, value: int) -> nat {
    if c.mean == value {
        c.weight as nat
    } else {
        0
    }
}

/// A store holds nothing at a mean that none of its centroids has.
pub proof fn lemma_weight_at_absent(cs: Seq<Centroid>, value: int)
    requires
        forall|i: int| 0 <= i < cs.len() ==> cs[i].mean != value,
    ensures
        weight_at(cs, value) == 0,
    decreases cs.len(),
{
    if cs.len() > 0 {
        assert(cs[cs.len() - 1].mean != value);
        assert forall|i: int| 0 <= i < cs.drop_last().len() implies cs.drop_last()[i].mean
            != value by {
            assert(cs.drop_last()[i] == cs[i]);
        }
        lemma_weight_at_absent(cs.drop_last(), value);
    }
}

/// An ascending store holds at the mean of each centroid the weight of
/// that centroid.
pub proof fn lemma_weight_at_index(cs: Seq<Centroid>, i: int)
    requires
        ascending(cs),
        0 <= i < cs.len(),
    ensures
        weight_at(cs, cs[i].mean as int) == cs[i].weight,
    decreases cs.len(),
{
    let rest = cs.drop_last();
    let value = cs[i].mean as int;
    if i == cs.len() - 1 {
        assert forall|j: int| 0 <= j < rest.len() implies rest[j].mean != value by {
            assert(rest[j] == cs[j]);
            assert(cs[j].mean < cs[i].mean);
        }
        lemma_weight_at_absent(rest, value);
    } else {
        assert(cs[i].mean < cs[cs.len() - 1].mean);
        assert(rest[i] == cs[i]);
        assert forall|a: int, b: int| 0 <= a < b < rest.len() implies (#[trigger] rest[a]).mean
            < (#[trigger] rest[b]).mean by {
            assert(rest[a] == cs[a] && rest[b] == cs[b]);
        }
        lemma_weight_at_index(rest, i);
    }
}

/// A weighted store that holds something at a mean has a centroid there.
pub proof fn lemma_weight_at_present(cs: Seq<Centroid>, value: int)
    requires
        weight_at(cs, value) > 0,
    ensures
        exists|i: int| 0 <= i < cs.len() && cs[i].mean == value,
{
    if forall|i: int| 0 <= i < cs.len() ==> cs[i].mean != value {
        lemma_weight_at_absent(cs, value);
    }
}

/// A centroid that enters the store adds its weight at its mean.
pub proof fn lemma_weight_at_insert(cs: Seq<Centroid>, at: int, c: Centroid, value: int)
    requires
        0 <= at <= cs.len(),
    ensures
        weight_at(cs.insert(at, c), value) == weight_at(cs, value) + weight_of(c, value),
    decreases cs.len(),
{
    if at == cs.len() {
        assert(cs.insert(at, c).drop_last() =~= cs);
    } else {
        lemma_weight_at_insert(cs.drop_last(), at, c, value);
        assert(cs.insert(at, c).drop_last() =~= cs.drop_last().insert(at, c));
    }
}

/// A centroid that is replaced takes its weight from its mean, and the new
/// one adds its weight at its own.
pub proof fn lemma_weight_at_update(cs: Seq<Centroid>, at: int, c: Centroid, value: int)
    requires
        0 <= at < cs.len(),
    ensures
        weight_at(cs.update(at, c), value) + weight_of(cs[at], value) == weight_at(cs, value)
            + weight_of(c, value),
    decreases cs.len(),
{
    if at == cs.len() - 1 {
        assert(cs.update(at, c).drop_last() =~= cs.drop_last());
    } else {
        lemma_weight_at_update(cs.drop_last(), at, c, value);
        assert(cs.update(at, c).drop_last() =~= cs.drop_last().update(at, c));
    }
}

/// Placing samples adds their count at their value and nothing elsewhere.
pub proof fn lemma_weight_at_place(cs: Seq<Centroid>, sample: i64, count: u64, value: int)
    requires
        ordered(cs),
        count >= 1,
        weight_sum(cs) + count <= MAX_TOTAL_WEIGHT,
    ensures
        weight_at(place(cs, sample, count), value) == weight_at(cs, value) + if sample == value {
            count as nat
        } else {
            0
        },
{
    let at = rank_of(cs, sample as int) as int;
    lemma_rank_of_parts(cs, sample as int);
    if at < cs.len() && cs[at].mean == sample {
        lemma_weight_le_sum(cs, at);
        let grown = Centroid { mean: sample, weight: (cs[at].weight + count) as u64 };
        lemma_weight_at_update(cs, at, grown, value);
    } else {
        lemma_weight_at_insert(cs, at, Centroid { mean: sample, weight: count }, value);
    }
}

/// Placing the centroids of another store adds, at every mean, what the
/// other store holds there.
pub proof fn lemma_weight_at_place_all(cs: Seq<Centroid>, others: Seq<Centroid>, value: int)
    requires
        ordered(cs),
        weighted(others),
        weight_sum(cs) + weight_sum(others) <= MAX_TOTAL_WEIGHT,
    ensures
        weight_at(place_all(cs, others), value) == weight_at(cs, value) + weight_at(
            others,
            value,
        ),
    decreases others.len(),
{
    if others.len() > 0 {
        let rest = others.drop_last();
        let c = others.last();
        assert(others[others.len() - 1].weight >= 1);
        assert(weighted(rest)) by {
            assert forall|i: int| 0 <= i < rest.len() implies (#[trigger] rest[i]).weight >= 1 by {
                assert(rest[i] == others[i]);
            }
        }
        lemma_weight_at_place_all(cs, rest, value);
        lemma_place_all(cs, rest, i64::MIN as int, i64::MAX as int);
        lemma_weight_at_place(place_all(cs, rest), c.mean, c.weight, value);
    }
}

/// An ordered store is known by its tally: two ordered stores that hold
/// the same weight at every mean are the same.
pub proof fn lemma_same_tally(a: Seq<Centroid>, b: Seq<Centroid>)
    requires
        ascending(a),
        weighted(a),
        ascending(b),
        weighted(b),
        forall|value: int| weight_at(a, value) == weight_at(b, value),
    ensures
        a == b,
    decreases a.len() + b.len(),
{
    if a.len() == 0 || b.len() == 0 {
        if a.len() > 0 {
            lemma_weight_at_index(a, 0);
            assert(weight_at(b, a[0].mean as int) == 0);
            assert(a[0].weight >= 1);
        }
        if b.len() > 0 {
            lemma_weight_at_index(b, 0);
            assert(weight_at(a, b[0].mean as int) == 0);
            assert(b[0].weight >= 1);
        }
        assert(a =~= b);
    } else {
        let la = a.last();
        let lb = b.last();
        lemma_weight_at_index(a, a.len() - 1);
        lemma_weight_at_index(b, b.len() - 1);
        assert(a[a.len() - 1].weight >= 1 && b[b.len() - 1].weight >= 1);
        assert(weight_at(b, la.mean as int) == la.weight);
        assert(weight_at(a, lb.mean as int) == lb.weight);
        lemma_weight_at_present(b, la.mean as int);
        lemma_weight_at_present(a, lb.mean as int);
        let ib = choose|i: int| 0 <= i < b.len() && b[i].mean == la.mean;
        let ia = choose|i: int| 0 <= i < a.len() && a[i].mean == lb.mean;
        if ib < b.len() - 1 {
            assert(b[ib].mean < b[b.len() - 1].mean);
        }
        if ia < a.len() - 1 {
            assert(a[ia].mean < a[a.len() - 1].mean);
        }
        assert(la == lb);
        let ra = a.drop_last();
        let rb = b.drop_last();
        assert forall|i: int, j: int| 0 <= i < j < ra.len() implies (#[trigger] ra[i]).mean
            < (#[trigger] ra[j]).mean by {
            assert(ra[i] == a[i] && ra[j] == a[j]);
        }
        assert forall|i: int, j: int| 0 <= i < j < rb.len() implies (#[trigger] rb[i]).mean
            < (#[trigger] rb[j]).mean by {
            assert(rb[i] == b[i] && rb[j] == b[j]);
        }
        assert forall|i: int| 0 <= i < ra.len() implies (#[trigger] ra[i]).weight >= 1 by {
            assert(ra[i] == a[i]);
        }
        assert forall|i: int| 0 <= i < rb.len() implies (#[trigger] rb[i]).weight >= 1 by {
            assert(rb[i] == b[i]);
        }
        assert forall|value: int| weight_at(ra, value) == weight_at(rb, value) by {
            assert(weight_at(a, value) == weight_at(b, value));
        }
        lemma_same_tally(ra, rb);
        assert(a =~= ra.push(la));
        assert(b =~= rb.push(lb));
    }
}

/// Two stores put together come out the same, whichever of them is placed
/// into the other.
pub proof fn lemma_place_all_commutes(a: Seq<Centroid>, b: Seq<Centroid>)
    requires
        ordered(a),
        ordered(b),
        weight_sum(a) + weight_sum(b) <= MAX_TOTAL_WEIGHT,
    ensures
        place_all(a, b) == place_all(b, a),
{
    lemma_place_all(a, b, i64::MIN as int, i64::MAX as int);
    lemma_place_all(b, a, i64::MIN as int, i64::MAX as int);
    assert forall|value: int| weight_at(place_all(a, b), value) == weight_at(
        place_all(b, a),
        value,
    ) by {
        lemma_weight_at_place_all(a, b, value);
        lemma_weight_at_place_all(b, a, value);
    }
    lemma_same_tally(place_all(a, b), place_all(b, a));
}

/// Three stores put together come out the same, however they are grouped.
pub proof fn lemma_place_all_associates(a: Seq<Centroid>, b: Seq<Centroid>, c: Seq<Centroid>)
    requires
        ordered(a),
        ordered(b),
        ordered(c),
        weight_sum(a) + weight_sum(b) + weight_sum(c) <= MAX_TOTAL_WEIGHT,
    ensures
        place_all(place_all(a, b), c) == place_all(a, place_all(b, c)),
{
    let low = i64::MIN as int;
    let high = i64::MAX as int;
    lemma_place_all(a, b, low, high);
    lemma_place_all(b, c, low, high);
    lemma_place_all(place_all(a, b), c, low, high);
    lemma_place_all(a, place_all(b, c), low, high);
    assert forall|value: int| weight_at(place_all(place_all(a, b), c), value) == weight_at(
        place_all(a, place_all(b, c)),
        value,
    ) by {
        lemma_weight_at_place_all(a, b, value);
        lemma_weight_at_place_all(b, c, value);
        lemma_weight_at_place_all(place_all(a, b), c, value);
        lemma_weight_at_place_all(a, place_all(b, c), value);
    }
    lemma_same_tally(place_all(place_all(a, b), c), place_all(a, place_all(b, c)));
}

/// Placing a store into an empty one gives the store.
pub proof fn lemma_place_all_into_empty(b: Seq<Centroid>)
    requires
        ordered(b),
    ensures
        place_all(Seq::<Centroid>::empty(), b) == b,
{
    let empty = Seq::<Centroid>::empty();
    lemma_place_all(empty, b, i64::MIN as int, i64::MAX as int);
    assert forall|value: int| weight_at(place_all(empty, b), value) == weight_at(b, value) by {
        lemma_weight_at_place_all(empty, b, value);
    }
    lemma_same_tally(place_all(empty, b), b);
}

} // verus!
