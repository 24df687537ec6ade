//! The digest as a mathematical value, and what every operation makes of
//! it.
//!
//! A sample that enters the digest waits as a centroid of its own at its
//! place in the order, or joins the centroid that has exactly its value.
//! When the centroids have become more than `CENTROIDS_PER_COMPRESSION`
//! times the compression parameter, one pass over them lets each join its
//! left neighbour wherever the scale function allows their joint weight.
//! Should they still be too many, they are joined two by two until they
//! are not; so a digest never holds more centroids than that.

use vstd::prelude::*;
use crate::centroid::{Centroid, MAX_TOTAL_WEIGHT};
use crate::quantile::{estimate, lemma_estimate, lemma_target_rank, target_rank};
use crate::snapshot::{decode_snapshot, encode_snapshot, lemma_snapshot_unique, representable};
use crate::store::{
    compress, lemma_compress, lemma_len_le_weight_sum, lemma_place, lemma_place_all, lemma_thin,
    lemma_weight_sum_zero, ordered, place, place_all, thin, weight_sum, within,
};

verus! {

/// The compression parameter of a digest made without naming one.
pub const DEFAULT_COMPRESSION: u64 = 100;

/// A digest holds at most this many centroids for each unit of its
/// compression parameter.
pub const CENTROIDS_PER_COMPRESSION: u64 = 20;

/// The most centroids that a digest of the given compression parameter
/// holds.
pub open spec fn centroid_limit(compression: nat) -> nat {
    CENTROIDS_PER_COMPRESSION as nat * compression
}

/// What a digest is, mathematically.
pub struct DigestView {
    /// The compression parameter: the larger, the more centroids are kept.
    pub compression: nat,
    /// The number of samples that have entered.
    pub total_weight: nat,
    /// The smallest sample that has entered; 0 while there is none.
    pub min: int,
    /// The largest sample that has entered; 0 while there is none.
    pub max: int,
    /// The centroids, by ascending mean.
    pub centroids: Seq<Centroid>,
}

/// The centroids as a digest keeps them: as they are if they are within
/// the centroid limit, and else recompressed and, should that not be
/// enough, thinned out to the limit.
pub open spec fn settle(cs: Seq<Centroid>, compression: nat) -> Seq<Centroid> {
    if cs.len() <= centroid_limit(compression) {
        cs
    } else {
        thin(compress(cs, compression), centroid_limit(compression))
    }
}

/// Settling keeps the store in order, keeps the number of samples and the
/// bounds of the means, and leaves no more centroids than the limit.
pub proof fn lemma_settle(cs: Seq<Centroid>, compression: nat, low: int, high: int)
    requires
        ordered(cs),
        within(cs, low, high),
        compression >= 1,
    ensures
        ordered(settle(cs, compression)),
        weight_sum(settle(cs, compression)) == weight_sum(cs),
        settle(cs, compression).len() <= centroid_limit(compression),
        settle(cs, compression).len() <= cs.len(),
        within(settle(cs, compression), low, high),
{
    assert(centroid_limit(compression) >= 1) by (nonlinear_arith)
        requires
            compression >= 1,
            centroid_limit(compression) == 20 * compression,
    ;
    lemma_compress(cs, compression, low, high);
    lemma_thin(compress(cs, compression), centroid_limit(compression), low, high);
}

/// The smaller of two samples.
pub open spec fn lower(a: int, b: int) -> int {
    if a <= b {
        a
    } else {
        b
    }
}

/// The larger of two samples.
pub open spec fn upper(a: int, b: int) -> int {
    if a >= b {
        a
    } else {
        b
    }
}

impl DigestView {
    /// What holds of every digest: the centroids are in strict order, none
    /// is empty, they are no more than the centroid limit, together they
    /// hold `total_weight` samples, and every mean lies between the smallest
    /// and the largest sample.
    pub open spec fn wf(self) -> bool {
        &&& self.compression >= 1
        &&& self.compression <= u64::MAX
        &&& ordered(self.centroids)
        &&& self.centroids.len() <= centroid_limit(self.compression)
        &&& self.total_weight == weight_sum(self.centroids)
        &&& i64::MIN <= self.min <= self.max <= i64::MAX
        &&& within(self.centroids, self.min, self.max)
        &&& self.centroids.len() == 0 ==> self.min == 0 && self.max == 0
    }

    /// The digest without samples.
    pub open spec fn empty(compression: nat) -> DigestView {
        DigestView { compression, total_weight: 0, min: 0, max: 0, centroids: Seq::empty() }
    }

    /// Whether no sample has entered.
    pub open spec fn is_empty(self) -> bool {
        self.total_weight == 0
    }

    /// The digest after `count` samples of `value` have entered.
    pub open spec fn insert_many(self, value: i64, count: u64) -> DigestView {
        if count == 0 {
            self
        } else {
            DigestView {
                compression: self.compression,
                total_weight: self.total_weight + count as nat,
                min: if self.is_empty() {
                    value as int
                } else {
                    lower(self.min, value as int)
                },
                max: if self.is_empty() {
                    value as int
                } else {
                    upper(self.max, value as int)
                },
                centroids: settle(place(self.centroids, value, count), self.compression),
            }
        }
    }

    /// The digest after the sample `value` has entered.
    pub open spec fn insert(self, value: i64) -> DigestView {
        self.insert_many(value, 1)
    }

    /// The digest after the samples `values` have entered, one by one in
    /// their order.
    pub open spec fn extend(self, values: Seq<i64>) -> DigestView
        decreases values.len(),
    {
        if values.len() == 0 {
            self
        } else {
            self.extend(values.drop_last()).insert(values.last())
        }
    }

    /// The digest after the samples of `other` have entered. The compression
    /// parameter stays that of `self`.
    pub open spec fn merge(self, other: DigestView) -> DigestView {
        if other.is_empty() {
            self
        } else {
            DigestView {
                compression: self.compression,
                total_weight: self.total_weight + other.total_weight,
                min: if self.is_empty() {
                    other.min
                } else {
                    lower(self.min, other.min)
                },
                max: if self.is_empty() {
                    other.max
                } else {
                    upper(self.max, other.max)
                },
                centroids: settle(place_all(self.centroids, other.centroids), self.compression),
            }
        }
    }

    /// The digest after it has been cleared: empty, with the same
    /// compression parameter.
    pub open spec fn clear(self) -> DigestView {
        DigestView::empty(self.compression)
    }

    /// The estimate of the quantile `numerator / denominator`: the value
    /// below which that share of the samples lies.
    pub open spec fn quantile(self, numerator: nat, denominator: nat) -> int
        recommends
            numerator <= denominator,
            0 < denominator,
            !self.is_empty(),
    {
        estimate(
            self.centroids,
            self.min,
            self.max,
            target_rank(numerator, denominator, self.total_weight),
        )
    }

    /// A digest is empty exactly if it has no centroid.
    pub proof fn lemma_empty(self)
        requires
            self.wf(),
        ensures
            self.is_empty() <==> self.centroids.len() == 0,
            self.is_empty() ==> self == DigestView::empty(self.compression),
    {
        lemma_weight_sum_zero(self.centroids);
        if self.is_empty() {
            assert(self.centroids =~= Seq::<Centroid>::empty());
        }
    }

    /// Insertion keeps a digest well formed and adds exactly `count`
    /// samples.
    pub proof fn lemma_insert_many(self, value: i64, count: u64)
        requires
            self.wf(),
            self.total_weight + count <= MAX_TOTAL_WEIGHT,
        ensures
            self.insert_many(value, count).wf(),
            self.insert_many(value, count).total_weight == self.total_weight + count,
            self.insert_many(value, count).compression == self.compression,
    {
        if count > 0 {
            let after = self.insert_many(value, count);
            self.lemma_empty();
            lemma_place(self.centroids, value, count, after.min, after.max);
            let placed = place(self.centroids, value, count);
            lemma_settle(placed, self.compression, after.min, after.max);
            lemma_weight_sum_zero(after.centroids);
        }
    }

    /// Extension keeps a digest well formed and adds one sample for each
    /// value.
    pub proof fn lemma_extend(self, values: Seq<i64>)
        requires
            self.wf(),
            self.total_weight + values.len() <= MAX_TOTAL_WEIGHT,
        ensures
            self.extend(values).wf(),
            self.extend(values).total_weight == self.total_weight + values.len(),
            self.extend(values).compression == self.compression,
        decreases values.len(),
    {
        if values.len() > 0 {
            self.lemma_extend(values.drop_last());
            self.extend(values.drop_last()).lemma_insert_many(values.last(), 1);
        }
    }

    /// Merging keeps a digest well formed, and the merged digest holds the
    /// samples of both, none lost and none added.
    pub proof fn lemma_merge(self, other: DigestView)
        requires
            self.wf(),
            other.wf(),
            self.total_weight + other.total_weight <= MAX_TOTAL_WEIGHT,
        ensures
            self.merge(other).wf(),
            self.merge(other).total_weight == self.total_weight + other.total_weight,
            self.merge(other).compression == self.compression,
    {
        if !other.is_empty() {
            let after = self.merge(other);
            self.lemma_empty();
            other.lemma_empty();
            lemma_place_all(self.centroids, other.centroids, after.min, after.max);
            let placed = place_all(self.centroids, other.centroids);
            lemma_settle(placed, self.compression, after.min, after.max);
            lemma_weight_sum_zero(after.centroids);
        }
    }

    /// Merging with an empty digest changes nothing.
    pub proof fn lemma_merge_empty(self, other: DigestView)
        requires
            other.is_empty(),
        ensures
            self.merge(other) == self,
    {
    }

    /// The quantile 0 is the smallest sample and the quantile 1 the largest,
    /// exactly; every other estimate lies between the two.
    pub proof fn lemma_quantile(self, numerator: nat, denominator: nat)
        requires
            self.wf(),
            !self.is_empty(),
            numerator <= denominator,
            0 < denominator,
        ensures
            self.min <= self.quantile(numerator, denominator) <= self.max,
            self.quantile(0, denominator) == self.min,
            self.quantile(denominator, denominator) == self.max,
    {
        self.lemma_empty();
        lemma_target_rank(numerator, denominator, self.total_weight);
        lemma_target_rank(0, denominator, self.total_weight);
        lemma_target_rank(denominator, denominator, self.total_weight);
        lemma_estimate(
            self.centroids,
            self.min,
            self.max,
            target_rank(numerator, denominator, self.total_weight),
        );
        lemma_estimate(self.centroids, self.min, self.max, 0);
        lemma_estimate(self.centroids, self.min, self.max, 2 * self.total_weight as int);
    }

    /// A snapshot has a word for every field of a well-formed digest.
    pub proof fn lemma_representable(self)
        requires
            self.wf(),
        ensures
            representable(self),
    {
        lemma_len_le_weight_sum(self.centroids);
    }

    /// A snapshot holds the digest that it was made of, and no other.
    pub proof fn lemma_decode(self, bytes: Seq<u8>)
        requires
            self.wf(),
            encode_snapshot(self) == bytes,
        ensures
            decode_snapshot(bytes) == Some(self),
    {
        let other = choose|d: DigestView| d.wf() && encode_snapshot(d) == bytes;
        self.lemma_representable();
        other.lemma_representable();
        lemma_snapshot_unique(self, other);
    }

    /// Decoding the snapshot of a digest gives the digest back.
    pub proof fn lemma_round_trip(self)
        requires
            self.wf(),
        ensures
            decode_snapshot(encode_snapshot(self)) == Some(self),
    {
        self.lemma_decode(encode_snapshot(self));
    }

    /// A cleared digest is empty and counts no sample.
    pub proof fn lemma_clear(self)
        requires
            self.wf(),
        ensures
            self.clear().wf(),
            self.clear().is_empty(),
            self.clear().total_weight == 0,
            self.clear().compression == self.compression,
    {
    }
}

} // verus!
