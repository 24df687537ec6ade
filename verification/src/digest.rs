//! The digest: a bounded summary of a stream of samples that answers
//! quantile queries and can be merged with other digests.

use vstd::prelude::*;
use crate::centroid::{Centroid, MAX_TOTAL_WEIGHT};
use crate::error::DigestError;
use crate::model::{
    centroid_limit, settle, DigestView, CENTROIDS_PER_COMPRESSION, DEFAULT_COMPRESSION,
};
use crate::quantile::{estimate_at, target_of};
use crate::snapshot::{
    decode_snapshot, encode_parts, encode_snapshot, lemma_snapshot_unique, parse_frame,
    representable, DigestParts,
};
use crate::store::{
    compress, compress_store, lemma_compress, lemma_place, lemma_place_all, ordered,
    place_centroids, place_sample, thin_store, validate_store,
};

verus! {

/// A mergeable summary of a stream of integer samples.
///
/// A digest is well formed from the moment it is made, and every operation
/// keeps it so; no operation asks anything of its caller.
#[derive(Debug)]
pub struct TDigest {
    parts: DigestParts,
}

impl View for TDigest {
    type V = DigestView;

    closed spec fn view(&self) -> DigestView {
        self.parts@
    }
}

/// Whether `count` centroids are more than a digest of the given
/// compression parameter holds.
fn above_limit(count: usize, compression: u64) -> (above: bool)
    ensures
        above == (count > centroid_limit(compression as nat)),
{
    assert(CENTROIDS_PER_COMPRESSION * compression <= 20 * u64::MAX) by (nonlinear_arith)
        requires
            CENTROIDS_PER_COMPRESSION == 20,
            compression <= u64::MAX,
    ;
    count as u128 > (CENTROIDS_PER_COMPRESSION as u128) * (compression as u128)
}

/// Recompresses the centroids if they have become too many.
fn settle_parts(parts: &mut DigestParts)
    requires
        ordered(old(parts).centroids@),
    ensures
        final(parts).centroids@ == settle(old(parts).centroids@, old(parts).compression as nat),
        final(parts).total_weight == old(parts).total_weight,
        final(parts).compression == old(parts).compression,
        final(parts).min == old(parts).min,
        final(parts).max == old(parts).max,
{
    if above_limit(parts.centroids.len(), parts.compression) {
        proof {
            lemma_compress(
                parts.centroids@,
                parts.compression as nat,
                i64::MIN as int,
                i64::MAX as int,
            );
        }
        // the limit is below the number of centroids, so it is a `usize`
        let limit: usize = (CENTROIDS_PER_COMPRESSION * parts.compression) as usize;
        let compressed = compress_store(&parts.centroids, parts.compression);
        parts.centroids = thin_store(compressed, limit);
    }
}

/// Lets `count` samples of `value` enter.
fn insert_into(parts: &mut DigestParts, value: i64, count: u64)
    requires
        old(parts)@.wf(),
        count >= 1,
        old(parts)@.total_weight + count <= MAX_TOTAL_WEIGHT,
    ensures
        final(parts)@ == old(parts)@.insert_many(value, count),
        final(parts)@.wf(),
{
    proof {
        parts@.lemma_insert_many(value, count);
        lemma_place(parts.centroids@, value, count, i64::MIN as int, i64::MAX as int);
    }
    place_sample(&mut parts.centroids, value, count);
    if parts.total_weight == 0 {
        parts.min = value;
        parts.max = value;
    } else {
        if value < parts.min {
            parts.min = value;
        }
        if value > parts.max {
            parts.max = value;
        }
    }
    parts.total_weight = parts.total_weight + count;
    settle_parts(parts);
}

/// Lets the samples `values` enter, one by one in their order.
fn extend_into(parts: &mut DigestParts, values: &[i64])
    requires
        old(parts)@.wf(),
        old(parts)@.total_weight + values@.len() <= MAX_TOTAL_WEIGHT,
    ensures
        final(parts)@ == old(parts)@.extend(values@),
        final(parts)@.wf(),
{
    let mut i: usize = 0;
    while i < values.len()
        invariant
            i <= values.len(),
            old(parts)@.wf(),
            old(parts)@.total_weight + values@.len() <= MAX_TOTAL_WEIGHT,
            parts@ == old(parts)@.extend(values@.take(i as int)),
            parts@.wf(),
        decreases values.len() - i,
    {
        proof {
            old(parts)@.lemma_extend(values@.take(i as int));
            assert(values@.take(i + 1).drop_last() =~= values@.take(i as int));
        }
        insert_into(parts, values[i], 1);
        i += 1;
    }
    proof {
        assert(values@.take(values@.len() as int) =~= values@);
    }
}

/// Lets the samples of `other` enter.
fn merge_into(parts: &mut DigestParts, other: &DigestParts)
    requires
        old(parts)@.wf(),
        other@.wf(),
        !other@.is_empty(),
        old(parts)@.total_weight + other@.total_weight <= MAX_TOTAL_WEIGHT,
    ensures
        final(parts)@ == old(parts)@.merge(other@),
        final(parts)@.wf(),
{
    proof {
        parts@.lemma_merge(other@);
        lemma_place_all(parts.centroids@, other.centroids@, i64::MIN as int, i64::MAX as int);
    }
    place_centroids(&mut parts.centroids, &other.centroids);
    if parts.total_weight == 0 {
        parts.min = other.min;
        parts.max = other.max;
    } else {
        if other.min < parts.min {
            parts.min = other.min;
        }
        if other.max > parts.max {
            parts.max = other.max;
        }
    }
    parts.total_weight = parts.total_weight + other.total_weight;
    settle_parts(parts);
}

/// Whether the fields are those of a digest.
fn valid_parts(parts: &DigestParts) -> (valid: bool)
    ensures
        valid == parts@.wf(),
{
    if parts.compression == 0 || parts.min > parts.max {
        return false;
    }
    if parts.centroids.len() == 0 && (parts.min != 0 || parts.max != 0) {
        return false;
    }
    if above_limit(parts.centroids.len(), parts.compression) {
        return false;
    }
    match validate_store(&parts.centroids, parts.min, parts.max) {
        Some(total) => total == parts.total_weight,
        None => false,
    }
}

/// Copies a list of centroids.
fn copy_centroids(cs: &Vec<Centroid>) -> (copy: Vec<Centroid>)
    ensures
        copy@ == cs@,
{
    let mut copy: Vec<Centroid> = Vec::new();
    let mut i: usize = 0;
    while i < cs.len()
        invariant
            i <= cs.len(),
            copy@ == cs@.take(i as int),
        decreases cs.len() - i,
    {
        copy.push(cs[i]);
        proof {
            assert(cs@.take(i + 1) =~= cs@.take(i as int).push(cs@[i as int]));
        }
        i += 1;
    }
    proof {
        assert(cs@.take(cs.len() as int) =~= cs@);
    }
    copy
}

/// Copies the fields of a digest.
fn copy_parts(parts: &DigestParts) -> (copy: DigestParts)
    ensures
        copy@ == parts@,
{
    DigestParts {
        compression: parts.compression,
        total_weight: parts.total_weight,
        min: parts.min,
        max: parts.max,
        centroids: copy_centroids(&parts.centroids),
    }
}

impl TDigest {
    /// Every digest is well formed, at all times.
    #[verifier::type_invariant]
    spec fn well_formed(&self) -> bool {
        self.parts@.wf()
    }

    /// What holds of every digest: see [`DigestView::wf`].
    pub open spec fn wf(&self) -> bool {
        self@.wf()
    }

    /// Takes the fields out of the digest for an operation to work on, and
    /// leaves an empty digest behind until they are put back; so the digest
    /// is well formed even while the operation runs.
    fn take_parts(&mut self) -> (parts: DigestParts)
        ensures
            parts@ == old(self)@,
            parts@.wf(),
    {
        proof {
            use_type_invariant(&*self);
        }
        let mut parts = DigestParts {
            compression: 1,
            total_weight: 0,
            min: 0,
            max: 0,
            centroids: Vec::new(),
        };
        std::mem::swap(&mut self.parts, &mut parts);
        parts
    }

    /// An empty digest with the default compression parameter.
    pub fn new() -> (digest: TDigest)
        ensures
            digest.wf(),
            digest@ == DigestView::empty(DEFAULT_COMPRESSION as nat),
    {
        TDigest::with_compression(DEFAULT_COMPRESSION)
    }

    /// An empty digest with the given compression parameter. A parameter of
    /// 0 is taken as 1, the coarsest digest.
    pub fn with_compression(compression: u64) -> (digest: TDigest)
        ensures
            digest.wf(),
            digest@ == DigestView::empty(
                if compression == 0 {
                    1nat
                } else {
                    compression as nat
                },
            ),
    {
        let compression: u64 = if compression == 0 {
            1
        } else {
            compression
        };
        TDigest {
            parts: DigestParts {
                compression,
                total_weight: 0,
                min: 0,
                max: 0,
                centroids: Vec::new(),
            },
        }
    }

    /// Whether no sample has entered.
    pub fn is_empty(&self) -> (empty: bool)
        ensures
            self.wf(),
            empty == self@.is_empty(),
    {
        proof {
            use_type_invariant(self);
        }
        self.parts.total_weight == 0
    }

    /// The number of samples that have entered: the total weight, not the
    /// number of centroids.
    pub fn size(&self) -> (size: u64)
        ensures
            self.wf(),
            size == self@.total_weight,
    {
        proof {
            use_type_invariant(self);
        }
        self.parts.total_weight
    }

    /// The compression parameter.
    pub fn compression(&self) -> (compression: u64)
        ensures
            self.wf(),
            compression == self@.compression,
    {
        proof {
            use_type_invariant(self);
        }
        self.parts.compression
    }

    /// Lets `count` samples of `value` enter the digest. With a `count` of 0
    /// nothing changes. Fails with `InvalidValue`, and changes nothing, if
    /// the digest would then count more than `MAX_TOTAL_WEIGHT` samples.
    pub fn insert_many(&mut self, value: i64, count: u64) -> (res: Result<(), DigestError>)
        ensures
            final(self).wf(),
            old(self)@.total_weight + count <= MAX_TOTAL_WEIGHT ==> res == Ok::<(), DigestError>(())
                && final(self)@ == old(self)@.insert_many(value, count),
            old(self)@.total_weight + count > MAX_TOTAL_WEIGHT ==> res == Err::<(), DigestError>(
                DigestError::InvalidValue,
            ) && final(self)@ == old(self)@,
            res is Ok ==> final(self)@.total_weight == old(self)@.total_weight + count,
    {
        proof {
            use_type_invariant(&*self);
        }
        if count > MAX_TOTAL_WEIGHT - self.parts.total_weight {
            return Err(DigestError::InvalidValue);
        }
        if count == 0 {
            return Ok(());
        }
        let mut parts = self.take_parts();
        insert_into(&mut parts, value, count);
        self.parts = parts;
        Ok(())
    }

    /// Lets the sample `value` enter the digest. Fails with `InvalidValue`,
    /// and changes nothing, if the digest already counts `MAX_TOTAL_WEIGHT`
    /// samples.
    pub fn insert(&mut self, value: i64) -> (res: Result<(), DigestError>)
        ensures
            final(self).wf(),
            old(self)@.total_weight < MAX_TOTAL_WEIGHT ==> res == Ok::<(), DigestError>(())
                && final(self)@ == old(self)@.insert(value),
            old(self)@.total_weight >= MAX_TOTAL_WEIGHT ==> res == Err::<(), DigestError>(
                DigestError::InvalidValue,
            ) && final(self)@ == old(self)@,
            res is Ok ==> final(self)@.total_weight == old(self)@.total_weight + 1,
    {
        self.insert_many(value, 1)
    }

    /// Lets the samples `values` enter the digest, one by one in their
    /// order. Fails with `InvalidValue`, and changes nothing, if the digest
    /// would then count more than `MAX_TOTAL_WEIGHT` samples.
    pub fn extend(&mut self, values: &[i64]) -> (res: Result<(), DigestError>)
        ensures
            final(self).wf(),
            old(self)@.total_weight + values@.len() <= MAX_TOTAL_WEIGHT ==> res == Ok::<
                (),
                DigestError,
            >(()) && final(self)@ == old(self)@.extend(values@),
            old(self)@.total_weight + values@.len() > MAX_TOTAL_WEIGHT ==> res == Err::<
                (),
                DigestError,
            >(DigestError::InvalidValue) && final(self)@ == old(self)@,
            res is Ok ==> final(self)@.total_weight == old(self)@.total_weight + values@.len(),
    {
        proof {
            use_type_invariant(&*self);
        }
        if values.len() as u128 > (MAX_TOTAL_WEIGHT - self.parts.total_weight) as u128 {
            return Err(DigestError::InvalidValue);
        }
        proof {
            self@.lemma_extend(values@);
        }
        let mut parts = self.take_parts();
        extend_into(&mut parts, values);
        self.parts = parts;
        Ok(())
    }

    /// Lets the samples of `other` enter the digest; `other` stays as it is.
    /// The compression parameter of `self` stays, whatever that of `other`
    /// is. Merging an empty digest changes nothing. Fails with
    /// `InvalidValue`, and changes nothing, if the digest would then count
    /// more than `MAX_TOTAL_WEIGHT` samples.
    pub fn merge(&mut self, other: &TDigest) -> (res: Result<(), DigestError>)
        ensures
            final(self).wf(),
            old(self)@.total_weight + other@.total_weight <= MAX_TOTAL_WEIGHT ==> res == Ok::<
                (),
                DigestError,
            >(()) && final(self)@ == old(self)@.merge(other@),
            old(self)@.total_weight + other@.total_weight > MAX_TOTAL_WEIGHT ==> res == Err::<
                (),
                DigestError,
            >(DigestError::InvalidValue) && final(self)@ == old(self)@,
            res is Ok ==> final(self)@.total_weight == old(self)@.total_weight
                + other@.total_weight,
            other@.is_empty() ==> final(self)@ == old(self)@,
    {
        proof {
            use_type_invariant(&*self);
            use_type_invariant(other);
        }
        if other.parts.total_weight > MAX_TOTAL_WEIGHT - self.parts.total_weight {
            return Err(DigestError::InvalidValue);
        }
        if other.parts.total_weight == 0 {
            return Ok(());
        }
        proof {
            self@.lemma_merge(other@);
        }
        let mut parts = self.take_parts();
        merge_into(&mut parts, &other.parts);
        self.parts = parts;
        Ok(())
    }

    /// Empties the digest. The compression parameter stays.
    pub fn clear(&mut self)
        ensures
            final(self).wf(),
            final(self)@ == old(self)@.clear(),
            final(self)@.is_empty(),
            final(self)@.total_weight == 0,
    {
        proof {
            use_type_invariant(&*self);
        }
        self.parts = DigestParts {
            compression: self.parts.compression,
            total_weight: 0,
            min: 0,
            max: 0,
            centroids: Vec::new(),
        };
    }

    /// Estimates the quantile `numerator / denominator`: the value below
    /// which that share of the samples lies. The quantile 0 is the smallest
    /// sample, the quantile 1 the largest. Fails with `InvalidQuantile` if
    /// `numerator / denominator` is no fraction between 0 and 1, and else
    /// with `EmptyDigest` if no sample has entered.
    pub fn quantile(&self, numerator: u64, denominator: u64) -> (res: Result<i64, DigestError>)
        ensures
            self.wf(),
            denominator == 0 || numerator > denominator ==> res == Err::<i64, DigestError>(
                DigestError::InvalidQuantile,
            ),
            0 < denominator && numerator <= denominator && self@.is_empty() ==> res == Err::<
                i64,
                DigestError,
            >(DigestError::EmptyDigest),
            0 < denominator && numerator <= denominator && !self@.is_empty() ==> res == Ok::<
                i64,
                DigestError,
            >(self@.quantile(numerator as nat, denominator as nat) as i64),
            res matches Ok(value) ==> {
                &&& value == self@.quantile(numerator as nat, denominator as nat)
                &&& self@.min <= value <= self@.max
                &&& numerator == 0 ==> value == self@.min
                &&& numerator == denominator ==> value == self@.max
            },
    {
        proof {
            use_type_invariant(self);
        }
        if denominator == 0 || numerator > denominator {
            return Err(DigestError::InvalidQuantile);
        }
        if self.parts.total_weight == 0 {
            return Err(DigestError::EmptyDigest);
        }
        proof {
            self@.lemma_empty();
            self@.lemma_quantile(numerator as nat, denominator as nat);
        }
        let target: u64 = target_of(numerator, denominator, self.parts.total_weight);
        Ok(estimate_at(&self.parts.centroids, self.parts.min, self.parts.max, target))
    }

    /// The smallest sample that has entered, if there is one.
    pub fn min(&self) -> (min: Option<i64>)
        ensures
            self.wf(),
            min == if self@.is_empty() {
                None::<i64>
            } else {
                Some(self@.min as i64)
            },
    {
        proof {
            use_type_invariant(self);
        }
        if self.parts.total_weight == 0 {
            None
        } else {
            Some(self.parts.min)
        }
    }

    /// The largest sample that has entered, if there is one.
    pub fn max(&self) -> (max: Option<i64>)
        ensures
            self.wf(),
            max == if self@.is_empty() {
                None::<i64>
            } else {
                Some(self@.max as i64)
            },
    {
        proof {
            use_type_invariant(self);
        }
        if self.parts.total_weight == 0 {
            None
        } else {
            Some(self.parts.max)
        }
    }

    /// The number of centroids that the digest holds.
    pub fn centroid_count(&self) -> (count: usize)
        ensures
            self.wf(),
            count == self@.centroids.len(),
    {
        proof {
            use_type_invariant(self);
        }
        self.parts.centroids.len()
    }

    /// A copy of the centroids, by ascending mean.
    pub fn centroids(&self) -> (copy: Vec<Centroid>)
        ensures
            self.wf(),
            copy@ == self@.centroids,
    {
        proof {
            use_type_invariant(self);
        }
        copy_centroids(&self.parts.centroids)
    }

    /// The fields of the digest as plain values.
    pub fn to_parts(&self) -> (parts: DigestParts)
        ensures
            self.wf(),
            parts@ == self@,
    {
        proof {
            use_type_invariant(self);
        }
        copy_parts(&self.parts)
    }

    /// The digest with the given fields. Fails with `DecodeError` if they
    /// are not those of a digest: a compression parameter of 0, centroids
    /// that are out of order, empty or more than the centroid limit, a total
    /// weight that is not the sum of the weights or is more than
    /// `MAX_TOTAL_WEIGHT`, a mean outside the smallest and the largest
    /// sample, or an empty digest whose smallest and largest sample are not
    /// 0.
    pub fn from_parts(parts: DigestParts) -> (res: Result<TDigest, DigestError>)
        ensures
            match res {
                Ok(digest) => parts@.wf() && digest@ == parts@,
                Err(e) => !parts@.wf() && e == DigestError::DecodeError,
            },
    {
        if valid_parts(&parts) {
            Ok(TDigest { parts })
        } else {
            Err(DigestError::DecodeError)
        }
    }

    /// The snapshot of the digest: its state as bytes, from which
    /// [`TDigest::from_snapshot`] makes the digest again.
    pub fn to_snapshot(&self) -> (bytes: Vec<u8>)
        ensures
            self.wf(),
            bytes@ == encode_snapshot(self@),
            decode_snapshot(bytes@) == Some(self@),
    {
        proof {
            use_type_invariant(self);
            self@.lemma_round_trip();
        }
        encode_parts(&self.parts)
    }

    /// The digest that a snapshot holds. Fails with `DecodeError` if the
    /// bytes are not the snapshot of a digest: if they are not framed as
    /// one, or hold fields that are not those of a digest (see
    /// [`TDigest::from_parts`]).
    pub fn from_snapshot(bytes: &[u8]) -> (res: Result<TDigest, DigestError>)
        ensures
            match res {
                Ok(digest) => digest.wf() && encode_snapshot(digest@) == bytes@ && decode_snapshot(
                    bytes@,
                ) == Some(digest@),
                Err(e) => e == DigestError::DecodeError && decode_snapshot(bytes@) is None,
            },
    {
        match parse_frame(bytes) {
            None => {
                proof {
                    assert forall|d: DigestView| d.wf() implies encode_snapshot(d) != bytes@ by {
                        d.lemma_representable();
                    }
                }
                Err(DigestError::DecodeError)
            },
            Some(parts) => {
                let ghost held = parts@;
                proof {
                    assert(parts.centroids.len() <= usize::MAX);
                    assert(representable(held));
                }
                match TDigest::from_parts(parts) {
                    Ok(digest) => {
                        proof {
                            held.lemma_decode(bytes@);
                        }
                        Ok(digest)
                    },
                    Err(e) => {
                        proof {
                            assert forall|d: DigestView| d.wf() implies encode_snapshot(d)
                                != bytes@ by {
                                if encode_snapshot(d) == bytes@ {
                                    d.lemma_representable();
                                    lemma_snapshot_unique(d, held);
                                }
                            }
                        }
                        Err(e)
                    },
                }
            },
        }
    }

    /// Whether the two digests are the same: same compression parameter,
    /// same centroids, same total weight, same smallest and largest sample.
    pub fn equals(&self, other: &TDigest) -> (same: bool)
        ensures
            same == (self@ == other@),
    {
        if self.parts.compression != other.parts.compression || self.parts.total_weight
            != other.parts.total_weight || self.parts.min != other.parts.min || self.parts.max
            != other.parts.max || self.parts.centroids.len() != other.parts.centroids.len() {
            return false;
        }
        let mut i: usize = 0;
        while i < self.parts.centroids.len()
            invariant
                i <= self.parts.centroids.len(),
                self.parts.centroids.len() == other.parts.centroids.len(),
                forall|j: int|
                    0 <= j < i ==> self.parts.centroids@[j] == other.parts.centroids@[j],
            decreases self.parts.centroids.len() - i,
        {
            if self.parts.centroids[i].mean != other.parts.centroids[i].mean
                || self.parts.centroids[i].weight != other.parts.centroids[i].weight {
                return false;
            }
            i += 1;
        }
        proof {
            assert(self.parts.centroids@ =~= other.parts.centroids@);
        }
        true
    }
}

impl Clone for TDigest {
    /// An independent copy: the same digest, sharing nothing with `self`.
    fn clone(&self) -> (copy: TDigest)
        ensures
            copy@ == self@,
    {
        proof {
            use_type_invariant(self);
        }
        TDigest { parts: copy_parts(&self.parts) }
    }
}

impl Default for TDigest {
    /// An empty digest with the default compression parameter.
    fn default() -> (digest: TDigest)
        ensures
            digest.wf(),
            digest@ == DigestView::empty(DEFAULT_COMPRESSION as nat),
    {
        TDigest::new()
    }
}

} // verus!
