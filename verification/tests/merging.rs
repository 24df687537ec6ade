use tdigest_ch_rust::centroid::{Centroid, MAX_TOTAL_WEIGHT};
use tdigest_ch_rust::digest::TDigest;
use tdigest_ch_rust::error::DigestError;

fn digest_of(samples: &[i64], compression: u64) -> TDigest {
    let mut digest = TDigest::with_compression(compression);
    digest.extend(samples).unwrap();
    digest
}

#[test]
fn merge_adds_the_weights() {
    let mut left = digest_of(&[1, 5, 9], 100);
    let right = digest_of(&[2, 5, 5, 12], 100);
    assert_eq!(left.merge(&right), Ok(()));
    assert_eq!(left.size(), 7);
    assert_eq!(right.size(), 4);
    assert_eq!(
        left.centroids(),
        vec![
            Centroid { mean: 1, weight: 1 },
            Centroid { mean: 2, weight: 1 },
            Centroid { mean: 5, weight: 3 },
            Centroid { mean: 9, weight: 1 },
            Centroid { mean: 12, weight: 1 },
        ]
    );
    assert_eq!(left.min(), Some(1));
    assert_eq!(left.max(), Some(12));
    assert_eq!(left.quantile(1, 2), Ok(5));
}

#[test]
fn merge_with_an_empty_digest_changes_nothing() {
    let mut digest = digest_of(&[4, 8, 15, 16, 23, 42], 100);
    let before = digest.clone();
    digest.merge(&TDigest::new()).unwrap();
    assert!(digest.equals(&before));
    digest.merge(&TDigest::with_compression(1)).unwrap();
    assert!(digest.equals(&before));
    let mut empty = TDigest::new();
    empty.merge(&TDigest::new()).unwrap();
    assert!(empty.is_empty());
    assert!(empty.equals(&TDigest::new()));
}

#[test]
fn merge_into_an_empty_digest_takes_the_samples() {
    let source = digest_of(&[4, 8, 15, 16, 23, 42], 100);
    let mut digest = TDigest::new();
    digest.merge(&source).unwrap();
    assert!(digest.equals(&source));
}

#[test]
fn merge_keeps_the_compression_of_the_receiver() {
    let mut coarse = digest_of(&[1, 2, 3], 7);
    let fine = digest_of(&[4, 5, 6], 500);
    coarse.merge(&fine).unwrap();
    assert_eq!(coarse.compression(), 7);
    assert_eq!(fine.compression(), 500);
    assert_eq!(coarse.size(), 6);
}

#[test]
fn merge_in_either_order_of_small_digests() {
    let a = digest_of(&[10, 30, 50], 100);
    let b = digest_of(&[20, 30, 60], 100);
    let mut ab = a.clone();
    ab.merge(&b).unwrap();
    let mut ba = b.clone();
    ba.merge(&a).unwrap();
    assert!(ab.equals(&ba));
    assert_eq!(ab.size(), 6);
}

#[test]
fn merge_recompresses_above_the_limit() {
    let evens: Vec<i64> = (0..20).map(|i| i * 2).collect();
    let odds: Vec<i64> = (0..20).map(|i| i * 2 + 1).collect();
    let mut digest = digest_of(&evens, 1);
    let other = digest_of(&odds, 1);
    assert_eq!(digest.centroid_count(), 20);
    digest.merge(&other).unwrap();
    assert!(digest.centroid_count() <= 20);
    assert_eq!(digest.size(), 40);
    assert_eq!(digest.min(), Some(0));
    assert_eq!(digest.max(), Some(39));
    let centroids = digest.centroids();
    for pair in centroids.windows(2) {
        assert!(pair[0].mean < pair[1].mean);
    }
    assert_eq!(centroids.iter().map(|c| c.weight).sum::<u64>(), 40);
}

#[test]
fn merge_beyond_the_largest_count_fails() {
    let mut left = TDigest::new();
    left.insert_many(1, MAX_TOTAL_WEIGHT - 5).unwrap();
    let mut right = TDigest::new();
    right.insert_many(2, 6).unwrap();
    let before = left.clone();
    assert_eq!(left.merge(&right), Err(DigestError::InvalidValue));
    assert!(left.equals(&before));
    right.clear();
    right.insert_many(2, 5).unwrap();
    assert_eq!(left.merge(&right), Ok(()));
    assert_eq!(left.size(), MAX_TOTAL_WEIGHT);
}

#[test]
fn merge_grouping_of_small_digests_is_exact() {
    let a = digest_of(&[10, 30, 50, 70], 100);
    let b = digest_of(&[20, 30, 60], 100);
    let c = digest_of(&[5, 50, 60, 90], 100);
    let mut left = a.clone();
    left.merge(&b).unwrap();
    left.merge(&c).unwrap();
    let mut inner = b.clone();
    inner.merge(&c).unwrap();
    let mut right = a.clone();
    right.merge(&inner).unwrap();
    assert!(left.equals(&right));
    let single = digest_of(&[10, 30, 50, 70, 20, 30, 60, 5, 50, 60, 90], 100);
    assert!(left.equals(&single));
    assert_eq!(left.size(), 11);
    assert_eq!(left.centroid_count(), 8);
}

#[test]
fn merge_in_either_order_across_recompression() {
    let evens: Vec<i64> = (0..20).map(|i| i * 2).collect();
    let odds: Vec<i64> = (0..20).map(|i| i * 2 + 1).collect();
    let a = digest_of(&evens, 1);
    let b = digest_of(&odds, 1);
    let mut ab = a.clone();
    ab.merge(&b).unwrap();
    let mut ba = b.clone();
    ba.merge(&a).unwrap();
    assert!(ab.centroid_count() < 40);
    assert!(ab.equals(&ba));
}

#[test]
fn merge_of_a_fine_digest_into_a_coarse_one_stays_bounded() {
    let many: Vec<i64> = (0..1500).map(|i| i * 7).collect();
    let fine = digest_of(&many, 100);
    assert_eq!(fine.centroid_count(), 1500);
    let mut coarse = digest_of(&[-3, 11, 20_000], 1);
    coarse.merge(&fine).unwrap();
    assert!(coarse.centroid_count() <= 20);
    assert_eq!(coarse.size(), 1503);
    assert_eq!(coarse.compression(), 1);
    assert_eq!(coarse.quantile(0, 1), Ok(-3));
    assert_eq!(coarse.quantile(1, 1), Ok(20_000));
    let centroids = coarse.centroids();
    for pair in centroids.windows(2) {
        assert!(pair[0].mean < pair[1].mean);
    }
    assert_eq!(centroids.iter().map(|c| c.weight).sum::<u64>(), 1503);
    let median = coarse.quantile(1, 2).unwrap();
    assert!((median - 5250).abs() <= 2000, "median {}", median);
}
