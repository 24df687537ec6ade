use tdigest_ch_rust::centroid::Centroid;
use tdigest_ch_rust::digest::TDigest;
use tdigest_ch_rust::error::DigestError;
use tdigest_ch_rust::quantile::{estimate_at, target_of};

/// A small linear congruential generator, so that the streams are the same
/// on every run.
fn next_random(state: &mut u64) -> u64 {
    *state = state.wrapping_mul(6364136223846793005).wrapping_add(1442695040888963407);
    *state >> 33
}

fn uniform_samples(seed: u64, count: usize, below: u64) -> Vec<i64> {
    let mut state = seed;
    let mut samples = Vec::with_capacity(count);
    for _ in 0..count {
        samples.push((next_random(&mut state) % below) as i64);
    }
    samples
}

fn exact_quantile(samples: &[i64], numerator: usize, denominator: usize) -> i64 {
    let mut sorted = samples.to_vec();
    sorted.sort();
    let at = (sorted.len() - 1) * numerator / denominator;
    sorted[at]
}

fn digest_of(samples: &[i64], compression: u64) -> TDigest {
    let mut digest = TDigest::with_compression(compression);
    digest.extend(samples).unwrap();
    digest
}

#[test]
fn median_of_one_to_five_is_three() {
    let digest = digest_of(&[1, 2, 3, 4, 5], 100);
    assert_eq!(digest.size(), 5);
    assert_eq!(digest.centroid_count(), 5);
    assert_eq!(digest.quantile(1, 2), Ok(3));
    assert_eq!(digest.quantile(0, 1), Ok(1));
    assert_eq!(digest.quantile(1, 1), Ok(5));
}

#[test]
fn insert_many_of_one_value_has_one_quantile() {
    let mut digest = TDigest::new();
    digest.insert_many(5, 100).unwrap();
    assert_eq!(digest.size(), 100);
    assert_eq!(digest.centroid_count(), 1);
    assert_eq!(digest.quantile(0, 1), Ok(5));
    assert_eq!(digest.quantile(1, 1), Ok(5));
    assert_eq!(digest.quantile(1, 2), Ok(5));
}

#[test]
fn median_of_uniform_stream_is_within_five_percent() {
    let samples = uniform_samples(7, 10_000, 1_000_000);
    let digest = digest_of(&samples, 100);
    assert_eq!(digest.size(), 10_000);
    let estimate = digest.quantile(1, 2).unwrap();
    let exact = exact_quantile(&samples, 1, 2);
    assert!((estimate - exact).abs() * 20 <= exact, "estimate {} exact {}", estimate, exact);
}

#[test]
fn larger_compression_gives_smaller_error() {
    let samples = uniform_samples(21, 20_000, 1_000_000);
    let exact = exact_quantile(&samples, 1, 2);
    let coarse = digest_of(&samples, 1).quantile(1, 2).unwrap();
    let fine = digest_of(&samples, 100).quantile(1, 2).unwrap();
    assert!((fine - exact).abs() <= (coarse - exact).abs());
    assert!((fine - exact).abs() * 100 <= exact);
}

#[test]
fn quantiles_of_uniform_stream_are_close() {
    let samples = uniform_samples(11, 50_000, 1_000_000);
    let digest = digest_of(&samples, 100);
    for percent in [1usize, 5, 10, 25, 50, 75, 90, 95, 99] {
        let estimate = digest.quantile(percent as u64, 100).unwrap();
        let exact = exact_quantile(&samples, percent, 100);
        assert!((estimate - exact).abs() <= 20_000, "p{}: {} vs {}", percent, estimate, exact);
    }
}

#[test]
fn extreme_quantiles_are_the_extreme_samples() {
    for seed in 1..20u64 {
        let samples = uniform_samples(seed, 5_000, 1_000_000_007);
        let shifted: Vec<i64> = samples.iter().map(|s| s - 500_000_000).collect();
        for compression in [1u64, 2, 10, 100] {
            let digest = digest_of(&shifted, compression);
            let min = *shifted.iter().min().unwrap();
            let max = *shifted.iter().max().unwrap();
            assert_eq!(digest.quantile(0, 1), Ok(min));
            assert_eq!(digest.quantile(1, 1), Ok(max));
            assert_eq!(digest.quantile(0, 7), Ok(min));
            assert_eq!(digest.quantile(7, 7), Ok(max));
            assert_eq!(digest.min(), Some(min));
            assert_eq!(digest.max(), Some(max));
        }
    }
}

#[test]
fn estimates_grow_with_the_quantile_and_stay_between_the_extremes() {
    let samples = uniform_samples(5, 30_000, 1_000_000);
    let digest = digest_of(&samples, 10);
    let min = digest.min().unwrap();
    let max = digest.max().unwrap();
    let mut last = min;
    for step in 0..=1000u64 {
        let estimate = digest.quantile(step, 1000).unwrap();
        assert!(last <= estimate, "step {}", step);
        assert!(min <= estimate && estimate <= max);
        last = estimate;
    }
}

#[test]
fn merge_grouping_does_not_matter_much() {
    let a = uniform_samples(1, 1000, 100_001);
    let b = uniform_samples(2, 1000, 100_001);
    let c = uniform_samples(3, 1000, 100_001);
    let mut left = digest_of(&a, 100);
    left.merge(&digest_of(&b, 100)).unwrap();
    left.merge(&digest_of(&c, 100)).unwrap();
    let mut inner = digest_of(&b, 100);
    inner.merge(&digest_of(&c, 100)).unwrap();
    let mut right = digest_of(&a, 100);
    right.merge(&inner).unwrap();
    let mut all = a.clone();
    all.extend_from_slice(&b);
    all.extend_from_slice(&c);
    let single = digest_of(&all, 100);
    assert_eq!(left.size(), 3000);
    assert_eq!(right.size(), 3000);
    assert_eq!(single.size(), 3000);
    let grouped_left = left.quantile(9, 10).unwrap();
    let grouped_right = right.quantile(9, 10).unwrap();
    let one_pass = single.quantile(9, 10).unwrap();
    // samples are in thousandths, so 1000 is one unit
    assert!((grouped_left - grouped_right).abs() <= 1000);
    assert!((grouped_left - one_pass).abs() <= 1000);
    assert!((grouped_right - one_pass).abs() <= 1000);
    assert!((one_pass - exact_quantile(&all, 9, 10)).abs() <= 1000);
}

#[test]
fn merge_grouping_with_coarse_digests() {
    let a = uniform_samples(31, 4000, 100_001);
    let b = uniform_samples(32, 4000, 100_001);
    let c = uniform_samples(33, 4000, 100_001);
    let mut left = digest_of(&a, 10);
    left.merge(&digest_of(&b, 10)).unwrap();
    left.merge(&digest_of(&c, 10)).unwrap();
    let mut inner = digest_of(&b, 10);
    inner.merge(&digest_of(&c, 10)).unwrap();
    let mut right = digest_of(&a, 10);
    right.merge(&inner).unwrap();
    assert_eq!(left.size(), 12_000);
    assert_eq!(right.size(), 12_000);
    assert!(left.centroid_count() <= 200);
    assert!(right.centroid_count() <= 200);
    let grouped_left = left.quantile(9, 10).unwrap();
    let grouped_right = right.quantile(9, 10).unwrap();
    assert!((grouped_left - grouped_right).abs() <= 3000);
}

#[test]
fn quantile_of_an_empty_digest_fails() {
    let digest = TDigest::new();
    assert_eq!(digest.quantile(1, 2), Err(DigestError::EmptyDigest));
    assert_eq!(digest.quantile(0, 1), Err(DigestError::EmptyDigest));
    assert_eq!(digest.quantile(1, 1), Err(DigestError::EmptyDigest));
}

#[test]
fn quantile_outside_zero_to_one_fails() {
    let mut digest = TDigest::new();
    assert_eq!(digest.quantile(3, 2), Err(DigestError::InvalidQuantile));
    assert_eq!(digest.quantile(0, 0), Err(DigestError::InvalidQuantile));
    assert_eq!(digest.quantile(1, 0), Err(DigestError::InvalidQuantile));
    digest.insert(4).unwrap();
    assert_eq!(digest.quantile(3, 2), Err(DigestError::InvalidQuantile));
    assert_eq!(digest.quantile(u64::MAX, u64::MAX - 1), Err(DigestError::InvalidQuantile));
    assert_eq!(digest.quantile(1, 2), Ok(4));
    assert_eq!(digest.quantile(u64::MAX, u64::MAX), Ok(4));
}

#[test]
fn estimate_interpolates_between_middles() {
    // middles at the doubled ranks 1, 4, 9; smallest sample at 0, largest at 12
    let centroids = vec![
        Centroid { mean: 10, weight: 1 },
        Centroid { mean: 40, weight: 2 },
        Centroid { mean: 100, weight: 3 },
    ];
    assert_eq!(estimate_at(&centroids, 4, 130, 0), 4);
    assert_eq!(estimate_at(&centroids, 4, 130, 1), 10);
    assert_eq!(estimate_at(&centroids, 4, 130, 2), 20);
    assert_eq!(estimate_at(&centroids, 4, 130, 3), 30);
    assert_eq!(estimate_at(&centroids, 4, 130, 4), 40);
    assert_eq!(estimate_at(&centroids, 4, 130, 5), 52);
    assert_eq!(estimate_at(&centroids, 4, 130, 8), 88);
    assert_eq!(estimate_at(&centroids, 4, 130, 9), 100);
    assert_eq!(estimate_at(&centroids, 4, 130, 10), 110);
    assert_eq!(estimate_at(&centroids, 4, 130, 11), 120);
    assert_eq!(estimate_at(&centroids, 4, 130, 12), 130);
}

#[test]
fn estimate_rounds_down() {
    let centroids = vec![Centroid { mean: 0, weight: 1 }, Centroid { mean: 10, weight: 2 }];
    // between the middles at 1 and 4, one third of the way: 10 / 3
    assert_eq!(estimate_at(&centroids, 0, 10, 2), 3);
    assert_eq!(estimate_at(&centroids, 0, 10, 3), 6);
    let negative = vec![Centroid { mean: -10, weight: 1 }, Centroid { mean: 0, weight: 2 }];
    assert_eq!(estimate_at(&negative, -10, 0, 2), -7);
}

#[test]
fn target_is_twice_the_rank_rounded_down() {
    assert_eq!(target_of(1, 2, 5), 5);
    assert_eq!(target_of(0, 3, 5), 0);
    assert_eq!(target_of(3, 3, 5), 10);
    assert_eq!(target_of(1, 3, 5), 3);
    assert_eq!(target_of(9, 10, 3000), 5400);
    assert_eq!(target_of(u64::MAX, u64::MAX, i64::MAX as u64), u64::MAX - 1);
    assert_eq!(target_of(u64::MAX - 1, u64::MAX, i64::MAX as u64), u64::MAX - 2);
}

#[test]
fn quantile_over_the_whole_sample_range() {
    let mut digest = TDigest::new();
    digest.insert(i64::MIN).unwrap();
    digest.insert(i64::MAX).unwrap();
    assert_eq!(digest.quantile(0, 1), Ok(i64::MIN));
    assert_eq!(digest.quantile(1, 1), Ok(i64::MAX));
    // middles at the doubled ranks 1 and 3; the median lies halfway
    assert_eq!(digest.quantile(1, 2), Ok(-1));
    assert_eq!(digest.quantile(1, 4), Ok(i64::MIN));
}
