use tdigest_ch_rust::digest::TDigest;
use tdigest_ch_rust::error::DigestError;
use tdigest_ch_rust::sample::{sample_from_bits, sample_to_bits, LARGEST_FINITE};

fn sample(value: f64) -> i64 {
    sample_from_bits(value.to_bits()).unwrap()
}

fn value(sample: i64) -> f64 {
    f64::from_bits(sample_to_bits(sample).unwrap())
}

#[test]
fn samples_of_known_doubles() {
    assert_eq!(sample_from_bits(0), Ok(0));
    assert_eq!(sample(0.0), 0);
    assert_eq!(sample(-0.0), 0);
    assert_eq!(sample(1.0), 0x3ff0_0000_0000_0000);
    assert_eq!(sample(-1.0), -0x3ff0_0000_0000_0000);
    assert_eq!(sample(2.0), 0x4000_0000_0000_0000);
    assert_eq!(sample(f64::MAX), LARGEST_FINITE);
    assert_eq!(sample(f64::MIN), -LARGEST_FINITE);
    assert_eq!(sample(f64::from_bits(1)), 1);
    assert_eq!(sample(-f64::from_bits(1)), -1);
}

#[test]
fn infinities_and_nan_are_invalid_values() {
    assert_eq!(sample_from_bits(f64::INFINITY.to_bits()), Err(DigestError::InvalidValue));
    assert_eq!(sample_from_bits(f64::NEG_INFINITY.to_bits()), Err(DigestError::InvalidValue));
    assert_eq!(sample_from_bits(f64::NAN.to_bits()), Err(DigestError::InvalidValue));
    assert_eq!(sample_from_bits((-f64::NAN).to_bits()), Err(DigestError::InvalidValue));
    assert_eq!(sample_from_bits(0x7ff0_0000_0000_0001), Err(DigestError::InvalidValue));
    assert_eq!(sample_from_bits(u64::MAX), Err(DigestError::InvalidValue));
    assert!(sample_from_bits(0x7fef_ffff_ffff_ffff).is_ok());
}

#[test]
fn samples_give_their_doubles_back() {
    for &x in [0.0f64, 1.0, -1.0, 0.1, -0.1, 3.5e300, -2.25e-300, f64::MAX, f64::MIN, f64::MIN_POSITIVE, 5e-324].iter() {
        assert_eq!(value(sample(x)), x);
        assert_eq!(sample_to_bits(sample(x)), Some(x.to_bits()));
    }
    assert_eq!(sample_to_bits(sample(-0.0)), Some(0));
    assert_eq!(sample_to_bits(LARGEST_FINITE + 1), None);
    assert_eq!(sample_to_bits(-LARGEST_FINITE - 1), None);
    assert_eq!(sample_to_bits(i64::MAX), None);
    assert_eq!(sample_to_bits(i64::MIN), None);
    assert_eq!(sample_to_bits(-1), Some(0x8000_0000_0000_0001));
}

#[test]
fn samples_are_ordered_as_their_doubles() {
    let doubles = [
        f64::MIN, -1e300, -2.5, -1.0, -1e-300, -5e-324, 0.0, 5e-324, 1e-300, 0.5, 1.0, 1.5, 2.0,
        1e300, f64::MAX,
    ];
    for pair in doubles.windows(2) {
        assert!(pair[0] < pair[1]);
        assert!(sample(pair[0]) < sample(pair[1]), "{} {}", pair[0], pair[1]);
    }
}

#[test]
fn median_of_doubles_one_to_five() {
    let mut digest = TDigest::new();
    for x in [1.0f64, 2.0, 3.0, 4.0, 5.0] {
        digest.insert(sample(x)).unwrap();
    }
    assert_eq!(value(digest.quantile(1, 2).unwrap()), 3.0);
    assert_eq!(value(digest.quantile(0, 1).unwrap()), 1.0);
    assert_eq!(value(digest.quantile(1, 1).unwrap()), 5.0);
}

#[test]
fn hundred_times_the_double_five() {
    let mut digest = TDigest::new();
    digest.insert_many(sample(5.0), 100).unwrap();
    assert_eq!(digest.size(), 100);
    assert_eq!(value(digest.quantile(0, 1).unwrap()), 5.0);
    assert_eq!(value(digest.quantile(1, 1).unwrap()), 5.0);
}

#[test]
fn median_of_a_stream_of_doubles() {
    let mut state = 17u64;
    let mut doubles = Vec::new();
    let mut digest = TDigest::with_compression(100);
    for _ in 0..10_000 {
        state = state.wrapping_mul(6364136223846793005).wrapping_add(1442695040888963407);
        let x = (state >> 11) as f64 / (1u64 << 53) as f64 * 100.0;
        doubles.push(x);
        digest.insert(sample(x)).unwrap();
    }
    doubles.sort_by(|a, b| a.partial_cmp(b).unwrap());
    let exact = doubles[doubles.len() / 2];
    let estimate = value(digest.quantile(1, 2).unwrap());
    assert!((estimate - exact).abs() <= exact * 0.05, "{} vs {}", estimate, exact);
    assert_eq!(value(digest.quantile(0, 1).unwrap()), doubles[0]);
    assert_eq!(value(digest.quantile(1, 1).unwrap()), doubles[doubles.len() - 1]);
}
