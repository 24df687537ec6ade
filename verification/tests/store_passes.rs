use tdigest_ch_rust::centroid::{scaled_span, Centroid, MAX_TOTAL_WEIGHT};
use tdigest_ch_rust::scale::{can_join, weight_bound};
use tdigest_ch_rust::store::{
    compress_store, find_rank, pair_up_store, place_centroids, place_sample, thin_store,
    total_weight, validate_store,
};

fn singles(means: &[i64]) -> Vec<Centroid> {
    means.iter().map(|&mean| Centroid { mean, weight: 1 }).collect()
}

#[test]
fn weight_bound_values() {
    // rank2 * (2 * total - rank2) / (compression * total)
    assert_eq!(weight_bound(100, 100, 1), 100);
    assert_eq!(weight_bound(100, 100, 10), 10);
    assert_eq!(weight_bound(20, 100, 1), 36);
    assert_eq!(weight_bound(180, 100, 1), 36);
    assert_eq!(weight_bound(20, 100, 7), 5);
    assert_eq!(weight_bound(1, 5, 1), 1);
    assert_eq!(weight_bound(9, 5, 1), 1);
    assert_eq!(weight_bound(0, 100, 1), 0);
    assert_eq!(weight_bound(200, 100, 1), 0);
    assert_eq!(weight_bound(0, 0, 1), 0);
    assert_eq!(weight_bound(50, 100, 0), 0);
    assert_eq!(weight_bound(MAX_TOTAL_WEIGHT, MAX_TOTAL_WEIGHT, 1), MAX_TOTAL_WEIGHT);
    assert_eq!(weight_bound(MAX_TOTAL_WEIGHT, MAX_TOTAL_WEIGHT, u64::MAX), 0);
}

#[test]
fn weight_bound_is_symmetric_and_tightens_towards_the_tails() {
    let total = 1000u64;
    let mut last = 0;
    for rank2 in 0..=total {
        let bound = weight_bound(rank2, total, 3);
        assert_eq!(bound, weight_bound(2 * total - rank2, total, 3));
        assert!(last <= bound);
        assert!(bound <= total / 3);
        last = bound;
    }
}

#[test]
fn can_join_asks_both_middles() {
    // five samples, compression 1: bounds at the doubled ranks 1..9 are
    // 1, 3, 4, 4, 5, 4, 4, 3, 1
    assert!(!can_join(0, 1, 1, 5, 1));
    assert!(can_join(1, 1, 1, 5, 1));
    assert!(can_join(1, 2, 1, 5, 1));
    assert!(!can_join(1, 3, 1, 5, 1));
    assert!(!can_join(3, 1, 1, 5, 1));
    // compression 2: the bounds are 0, 1, 2, 2, 2, 2, 2, 1, 0
    assert!(can_join(1, 1, 1, 5, 2));
    assert!(!can_join(1, 2, 1, 5, 2));
    assert!(!can_join(1, 1, 1, 5, 3));
}

#[test]
fn combine_moves_the_mean_by_the_share_of_the_right() {
    let left = Centroid { mean: 10, weight: 1 };
    let right = Centroid { mean: 20, weight: 3 };
    assert_eq!(left.combine(&right), Centroid { mean: 17, weight: 4 });
    let heavy = Centroid { mean: 10, weight: 3 };
    let light = Centroid { mean: 20, weight: 1 };
    assert_eq!(heavy.combine(&light), Centroid { mean: 12, weight: 4 });
    let same = Centroid { mean: -5, weight: 2 };
    assert_eq!(same.combine(&same), Centroid { mean: -5, weight: 4 });
    let low = Centroid { mean: i64::MIN, weight: 1 };
    let high = Centroid { mean: i64::MAX, weight: 1 };
    assert_eq!(low.combine(&high), Centroid { mean: -1, weight: 2 });
    let negative = Centroid { mean: -20, weight: 1 };
    let towards = Centroid { mean: -10, weight: 2 };
    assert_eq!(negative.combine(&towards), Centroid { mean: -14, weight: 3 });
}

#[test]
fn scaled_span_rounds_down() {
    assert_eq!(scaled_span(0, 10, 1, 3), 3);
    assert_eq!(scaled_span(0, 10, 2, 3), 6);
    assert_eq!(scaled_span(0, 10, 3, 3), 10);
    assert_eq!(scaled_span(0, 10, 0, 3), 0);
    assert_eq!(scaled_span(-7, -7, 1, 2), 0);
    assert_eq!(scaled_span(i64::MIN, i64::MAX, u64::MAX, u64::MAX), u64::MAX);
    assert_eq!(scaled_span(i64::MIN, i64::MAX, 1, 2), u64::MAX / 2);
}

#[test]
fn find_rank_counts_the_means_below() {
    let store = singles(&[-5, 0, 10, 20]);
    assert_eq!(find_rank(&store, -6), 0);
    assert_eq!(find_rank(&store, -5), 0);
    assert_eq!(find_rank(&store, -4), 1);
    assert_eq!(find_rank(&store, 10), 2);
    assert_eq!(find_rank(&store, 11), 3);
    assert_eq!(find_rank(&store, 20), 3);
    assert_eq!(find_rank(&store, 21), 4);
    assert_eq!(find_rank(&store, i64::MAX), 4);
    assert_eq!(find_rank(&store, i64::MIN), 0);
    assert_eq!(find_rank(&Vec::new(), 3), 0);
}

#[test]
fn place_sample_joins_or_inserts() {
    let mut store = singles(&[0, 10]);
    place_sample(&mut store, 5, 2);
    assert_eq!(
        store,
        vec![
            Centroid { mean: 0, weight: 1 },
            Centroid { mean: 5, weight: 2 },
            Centroid { mean: 10, weight: 1 },
        ]
    );
    place_sample(&mut store, 10, 4);
    place_sample(&mut store, -1, 1);
    place_sample(&mut store, 11, 1);
    assert_eq!(
        store,
        vec![
            Centroid { mean: -1, weight: 1 },
            Centroid { mean: 0, weight: 1 },
            Centroid { mean: 5, weight: 2 },
            Centroid { mean: 10, weight: 5 },
            Centroid { mean: 11, weight: 1 },
        ]
    );
    assert_eq!(total_weight(&store), 10);
}

#[test]
fn place_centroids_is_the_ordered_union() {
    let mut store = singles(&[0, 10, 20]);
    let others = vec![
        Centroid { mean: 5, weight: 2 },
        Centroid { mean: 10, weight: 3 },
        Centroid { mean: 30, weight: 1 },
    ];
    place_centroids(&mut store, &others);
    assert_eq!(
        store,
        vec![
            Centroid { mean: 0, weight: 1 },
            Centroid { mean: 5, weight: 2 },
            Centroid { mean: 10, weight: 4 },
            Centroid { mean: 20, weight: 1 },
            Centroid { mean: 30, weight: 1 },
        ]
    );
}

#[test]
fn compress_joins_around_the_median_and_spares_the_tails() {
    let store = singles(&[0, 10, 20, 30, 40]);
    assert_eq!(
        compress_store(&store, 1),
        vec![
            Centroid { mean: 0, weight: 1 },
            Centroid { mean: 20, weight: 3 },
            Centroid { mean: 40, weight: 1 },
        ]
    );
    assert_eq!(
        compress_store(&store, 2),
        vec![
            Centroid { mean: 0, weight: 1 },
            Centroid { mean: 15, weight: 2 },
            Centroid { mean: 30, weight: 1 },
            Centroid { mean: 40, weight: 1 },
        ]
    );
    // a finer digest keeps them all
    assert_eq!(compress_store(&store, 3), store);
    assert_eq!(compress_store(&Vec::new(), 1), Vec::new());
    let one = singles(&[3]);
    assert_eq!(compress_store(&one, 1), one);
}

#[test]
fn compress_keeps_the_samples() {
    let means: Vec<i64> = (0..500).map(|i| i * i).collect();
    let store = singles(&means);
    for compression in [1u64, 2, 5, 20, 100] {
        let out = compress_store(&store, compression);
        assert_eq!(total_weight(&out), 500);
        assert!(out.len() <= store.len());
        for pair in out.windows(2) {
            assert!(pair[0].mean < pair[1].mean);
        }
        assert!(out[0].mean >= 0 && out[out.len() - 1].mean <= 499 * 499);
        if compression >= 2 {
            // the tails stay sharp: the extreme centroids are the extreme samples
            assert_eq!(out[0], Centroid { mean: 0, weight: 1 });
            assert_eq!(out[out.len() - 1], Centroid { mean: 499 * 499, weight: 1 });
        }
    }
    assert!(compress_store(&store, 1).len() < compress_store(&store, 20).len());
}

#[test]
fn validate_store_judges_centroids() {
    assert_eq!(validate_store(&singles(&[1, 2, 3]), 1, 3), Some(3));
    assert_eq!(validate_store(&singles(&[1, 2, 3]), 0, 9), Some(3));
    assert_eq!(validate_store(&Vec::new(), 0, 0), Some(0));
    assert_eq!(validate_store(&singles(&[1, 2, 3]), 2, 3), None);
    assert_eq!(validate_store(&singles(&[1, 2, 3]), 1, 2), None);
    assert_eq!(validate_store(&singles(&[1, 3, 2]), 1, 3), None);
    assert_eq!(validate_store(&singles(&[1, 1]), 1, 1), None);
    let empty_centroid = vec![Centroid { mean: 1, weight: 0 }];
    assert_eq!(validate_store(&empty_centroid, 1, 1), None);
    let full = vec![Centroid { mean: 1, weight: MAX_TOTAL_WEIGHT }];
    assert_eq!(validate_store(&full, 1, 1), Some(MAX_TOTAL_WEIGHT));
    let too_many = vec![
        Centroid { mean: 1, weight: MAX_TOTAL_WEIGHT },
        Centroid { mean: 2, weight: 1 },
    ];
    assert_eq!(validate_store(&too_many, 1, 2), None);
    let negative = vec![Centroid { mean: 1, weight: u64::MAX }];
    assert_eq!(validate_store(&negative, 1, 1), None);
}

#[test]
fn pair_up_joins_neighbours_two_by_two() {
    assert_eq!(
        pair_up_store(&singles(&[0, 10, 20, 30, 40])),
        vec![
            Centroid { mean: 5, weight: 2 },
            Centroid { mean: 25, weight: 2 },
            Centroid { mean: 40, weight: 1 },
        ]
    );
    assert_eq!(
        pair_up_store(&singles(&[0, 10, 20, 30])),
        vec![Centroid { mean: 5, weight: 2 }, Centroid { mean: 25, weight: 2 }]
    );
    let uneven = vec![Centroid { mean: 0, weight: 3 }, Centroid { mean: 8, weight: 1 }];
    assert_eq!(pair_up_store(&uneven), vec![Centroid { mean: 2, weight: 4 }]);
    assert_eq!(pair_up_store(&singles(&[7])), singles(&[7]));
    assert_eq!(pair_up_store(&Vec::new()), Vec::new());
}

#[test]
fn thin_halves_until_the_limit_is_met() {
    let means: Vec<i64> = (0..16).map(|i| i * 10).collect();
    let store = singles(&means);
    assert_eq!(thin_store(store.clone(), 16), store);
    assert_eq!(thin_store(store.clone(), 100), store);
    assert_eq!(thin_store(store.clone(), 15).len(), 8);
    assert_eq!(thin_store(store.clone(), 8).len(), 8);
    assert_eq!(thin_store(store.clone(), 7).len(), 4);
    assert_eq!(
        thin_store(store.clone(), 3),
        vec![Centroid { mean: 35, weight: 8 }, Centroid { mean: 115, weight: 8 }]
    );
    assert_eq!(thin_store(store.clone(), 1), vec![Centroid { mean: 75, weight: 16 }]);
    assert_eq!(thin_store(store.clone(), 0), vec![Centroid { mean: 75, weight: 16 }]);
    assert_eq!(thin_store(Vec::new(), 0), Vec::new());
}
