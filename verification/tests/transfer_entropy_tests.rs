use transfer_entropy::{
    ConditionalTE, ProbabilityEstimator, SignificanceTest, TeTerm, TransferEntropy,
};

/// Equal-width binning of a float series, as the estimator's users do it:
/// positions are floored into `bins` bins and clamped by the library.
fn bin_series(est: &ProbabilityEstimator, values: &[f64]) -> Vec<usize> {
    let min = values.iter().cloned().fold(f64::INFINITY, f64::min);
    let max = values.iter().cloned().fold(f64::NEG_INFINITY, f64::max);
    values
        .iter()
        .map(|&v| {
            if max <= min {
                0
            } else {
                let normalized = (v - min) / (max - min);
                let raw = (normalized * est.bins() as f64).floor() as usize;
                est.clamp_bin(raw)
            }
        })
        .collect()
}

fn total(hist: &Vec<Vec<Vec<usize>>>) -> usize {
    hist.iter().flat_map(|a| a.iter().flat_map(|b| b.iter())).sum()
}

#[test]
fn test_joint_histogram() {
    let x = vec![0.0, 0.5, 1.0, 0.0, 0.5];
    let y = vec![0.0, 0.5, 1.0, 0.0, 0.5];
    let est = ProbabilityEstimator::new(2);
    let xb = bin_series(&est, &x);
    let yb = bin_series(&est, &y);
    let hist = est.joint_histogram_3d(&xb, &yb);
    // Total counts should equal n-1 = 4
    assert_eq!(total(&hist), 4);
}

#[test]
fn estimator_keeps_bins() {
    assert_eq!(ProbabilityEstimator::new(2).bins(), 2);
    assert_eq!(ProbabilityEstimator::new(10).bins(), 10);
}

#[test]
fn clamp_bin_keeps_in_range_positions() {
    let est = ProbabilityEstimator::new(4);
    assert_eq!(est.clamp_bin(0), 0);
    assert_eq!(est.clamp_bin(2), 2);
    assert_eq!(est.clamp_bin(3), 3);
    assert_eq!(est.clamp_bin(4), 3);
    assert_eq!(est.clamp_bin(usize::MAX), 3);
}

#[test]
fn binning_matches_documented_examples() {
    let est = ProbabilityEstimator::new(4);
    // value 0.0, 0.5, 0.99 within [0, 1] fall into bins 0, 2, 3
    assert_eq!(bin_series(&est, &[0.0, 0.5, 0.99, 1.0]), vec![0, 2, 3, 3]);
    let est10 = ProbabilityEstimator::new(10);
    assert_eq!(bin_series(&est10, &[0.0, 0.73, 1.0])[1], 7);
    // a constant series lies in bin 0
    assert_eq!(bin_series(&est, &[5.0, 5.0, 5.0]), vec![0, 0, 0]);
}

#[test]
fn joint_histogram_counts_each_triple() {
    let est = ProbabilityEstimator::new(2);
    let x = vec![0, 1, 1, 0, 1];
    let y = vec![1, 0, 1, 1, 0];
    let hist = est.joint_histogram_3d(&x, &y);
    assert_eq!(hist.len(), 2);
    assert_eq!(hist[1][1][0], 2);
    assert_eq!(hist[1][0][1], 1);
    assert_eq!(hist[0][1][1], 1);
    assert_eq!(hist[0][0][0], 0);
    assert_eq!(hist[0][0][1], 0);
    assert_eq!(hist[0][1][0], 0);
    assert_eq!(hist[1][0][0], 0);
    assert_eq!(hist[1][1][1], 0);
    assert_eq!(total(&hist), 4);
}

#[test]
fn joint_histogram_uses_shorter_series() {
    let est = ProbabilityEstimator::new(3);
    let x = vec![0, 1, 2, 0, 1, 2, 0];
    let y = vec![2, 2, 1];
    let hist = est.joint_histogram_3d(&x, &y);
    assert_eq!(total(&hist), 2);
    assert_eq!(hist[1][2][0], 1);
    assert_eq!(hist[2][2][1], 1);
    // a single observation yields no sample
    let single = est.joint_histogram_3d(&vec![1], &vec![2, 0]);
    assert_eq!(total(&single), 0);
}

#[test]
fn count_tables_hold_marginal_counts() {
    let te = TransferEntropy::new(2);
    assert_eq!(te.estimator().bins(), 2);
    let x = vec![0, 1, 1, 0, 1];
    let y = vec![1, 0, 1, 1, 0];
    let t = te.count_tables(&x, &y);
    assert_eq!(t.samples, 4);
    assert_eq!(t.joint[1][1][0], 2);
    assert_eq!(t.next_past, vec![vec![0, 1], vec![2, 1]]);
    assert_eq!(t.source_past, vec![vec![0, 1], vec![2, 1]]);
    assert_eq!(t.past, vec![2, 2]);
}

#[test]
fn terms_list_positive_cells_in_order() {
    let te = TransferEntropy::new(2);
    let x = vec![0, 1, 1, 0, 1];
    let y = vec![1, 0, 1, 1, 0];
    let t = te.count_tables(&x, &y);
    assert_eq!(
        t.terms(),
        vec![
            TeTerm { joint: 1, source_past: 1, next_past: 1, past: 2 },
            TeTerm { joint: 1, source_past: 1, next_past: 1, past: 2 },
            TeTerm { joint: 2, source_past: 2, next_past: 2, past: 2 },
        ]
    );
}

#[test]
fn terms_of_a_lagged_copy() {
    // x follows y with lag 1: the source decides the next target state
    let y: Vec<usize> = (0..20).map(|i| i % 3).collect();
    let mut x = vec![0usize; 20];
    for i in 0..19 {
        x[i + 1] = y[i];
    }
    let te = TransferEntropy::new(3);
    let t = te.count_tables(&x, &y);
    let terms = t.terms();
    assert_eq!(terms.iter().map(|e| e.joint).sum::<usize>(), 19);
    for e in &terms {
        assert_eq!(e.joint, e.source_past);
        assert!(0 < e.joint && e.joint <= e.next_past && e.next_past <= e.past);
    }
}

#[test]
fn marginals_are_sums_of_the_joint_table() {
    let te = TransferEntropy::new(3);
    let x = vec![0, 2, 1, 1, 0, 2, 2, 1, 0, 0, 1];
    let y = vec![1, 1, 0, 2, 2, 0, 1, 2, 0, 1, 2, 0];
    let t = te.count_tables(&x, &y);
    assert_eq!(t.samples, 10);
    for c in 0..3 {
        let over_next_and_source: usize =
            (0..3).map(|a| (0..3).map(|b| t.joint[a][b][c]).sum::<usize>()).sum();
        assert_eq!(over_next_and_source, t.past[c]);
        for b in 0..3 {
            let s: usize = (0..3).map(|a| t.joint[a][b][c]).sum();
            assert_eq!(s, t.source_past[b][c]);
        }
        for a in 0..3 {
            let s: usize = (0..3).map(|b| t.joint[a][b][c]).sum();
            assert_eq!(s, t.next_past[a][c]);
        }
        let s: usize = (0..3).map(|a| t.next_past[a][c]).sum();
        assert_eq!(s, t.past[c]);
    }
    assert_eq!(t.past.iter().sum::<usize>(), 10);
    assert_eq!(t.next_past.iter().flatten().sum::<usize>(), 10);
    assert_eq!(t.source_past.iter().flatten().sum::<usize>(), 10);
    assert_eq!(total(&t.joint), 10);
    for a in 0..3 {
        for b in 0..3 {
            for c in 0..3 {
                assert!(t.joint[a][b][c] <= t.source_past[b][c]);
                assert!(t.joint[a][b][c] <= t.next_past[a][c]);
                assert!(t.source_past[b][c] <= t.past[c]);
                assert!(t.next_past[a][c] <= t.past[c]);
            }
        }
    }
}

#[test]
fn self_source_tables_lie_on_the_diagonal() {
    let te = TransferEntropy::new(3);
    let x = vec![0, 2, 1, 1, 0, 2, 2, 1, 0];
    let t = te.count_tables(&x, &x);
    for a in 0..3 {
        for b in 0..3 {
            for c in 0..3 {
                if b == c {
                    assert_eq!(t.joint[a][b][c], t.next_past[a][c]);
                    assert_eq!(t.source_past[b][c], t.past[c]);
                } else {
                    assert_eq!(t.joint[a][b][c], 0);
                    assert_eq!(t.source_past[b][c], 0);
                }
            }
        }
    }
}

fn all_cells_uninformative(t: &transfer_entropy::CountTables, bins: usize) -> bool {
    (0..bins).all(|a| {
        (0..bins).all(|b| {
            (0..bins).all(|c| {
                t.joint[a][b][c] * t.past[c] == t.source_past[b][c] * t.next_past[a][c]
            })
        })
    })
}

#[test]
fn constant_source_carries_nothing() {
    let te = TransferEntropy::new(3);
    let x = vec![0, 2, 1, 1, 0, 2, 2, 1, 0, 1];
    let y = vec![2; 10];
    let t = te.count_tables(&x, &y);
    assert!(all_cells_uninformative(&t, 3));
}

#[test]
fn determined_target_leaves_nothing_to_the_source() {
    // x cycles 0 -> 1 -> 2 -> 0, so its past fixes its next state
    let te = TransferEntropy::new(3);
    let x: Vec<usize> = (0..12).map(|i| i % 3).collect();
    let y = vec![1, 0, 2, 2, 1, 0, 0, 1, 2, 1, 1, 0];
    let t = te.count_tables(&x, &y);
    assert!(all_cells_uninformative(&t, 3));
    // an informative source breaks the equality somewhere
    let y2 = vec![1, 0, 1, 1, 0];
    let x2 = vec![0, 1, 0, 1, 1];
    let t2 = TransferEntropy::new(2).count_tables(&x2, &y2);
    assert!(!all_cells_uninformative(&t2, 2));
}

#[test]
fn conditional_te_keeps_bins() {
    let cte = ConditionalTE::new(4);
    assert_eq!(cte.estimator().bins(), 4);
}

#[test]
fn significance_test_keeps_parameters() {
    let t = SignificanceTest::new(50, 2);
    assert_eq!(t.n_shuffles(), 50);
    assert_eq!(t.bins(), 2);
}

#[test]
fn shuffle_gives_the_seeded_permutation() {
    let t = SignificanceTest::new(10, 2);
    let data: Vec<u32> = (0..10).collect();
    assert_eq!(t.shuffle_data(&data, 12345), vec![6, 4, 5, 9, 8, 0, 2, 1, 3, 7]);
    assert_eq!(t.shuffle_data(&data, 24690), vec![9, 1, 3, 8, 7, 5, 6, 2, 0, 4]);
    assert_eq!(t.shuffle_data(&data, 7), vec![5, 9, 4, 2, 1, 3, 6, 7, 8, 0]);
    assert_eq!(t.shuffle_data(&[0u8, 1, 2, 3, 4], 0), vec![4, 1, 3, 2, 0]);
    assert_eq!(t.shuffle_data(&[7i64], 99), vec![7]);
    let empty: [u8; 0] = [];
    assert_eq!(t.shuffle_data(&empty, 5), Vec::<u8>::new());
}

#[test]
fn shuffle_is_a_deterministic_permutation() {
    let t = SignificanceTest::new(3, 2);
    let data = vec![0.5f64, 1.5, 1.5, -2.0, 3.25, 0.0, 7.0];
    let a = t.shuffle_data(&data, 424242);
    let b = t.shuffle_data(&data, 424242);
    assert_eq!(a, b);
    let mut sorted_a = a.clone();
    sorted_a.sort_by(|p, q| p.partial_cmp(q).unwrap());
    let mut sorted_d = data.clone();
    sorted_d.sort_by(|p, q| p.partial_cmp(q).unwrap());
    assert_eq!(sorted_a, sorted_d);
}

#[test]
fn null_shuffle_uses_round_seeds() {
    let t = SignificanceTest::new(3, 2);
    let data: Vec<u32> = (0..10).collect();
    assert_eq!(t.null_shuffle(&data, 0), t.shuffle_data(&data, 12345));
    assert_eq!(t.null_shuffle(&data, 1), t.shuffle_data(&data, 24690));
    assert_eq!(t.null_shuffle(&data, 2), t.shuffle_data(&data, 37035));
    assert_eq!(t.null_shuffle(&data, 0), vec![6, 4, 5, 9, 8, 0, 2, 1, 3, 7]);
    // any round whose seed fits is accepted, not only rounds below the count
    assert_eq!(t.null_shuffle(&data, 9), t.shuffle_data(&data, 123450));
}

#[test]
fn p_value_counts_are_the_fraction_at_or_above() {
    let t = SignificanceTest::new(4, 2);
    assert_eq!(t.p_value_counts(&[true, false, true, true]), (3, 4));
    assert_eq!(t.p_value_counts(&[false, false, false, false]), (0, 4));
    assert_eq!(t.p_value_counts(&[true, true, true, true]), (4, 4));
    let none = SignificanceTest::new(0, 2);
    assert_eq!(none.p_value_counts(&[]), (0, 0));
}
