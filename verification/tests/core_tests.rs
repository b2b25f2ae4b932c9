use wine_som::dataset::{Dataset, SomError, RAW_MAX};
use wine_som::fixed::{isqrt, SCALE};
use wine_som::labeling::{count_occurrences, mcv};
use wine_som::rng::SomRng;

fn ds(rows: Vec<Vec<i64>>, dim: usize) -> Dataset {
    Dataset::new(rows, dim).unwrap()
}

#[test]
fn normalize_positive_columns_peak_at_one() {
    // col 0 max 20, col 1 max 5; outcomes are the last entries
    let d = ds(vec![vec![10, 5, 7], vec![20, 0, 8]], 2);
    let nd = d.normalize();
    assert_eq!(nd.feature_row(0)[0], SCALE / 2);
    assert_eq!(nd.feature_row(1)[0], SCALE);
    assert_eq!(nd.feature_row(0)[1], SCALE);
    assert_eq!(nd.feature_row(1)[1], 0);
    // column maxima are exactly SCALE
    let max0 = nd.feature_row(0)[0].max(nd.feature_row(1)[0]);
    let max1 = nd.feature_row(0)[1].max(nd.feature_row(1)[1]);
    assert_eq!(max0, SCALE);
    assert_eq!(max1, SCALE);
}

#[test]
fn normalize_zero_column_unchanged() {
    let d = ds(vec![vec![3, 0, 5], vec![9, 0, 6]], 2);
    let nd = d.normalize();
    assert_eq!(nd.feature_row(0)[1], 0);
    assert_eq!(nd.feature_row(1)[1], 0);
    assert_eq!(nd.feature_row(1)[0], SCALE);
}

#[test]
fn normalize_keeps_outcomes_and_shape() {
    let d = ds(vec![vec![1, 2, 42]], 2);
    let nd = d.normalize();
    assert_eq!(nd.nrows(), 1);
    assert_eq!(nd.dim(), 2);
    assert_eq!(nd.outcome(0), 42);
}

#[test]
fn mcv_tie_breaks_toward_larger() {
    assert_eq!(mcv(&vec![1, 1, 2, 3, 3]), 3);
}

#[test]
fn mcv_singleton() {
    assert_eq!(mcv(&vec![5]), 5);
}

#[test]
fn mcv_empty_is_sentinel_zero() {
    assert_eq!(mcv(&vec![]), 0);
}

#[test]
fn mcv_clear_majority() {
    assert_eq!(mcv(&vec![7, 4, 7, 7, 4]), 7);
    assert_eq!(mcv(&vec![-3, -3, 10]), -3);
}

#[test]
fn count_occurrences_exact() {
    let v = vec![2, 5, 2, 2, 9];
    assert_eq!(count_occurrences(&v, 2), 3);
    assert_eq!(count_occurrences(&v, 5), 1);
    assert_eq!(count_occurrences(&v, 1), 0);
}

#[test]
fn isqrt_exact_values() {
    assert_eq!(isqrt(0), 0);
    assert_eq!(isqrt(1), 1);
    assert_eq!(isqrt(3), 1);
    assert_eq!(isqrt(4), 2);
    assert_eq!(isqrt(35), 5);
    assert_eq!(isqrt(36), 6);
    assert_eq!(isqrt(1 << 52), 1 << 26);
}

#[test]
fn rng_is_seed_deterministic() {
    let mut a = SomRng::new(12345);
    let mut b = SomRng::new(12345);
    for _ in 0..100 {
        assert_eq!(a.next_u64(), b.next_u64());
    }
    let mut c = SomRng::new(54321);
    assert_ne!(SomRng::new(12345).next_u64(), c.next_u64());
}

#[test]
fn rng_next_below_in_range() {
    let mut r = SomRng::new(7);
    for _ in 0..1000 {
        let v = r.next_below(13);
        assert!(v < 13);
    }
}

#[test]
fn dataset_rejects_empty() {
    assert_eq!(Dataset::new(vec![], 2).unwrap_err(), SomError::ShapeMismatch);
}

#[test]
fn dataset_rejects_zero_dim() {
    assert_eq!(
        Dataset::new(vec![vec![1, 2]], 0).unwrap_err(),
        SomError::ShapeMismatch
    );
}

#[test]
fn dataset_rejects_ragged_rows() {
    assert_eq!(
        Dataset::new(vec![vec![1, 2, 3], vec![1, 2]], 2).unwrap_err(),
        SomError::ShapeMismatch
    );
}

#[test]
fn dataset_rejects_negative_feature() {
    assert_eq!(
        Dataset::new(vec![vec![-1, 2, 3]], 2).unwrap_err(),
        SomError::ValueOutOfRange
    );
}

#[test]
fn dataset_rejects_oversized_feature() {
    assert_eq!(
        Dataset::new(vec![vec![RAW_MAX + 1, 2, 3]], 2).unwrap_err(),
        SomError::ValueOutOfRange
    );
}

#[test]
fn dataset_accepts_negative_outcome() {
    // only features are range-checked; the outcome column is free
    let d = ds(vec![vec![1, 2, -9]], 2);
    assert_eq!(d.outcome(0), -9);
}
