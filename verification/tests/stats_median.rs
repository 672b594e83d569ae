//! Median, sorting, and truncating averages on exact values.

use frame_order::stats::{average_scaled, median, sort_values, sum_values, Ratio};

/// An empty input has median zero.
#[test]
fn median_empty_is_zero() {
    let v: Vec<i64> = Vec::new();
    assert_eq!(median(&v), Ratio { num: 0, den: 1 });
}

/// An odd-length input takes the central element of the ascending order.
#[test]
fn median_odd_takes_center() {
    assert_eq!(median(&vec![1, 3, 2]), Ratio { num: 2, den: 1 });
    assert_eq!(median(&vec![1000, 3000, 2000]), Ratio { num: 2000, den: 1 });
}

/// An even-length input averages the two central elements exactly.
#[test]
fn median_even_averages_centers() {
    assert_eq!(median(&vec![1, 2, 3, 4]), Ratio { num: 5, den: 2 });
    assert_eq!(median(&vec![4, 2]), Ratio { num: 6, den: 2 });
}

/// Sorting is ascending and keeps the values.
#[test]
fn sort_is_ascending() {
    let out = sort_values(&vec![3, -1, 2, 2, 0]);
    assert_eq!(out, vec![-1, 0, 2, 2, 3]);
}

/// Sums are exact, and averages truncate toward zero.
#[test]
fn sum_and_average() {
    let v: Vec<i64> = vec![1_000_000, -500_000, 1];
    assert_eq!(sum_values(&v), 500_001);
    assert_eq!(average_scaled(500_001, 3), 166_667);
    assert_eq!(average_scaled(3, 2), 1);
    assert_eq!(average_scaled(-3, 2), -1);
}
