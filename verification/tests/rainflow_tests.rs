// Tests of the rainflow counter. Stress samples are integers; the counter
// returns doubled means and doubled ranges, so entry (m2, r2) stands for
// the cycle with mean m2/2 and range r2/2.

use fatigue::rainflow::rainflow;

#[test]
fn test_rainflow() {
    let stress_sequence: Vec<i64> = vec![-2, 1, -3, 5, -1, 3, -4, 4, -3, 1, -2, 3, 6];
    let (means2, ranges2) = rainflow(&stress_sequence);

    for (mean2, range2) in means2.iter().zip(ranges2.iter()) {
        println!("{}, {}", mean2, range2);
    }
    // Two half cycles at the start, two full cycles resolved inside the
    // walk, two more full cycles closed by the final rise, one half cycle
    // at the advanced start, and one drained half cycle.
    assert_eq!(means2, vec![-1, -2, 2, 2, -1, 1, 1, 2]);
    assert_eq!(ranges2, vec![3, 4, 8, 8, 6, 14, 9, 10]);
}

#[test]
fn reference_sequence_cycles() {
    // The published reference history. The counter must reproduce the
    // published counts: one full cycle (mean 1, range 4) and six half
    // cycles with (mean, full range) = (-0.5, 3), (-1, 4), (1, 8),
    // (0.5, 9), (0, 8), (1, 6) — half cycles reported with their range
    // halved. In doubled units a full cycle (m, r) appears as (2m, 2r)
    // and a half cycle as (2m, r).
    let stress: Vec<i64> = vec![-2, 1, -3, 5, -1, 3, -4, 4, -2];
    let (means2, ranges2) = rainflow(&stress);

    assert_eq!(means2.len(), 7);
    // In resolution order: half (-0.5, 3), half (-1, 4), full (1, 4),
    // half (1, 8), then the drained halves (0.5, 9), (0, 8), (1, 6).
    assert_eq!(means2, vec![-1, -2, 2, 2, 1, 0, 2]);
    assert_eq!(ranges2, vec![3, 4, 8, 8, 9, 8, 6]);

    // The same output as an order-free set of (mean2, range2) pairs,
    // spelling out the published reference counts.
    let mut got: Vec<(i64, i64)> =
        means2.iter().copied().zip(ranges2.iter().copied()).collect();
    let mut published: Vec<(i64, i64)> = vec![
        (2, 8),  // full cycle, mean 1, range 4
        (-1, 3), // half cycle, mean -0.5, range 3 (reported 1.5)
        (-2, 4), // half cycle, mean -1, range 4 (reported 2)
        (2, 8),  // half cycle, mean 1, range 8 (reported 4)
        (1, 9),  // half cycle, mean 0.5, range 9 (reported 4.5)
        (0, 8),  // half cycle, mean 0, range 8 (reported 4)
        (2, 6),  // half cycle, mean 1, range 6 (reported 3)
    ];
    got.sort();
    published.sort();
    assert_eq!(got, published);
}

#[test]
fn monotonic_run_yields_no_cycles() {
    let stress: Vec<i64> = vec![1, 2, 3, 4, 5, 100, 1000];
    let (means2, ranges2) = rainflow(&stress);
    assert!(means2.is_empty());
    assert!(ranges2.is_empty());
}

#[test]
fn monotonic_decreasing_run_yields_no_cycles() {
    let stress: Vec<i64> = vec![9, 7, 3, 0, -4];
    let (means2, ranges2) = rainflow(&stress);
    assert!(means2.is_empty());
    assert!(ranges2.is_empty());
}

#[test]
fn short_and_empty_histories_yield_no_cycles() {
    let empty: Vec<i64> = vec![];
    assert!(rainflow(&empty).0.is_empty());
    let one: Vec<i64> = vec![5];
    assert!(rainflow(&one).0.is_empty());
    let two: Vec<i64> = vec![5, 9];
    assert!(rainflow(&two).0.is_empty());
}

#[test]
fn equal_consecutive_samples_open_no_cycles() {
    // Flat runs collapse; a constant history has no reversals.
    let flat: Vec<i64> = vec![1, 1, 1, 1];
    assert!(rainflow(&flat).0.is_empty());

    // One excursion up and back: the start range closes as a half cycle
    // and the remaining range drains as another.
    let bump: Vec<i64> = vec![0, 0, 5, 5, 0, 0];
    let (means2, ranges2) = rainflow(&bump);
    assert_eq!(means2, vec![5, 5]);
    assert_eq!(ranges2, vec![5, 5]);
}

#[test]
fn alternating_square_history_counts_three_half_cycles() {
    let stress: Vec<i64> = vec![0, 5, 0, 5];
    let (means2, ranges2) = rainflow(&stress);
    assert_eq!(means2, vec![5, 5, 5]);
    assert_eq!(ranges2, vec![5, 5, 5]);
}
