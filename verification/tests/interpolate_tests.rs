// Tests of the interpolation engine. Coordinates and values are scaled
// integers in millionths of an engineering unit: 1.0 is written 1_000_000.

use fatigue::interpolate::{
    InterpolationError, InterpolationStrategyEnum, Linear, NDInterpolation, NearestNeighbor,
};
use fatigue::linalg::Rat;
use fatigue::timeseries::Point;

const UNIT: i64 = 1_000_000;

fn point(coords: Vec<i64>) -> Point {
    Point::new(None, coords)
}

/// The rational `r` equals the integer `v` (in millionths).
fn rat_is(r: &Rat, v: i64) -> bool {
    r.den > 0 && r.num == (v as i128) * r.den
}

#[test]
fn test_extrapolation() {
    let strategy = InterpolationStrategyEnum::Linear(Linear);
    let mut interpolator = NDInterpolation::new(strategy);

    // Add sample points: y = 2x on x in {1, ..., 5}.
    interpolator.add_point(point(vec![1 * UNIT]), 2 * UNIT);
    interpolator.add_point(point(vec![2 * UNIT]), 4 * UNIT);
    interpolator.add_point(point(vec![3 * UNIT]), 6 * UNIT);
    interpolator.add_point(point(vec![4 * UNIT]), 8 * UNIT);
    interpolator.add_point(point(vec![5 * UNIT]), 10 * UNIT);

    let target = vec![vec![6 * UNIT]];
    let interpolated_values = interpolator.interpolate(&target).unwrap();

    assert_eq!(interpolated_values.len(), 1);
    assert!(
        rat_is(&interpolated_values[0], 12 * UNIT),
        "the extrapolated value was {:?}, but 12.0 was expected",
        interpolated_values[0]
    );
}

#[test]
fn test_basic_linear_interpolation() {
    let mut interpolator = NDInterpolation::new(InterpolationStrategyEnum::Linear(Linear));
    interpolator.add_point(point(vec![1 * UNIT]), 1 * UNIT);
    interpolator.add_point(point(vec![3 * UNIT]), 3 * UNIT);

    let target = vec![vec![2 * UNIT]];
    let interpolated_values = interpolator.interpolate(&target).unwrap();
    assert_eq!(interpolated_values.len(), 1);
    assert!(rat_is(&interpolated_values[0], 2 * UNIT));
}

#[test]
fn test_edge_case_interpolation() {
    let mut interpolator = NDInterpolation::new(InterpolationStrategyEnum::Linear(Linear));
    interpolator.add_point(point(vec![0]), 0);
    interpolator.add_point(point(vec![10 * UNIT]), 20 * UNIT);

    let targets = vec![vec![0], vec![10 * UNIT]];
    let interpolated_values = interpolator.interpolate(&targets).unwrap();

    // The batch keeps target order: [0.0, 20.0].
    assert_eq!(interpolated_values.len(), 2);
    assert!(rat_is(&interpolated_values[0], 0));
    assert!(rat_is(&interpolated_values[1], 20 * UNIT));
}

#[test]
fn test_multiple_dimension_interpolation() {
    let mut interpolator = NDInterpolation::new(InterpolationStrategyEnum::Linear(Linear));
    interpolator.add_point(point(vec![0, 0]), 0);
    interpolator.add_point(point(vec![1 * UNIT, 1 * UNIT]), 2 * UNIT);

    let target = vec![vec![UNIT / 2, UNIT / 2]];
    let interpolated_values = interpolator.interpolate(&target).unwrap();
    assert_eq!(interpolated_values.len(), 1);
    assert!(rat_is(&interpolated_values[0], 1 * UNIT));
}

#[test]
fn test_insufficient_points() {
    let mut interpolator = NDInterpolation::new(InterpolationStrategyEnum::Linear(Linear));
    interpolator.add_point(point(vec![1 * UNIT]), 1 * UNIT);

    let target = vec![vec![2 * UNIT]];
    let result = interpolator.interpolate(&target);

    assert!(result.is_err(), "Interpolation should fail with insufficient points.");
    assert_eq!(result.unwrap_err(), InterpolationError::InsufficientPoints);
}

#[test]
fn test_large_dataset_performance() {
    let mut interpolator = NDInterpolation::new(InterpolationStrategyEnum::Linear(Linear));

    const DATASET_SIZE_IN: usize = 100;
    const DATASET_SIZE_TARGET: usize = 100000;
    for i in 0..DATASET_SIZE_IN {
        let x = i as i64 * UNIT;
        let y = 2 * x;
        interpolator.add_point(point(vec![x]), y);
    }

    let target: Vec<Vec<i64>> =
        (0..DATASET_SIZE_TARGET).map(|i| vec![i as i64 * UNIT + UNIT / 2]).collect();

    let start_time = std::time::Instant::now();
    let values = interpolator.interpolate(&target).expect("Interpolation failed");
    let duration = start_time.elapsed();

    assert_eq!(values.len(), DATASET_SIZE_TARGET);
    println!("Interpolated {} points in {:?}", DATASET_SIZE_IN, duration);
    assert!(duration < std::time::Duration::from_secs(2), "Interpolation took too long");
}

#[test]
fn nearest_neighbor_picks_closest_value() {
    let mut interpolator =
        NDInterpolation::new(InterpolationStrategyEnum::NearestNeighbor(NearestNeighbor));
    interpolator.add_point(point(vec![0]), 10 * UNIT);
    interpolator.add_point(point(vec![10 * UNIT]), 20 * UNIT);

    let targets = vec![vec![1 * UNIT], vec![9 * UNIT]];
    let values = interpolator.interpolate(&targets).unwrap();
    assert!(rat_is(&values[0], 10 * UNIT));
    assert!(rat_is(&values[1], 20 * UNIT));
}

#[test]
fn nearest_neighbor_tie_break_takes_first_inserted() {
    let mut interpolator =
        NDInterpolation::new(InterpolationStrategyEnum::NearestNeighbor(NearestNeighbor));
    interpolator.add_point(point(vec![0]), 111);
    interpolator.add_point(point(vec![2 * UNIT]), 222);

    // The target is equidistant from both points.
    let values = interpolator.interpolate(&vec![vec![1 * UNIT]]).unwrap();
    assert!(rat_is(&values[0], 111));
}

#[test]
fn nearest_neighbor_empty_dataset_fails() {
    let interpolator =
        NDInterpolation::new(InterpolationStrategyEnum::NearestNeighbor(NearestNeighbor));
    let result = interpolator.interpolate(&vec![vec![1 * UNIT]]);
    assert_eq!(result.unwrap_err(), InterpolationError::EmptyDataset);
}

#[test]
fn linear_dimension_mismatch_fails() {
    let mut interpolator = NDInterpolation::new(InterpolationStrategyEnum::Linear(Linear));
    interpolator.add_point(point(vec![0]), 0);
    interpolator.add_point(point(vec![1 * UNIT, 1 * UNIT]), 2 * UNIT);

    let result = interpolator.interpolate(&vec![vec![1 * UNIT]]);
    assert_eq!(result.unwrap_err(), InterpolationError::DimensionMismatch);
}

#[test]
fn linear_target_dimension_mismatch_fails() {
    let mut interpolator = NDInterpolation::new(InterpolationStrategyEnum::Linear(Linear));
    interpolator.add_point(point(vec![0]), 0);
    interpolator.add_point(point(vec![1 * UNIT]), 2 * UNIT);

    // A two-coordinate target against one-dimensional calibration points.
    let result = interpolator.interpolate(&vec![vec![1 * UNIT, 1 * UNIT]]);
    assert_eq!(result.unwrap_err(), InterpolationError::DimensionMismatch);
}

#[test]
fn nearest_neighbor_target_dimension_mismatch_fails() {
    let mut interpolator =
        NDInterpolation::new(InterpolationStrategyEnum::NearestNeighbor(NearestNeighbor));
    interpolator.add_point(point(vec![0]), 10 * UNIT);

    let result = interpolator.interpolate(&vec![vec![1 * UNIT, 2 * UNIT]]);
    assert_eq!(result.unwrap_err(), InterpolationError::DimensionMismatch);
}

#[test]
fn nearest_neighbor_mixed_calibration_dimensions_fail() {
    let mut interpolator =
        NDInterpolation::new(InterpolationStrategyEnum::NearestNeighbor(NearestNeighbor));
    interpolator.add_point(point(vec![0]), 10 * UNIT);
    interpolator.add_point(point(vec![1 * UNIT, 1 * UNIT]), 20 * UNIT);

    let result = interpolator.interpolate(&vec![vec![1 * UNIT]]);
    assert_eq!(result.unwrap_err(), InterpolationError::DimensionMismatch);
}

#[test]
fn linear_singular_system_fails() {
    // Three collinear points in two dimensions leave both the normal and
    // the Gram system singular.
    let mut interpolator = NDInterpolation::new(InterpolationStrategyEnum::Linear(Linear));
    interpolator.add_point(point(vec![0, 0]), 0);
    interpolator.add_point(point(vec![1 * UNIT, 1 * UNIT]), 2 * UNIT);
    interpolator.add_point(point(vec![2 * UNIT, 2 * UNIT]), 4 * UNIT);

    let result = interpolator.interpolate(&vec![vec![1 * UNIT, 0]]);
    assert_eq!(result.unwrap_err(), InterpolationError::SingularSystem);
}

#[test]
fn tolerance_overwrite_keeps_one_entry_with_later_value() {
    // Inserting a point within the 1e-5 tolerance of an existing key
    // overwrites the stored value: exactly one entry remains and a query
    // returns the later value.
    let mut interpolator =
        NDInterpolation::new(InterpolationStrategyEnum::NearestNeighbor(NearestNeighbor));
    interpolator.add_point(point(vec![1 * UNIT]), 5 * UNIT);
    assert_eq!(interpolator.num_points(), 1);

    // 1.0 + 1e-6, within the tolerance of 1.0.
    interpolator.add_point(point(vec![1 * UNIT + 1]), 7 * UNIT);
    assert_eq!(interpolator.num_points(), 1);

    let values = interpolator.interpolate(&vec![vec![1 * UNIT]]).unwrap();
    assert!(rat_is(&values[0], 7 * UNIT));
}

#[test]
fn distinct_points_beyond_tolerance_both_stored() {
    let mut interpolator =
        NDInterpolation::new(InterpolationStrategyEnum::NearestNeighbor(NearestNeighbor));
    interpolator.add_point(point(vec![1 * UNIT]), 5 * UNIT);
    // 1.0 + 2e-5, outside the tolerance of 1e-5.
    interpolator.add_point(point(vec![1 * UNIT + 20]), 7 * UNIT);
    assert_eq!(interpolator.num_points(), 2);
}

#[test]
fn linear_batches_agree_on_shared_targets() {
    // Two separate batches and their concatenation give the same values
    // per target over the same well-conditioned dataset.
    let mut interpolator = NDInterpolation::new(InterpolationStrategyEnum::Linear(Linear));
    interpolator.add_point(point(vec![0]), 0);
    interpolator.add_point(point(vec![10 * UNIT]), 20 * UNIT);

    let first = interpolator.interpolate(&vec![vec![0]]).unwrap();
    let second = interpolator.interpolate(&vec![vec![10 * UNIT]]).unwrap();
    let both = interpolator
        .interpolate(&vec![vec![0], vec![10 * UNIT]])
        .unwrap();

    // Equality as rationals: num1 * den2 == num2 * den1.
    assert_eq!(first[0].num * both[0].den, both[0].num * first[0].den);
    assert_eq!(second[0].num * both[1].den, both[1].num * second[0].den);
}

#[test]
fn affine_recovery_in_two_dimensions() {
    // value = 3*x1 + 2*x2 + 1 on a full-rank calibration set; the fit
    // reproduces the rule exactly, inside and outside the sampled range.
    let mut interpolator = NDInterpolation::new(InterpolationStrategyEnum::Linear(Linear));
    let rule = |x1: i64, x2: i64| 3 * x1 + 2 * x2 + 1 * UNIT;
    for &(x1, x2) in
        &[(0i64, 0i64), (1, 0), (0, 1), (1, 1), (2, 1), (5, 3)]
    {
        let c1 = x1 * UNIT;
        let c2 = x2 * UNIT;
        interpolator.add_point(point(vec![c1, c2]), rule(c1, c2));
    }
    let targets = vec![vec![7 * UNIT, -2 * UNIT], vec![-3 * UNIT, 11 * UNIT]];
    let values = interpolator.interpolate(&targets).unwrap();
    assert!(rat_is(&values[0], rule(7 * UNIT, -2 * UNIT)));
    assert!(rat_is(&values[1], rule(-3 * UNIT, 11 * UNIT)));
}
