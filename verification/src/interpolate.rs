//! N-dimensional interpolation over a tolerance-keyed calibration dataset.
//!
//! A dataset maps calibration points (coordinate vectors in millionths) to
//! scalar values (also in millionths). Two interchangeable strategies
//! evaluate query targets against the dataset:
//!
//! * `Linear` — one global affine fit by exact least squares: the normal
//!   equations of the regression are solved exactly, so whenever the
//!   calibration data is itself affine in the coordinates and the system is
//!   well conditioned, every query (inside or outside the sampled range)
//!   reproduces the affine rule exactly. For one-dimensional calibration
//!   within explicit capacity bounds, success itself is part of the
//!   contract: a well-conditioned batch must return values.
//! * `NearestNeighbor` — each target takes the value of the calibration
//!   point at minimal Euclidean distance; among equidistant points the one
//!   inserted earliest wins, which makes the tie-break deterministic.
//!
//! Both strategies demand one shared dimensionality of calibration points
//! and targets, and report `DimensionMismatch` otherwise. Results are
//! exact rationals (`Rat`); a batch fails as a whole or returns one value
//! per target, in target order.

use vstd::prelude::*;

use crate::linalg::{
    check_solution, det_2x2, dot_prefix, products_fit_2x2, solve_2x2, solve_exact, Rat,
};
use crate::sums::{
    lemma_sum_delta, lemma_sum_ext, lemma_sum_linear, lemma_sum_scale, lemma_sum_swap,
    lemma_sum_zero, sum,
};
use crate::timeseries::{coords_near, Point};

verus! {

/// Largest admissible coordinate magnitude for distance computations:
/// 2^40 millionths. Squared-distance sums of coordinates within this bound
/// stay within `i128`.
pub const COORD_LIMIT: i64 = 0x100_0000_0000;

/// Largest admissible number of coordinates of a single point: 2^20.
pub const DIM_LIMIT: usize = 0x10_0000;

/// A coordinate vector the engine accepts: bounded dimension, bounded
/// coordinates. These are machine limits, not modelling limits: they keep
/// exact squared distances representable.
pub open spec fn wf_coords(c: Seq<i64>) -> bool {
    &&& c.len() <= DIM_LIMIT
    &&& forall|i: int| 0 <= i < c.len() ==> -COORD_LIMIT <= #[trigger] c[i] <= COORD_LIMIT
}

/// Why an interpolation batch failed.
#[derive(Clone, Copy, Debug, PartialEq, Eq, Structural)]
pub enum InterpolationError {
    /// Fewer than 2 calibration points supplied to the regression strategy.
    InsufficientPoints,
    /// The least-squares solve could not certify a solution: the normal
    /// system is singular, or an intermediate value left the fixed-width
    /// exact arithmetic.
    SingularSystem,
    /// Nearest-neighbor was queried against an empty dataset.
    EmptyDataset,
    /// The calibration points do not all share one dimensionality.
    DimensionMismatch,
}

/// The squared Euclidean distance over the first `k` shared coordinates.
pub open spec fn dist_prefix(p: Seq<i64>, t: Seq<i64>, k: int) -> int
    decreases k,
{
    if k <= 0 {
        0
    } else {
        dist_prefix(p, t, k - 1) + (p[k - 1] - t[k - 1]) * (p[k - 1] - t[k - 1])
    }
}

/// The squared Euclidean distance between a calibration point and a
/// target, over the coordinates both have (the shorter vector decides,
/// mirroring a pairwise walk of the two).
pub open spec fn dist2(p: Seq<i64>, t: Seq<i64>) -> int {
    if p.len() <= t.len() {
        dist_prefix(p, t, p.len() as int)
    } else {
        dist_prefix(p, t, t.len() as int)
    }
}

/// Index `j` holds the first calibration point at minimal distance from
/// `t`: nothing is closer, and everything before `j` is strictly farther.
pub open spec fn is_first_min(ks: Seq<Point>, t: Seq<i64>, j: int) -> bool {
    &&& 0 <= j < ks.len()
    &&& forall|k: int|
        0 <= k < ks.len() ==> dist2(#[trigger] ks[k].coordinates@, t) >= dist2(
            ks[j].coordinates@,
            t,
        )
    &&& forall|k: int|
        0 <= k < j ==> dist2(#[trigger] ks[k].coordinates@, t) > dist2(ks[j].coordinates@, t)
}

/// `v` is the nearest-neighbor answer for target `t`: the value stored
/// beside the first point at minimal distance, as a rational with
/// denominator one.
pub open spec fn nn_value_ok(ks: Seq<Point>, vs: Seq<i64>, t: Seq<i64>, v: Rat) -> bool {
    exists|j: int| is_first_min(ks, t, j) && v.num == #[trigger] vs[j] && v.den == 1
}

/// Every target has the dimensionality of the calibration points.
pub open spec fn targets_dims_ok(ks: Seq<Point>, targets: Seq<Vec<i64>>) -> bool {
    forall|k: int|
        0 <= k < targets.len() ==> (#[trigger] targets[k])@.len() == ks[0].coordinates@.len()
}

/// The full contract of a nearest-neighbor batch over `(ks, vs)`:
/// `EmptyDataset` exactly on an empty dataset, `DimensionMismatch` exactly
/// when the calibration or target coordinate counts disagree, and on
/// success one value per target, in target order.
pub open spec fn nn_post(
    ks: Seq<Point>,
    vs: Seq<i64>,
    targets: Seq<Vec<i64>>,
    r: Result<Vec<Rat>, InterpolationError>,
) -> bool {
    &&& ((r matches Err(e) && e == InterpolationError::EmptyDataset) <==> ks.len() == 0)
    &&& ((r matches Err(e) && e == InterpolationError::DimensionMismatch) <==> (ks.len() > 0 && (
    !dims_ok(ks) || !targets_dims_ok(ks, targets))))
    &&& (r matches Err(e) ==> e == InterpolationError::EmptyDataset || e
        == InterpolationError::DimensionMismatch)
    &&& (r matches Ok(vals) ==> vals@.len() == targets.len() && forall|k: int|
        0 <= k < targets.len() ==> nn_value_ok(ks, vs, (#[trigger] targets[k])@, vals@[k]))
}

/// Computes the exact squared distance between two coordinate vectors.
fn squared_distance(p: &Vec<i64>, t: &Vec<i64>) -> (v: i128)
    requires
        wf_coords(p@),
        wf_coords(t@),
    ensures
        v as int == dist2(p@, t@),
{
    let k = if p.len() <= t.len() {
        p.len()
    } else {
        t.len()
    };
    let mut acc: i128 = 0;
    let mut i: usize = 0;
    while i < k
        invariant
            k <= p@.len(),
            k <= t@.len(),
            k <= DIM_LIMIT,
            wf_coords(p@),
            wf_coords(t@),
            0 <= i <= k,
            acc as int == dist_prefix(p@, t@, i as int),
            0 <= acc <= i * 0x400_0000_0000_0000_0000_0000,
        decreases k - i,
    {
        let diff: i128 = p[i] as i128 - t[i] as i128;
        assert(diff * diff <= 0x400_0000_0000_0000_0000_0000 && diff * diff >= 0)
            by (nonlinear_arith)
            requires
                -0x200_0000_0000 <= diff <= 0x200_0000_0000,
        ;
        let sq: i128 = diff * diff;
        assert((i + 1) * 0x400_0000_0000_0000_0000_0000 == i * 0x400_0000_0000_0000_0000_0000
            + 0x400_0000_0000_0000_0000_0000) by (nonlinear_arith);
        acc = acc + sq;
        i = i + 1;
    }
    acc
}

/// Nearest-neighbor evaluation of a batch of targets against the dataset
/// columns `(keys, values)`.
///
/// Fails with `EmptyDataset` exactly when the dataset has no points and
/// with `DimensionMismatch` exactly when the calibration or the target
/// coordinate counts disagree; on success returns, per target and in
/// target order, the value of the first point at minimal Euclidean
/// distance.
pub fn nearest_interpolate(keys: &Vec<Point>, values: &Vec<i64>, targets: &Vec<Vec<i64>>) -> (r:
    Result<Vec<Rat>, InterpolationError>)
    requires
        keys@.len() == values@.len(),
        forall|k: int| 0 <= k < keys@.len() ==> wf_coords((#[trigger] keys@[k]).coordinates@),
        forall|k: int| 0 <= k < targets@.len() ==> wf_coords((#[trigger] targets@[k])@),
    ensures
        nn_post(keys@, values@, targets@, r),
{
    if keys.len() == 0 {
        return Err(InterpolationError::EmptyDataset);
    }
    let n = keys.len();
    let m = targets.len();
    let d = keys[0].coordinates.len();
    let mut c0: usize = 0;
    while c0 < n
        invariant
            n == keys@.len(),
            n >= 1,
            d == keys@[0].coordinates@.len(),
            0 <= c0 <= n,
            forall|t: int| 0 <= t < c0 ==> (#[trigger] keys@[t].coordinates@).len() == d,
        decreases n - c0,
    {
        if keys[c0].coordinates.len() != d {
            return Err(InterpolationError::DimensionMismatch);
        }
        c0 = c0 + 1;
    }
    let mut c1: usize = 0;
    while c1 < m
        invariant
            n == keys@.len(),
            n >= 1,
            m == targets@.len(),
            d == keys@[0].coordinates@.len(),
            dims_ok(keys@),
            0 <= c1 <= m,
            forall|t: int| 0 <= t < c1 ==> (#[trigger] targets@[t])@.len() == d,
        decreases m - c1,
    {
        if targets[c1].len() != d {
            return Err(InterpolationError::DimensionMismatch);
        }
        c1 = c1 + 1;
    }
    let mut vals: Vec<Rat> = Vec::new();
    let mut k: usize = 0;
    while k < m
        invariant
            n == keys@.len() == values@.len(),
            n >= 1,
            m == targets@.len(),
            forall|i: int| 0 <= i < n ==> wf_coords((#[trigger] keys@[i]).coordinates@),
            forall|i: int| 0 <= i < m ==> wf_coords((#[trigger] targets@[i])@),
            0 <= k <= m,
            vals@.len() == k,
            forall|i: int| 0 <= i < k ==> nn_value_ok(keys@, values@, (#[trigger] targets@[i])@,
                vals@[i]),
        decreases m - k,
    {
        let t = &targets[k];
        let mut best: i128 = squared_distance(&keys[0].coordinates, t);
        let mut best_j: usize = 0;
        let mut j: usize = 1;
        while j < n
            invariant
                n == keys@.len() == values@.len(),
                forall|i: int| 0 <= i < n ==> wf_coords((#[trigger] keys@[i]).coordinates@),
                wf_coords(t@),
                0 <= best_j < j <= n,
                best as int == dist2(keys@[best_j as int].coordinates@, t@),
                forall|i: int|
                    0 <= i < j ==> dist2((#[trigger] keys@[i]).coordinates@, t@) >= best,
                forall|i: int|
                    0 <= i < best_j ==> dist2((#[trigger] keys@[i]).coordinates@, t@) > best,
            decreases n - j,
        {
            let dv = squared_distance(&keys[j].coordinates, t);
            if dv < best {
                best = dv;
                best_j = j;
            }
            j = j + 1;
        }
        let v = Rat { num: values[best_j] as i128, den: 1 };
        proof {
            assert(is_first_min(keys@, t@, best_j as int));
        }
        vals.push(v);
        k = k + 1;
    }
    Ok(vals)
}

/// Entry `i` of the affine design row of calibration point `p`: a leading
/// 1 for the intercept, then the coordinates.
pub open spec fn row_at(p: Point, i: int) -> int {
    if i == 0 {
        1
    } else {
        p.coordinates@[i - 1] as int
    }
}

/// Entry `(i, j)` of the normal matrix of the regression, summed over the
/// first `upto` calibration points: the dot product of design-row columns
/// `i` and `j`.
pub open spec fn normal_entry(ks: Seq<Point>, i: int, j: int, upto: int) -> int
    decreases upto,
{
    if upto <= 0 {
        0
    } else {
        normal_entry(ks, i, j, upto - 1) + row_at(ks[upto - 1], i) * row_at(ks[upto - 1], j)
    }
}

/// Entry `i` of the right-hand side of the normal equations, summed over
/// the first `upto` calibration points: design-row column `i` against the
/// calibration values.
pub open spec fn rhs_entry(ks: Seq<Point>, vs: Seq<i64>, i: int, upto: int) -> int
    decreases upto,
{
    if upto <= 0 {
        0
    } else {
        rhs_entry(ks, vs, i, upto - 1) + row_at(ks[upto - 1], i) * vs[upto - 1]
    }
}

/// Row `i` of the normal matrix against the candidate numerators `x`,
/// over the first `j` columns.
pub open spec fn normal_combo(ks: Seq<Point>, i: int, x: Seq<i128>, j: int) -> int
    decreases j,
{
    if j <= 0 {
        0
    } else {
        normal_combo(ks, i, x, j - 1) + normal_entry(ks, i, j - 1, ks.len() as int) * x[j - 1]
    }
}

/// All calibration points share the dimensionality of the first.
pub open spec fn dims_ok(ks: Seq<Point>) -> bool {
    forall|k: int|
        0 <= k < ks.len() ==> (#[trigger] ks[k].coordinates@).len() == ks[0].coordinates@.len()
}

/// The rational vector `x / q` is an exact solution of the normal
/// equations of the least-squares regression over the dataset: for every
/// row `i` of the normal system, `A[i] . x == q * b[i]`. This is exactly
/// the optimality condition of the affine least-squares fit.
pub open spec fn normal_solution(ks: Seq<Point>, vs: Seq<i64>, x: Seq<i128>, q: int) -> bool {
    let d1 = ks[0].coordinates@.len() + 1;
    &&& x.len() == d1
    &&& q > 0
    &&& forall|i: int|
        0 <= i < d1 ==> normal_combo(ks, i, x, d1 as int) == q * rhs_entry(
            ks,
            vs,
            i,
            ks.len() as int,
        )
}

/// The prediction sum `x[1..] . t` over the first `k` target coordinates.
pub open spec fn pred_part(x: Seq<i128>, t: Seq<i64>, k: int) -> int
    decreases k,
{
    if k <= 0 {
        0
    } else {
        pred_part(x, t, k - 1) + x[k] * t[k - 1]
    }
}

/// The numerator of the affine prediction at target `t` from the scaled
/// coefficients `x`: intercept plus the coordinate terms both vectors
/// have. The prediction itself is this numerator over the coefficients'
/// common denominator.
pub open spec fn pred_num(x: Seq<i128>, t: Seq<i64>) -> int {
    if x.len() - 1 <= t.len() {
        x[0] + pred_part(x, t, x.len() - 1)
    } else {
        x[0] + pred_part(x, t, t.len() as int)
    }
}

/// The full contract of a Linear batch over the dataset `(ks, vs)`:
/// `InsufficientPoints` exactly on datasets of fewer than two points,
/// `DimensionMismatch` exactly when the calibration or the target
/// coordinate counts disagree, success owed whenever the batch is well
/// posed and within the closed-form capacity, and on success one value
/// per target, in target order, each the exact affine prediction of one
/// least-squares solution of the normal equations.
pub open spec fn linear_post(
    ks: Seq<Point>,
    vs: Seq<i64>,
    targets: Seq<Vec<i64>>,
    r: Result<Vec<Rat>, InterpolationError>,
) -> bool {
    &&& ((ks.len() < 2) <==> (r matches Err(e) && e == InterpolationError::InsufficientPoints))
    &&& ((ks.len() >= 2 && (!dims_ok(ks) || !targets_dims_ok(ks, targets))) <==> (r matches Err(e)
        && e == InterpolationError::DimensionMismatch))
    &&& (r matches Err(e) ==> e != InterpolationError::EmptyDataset)
    &&& (success_owed(ks, vs, targets) ==> r is Ok)
    &&& (r matches Ok(vals) ==> {
        &&& ks.len() >= 2
        &&& dims_ok(ks)
        &&& targets_dims_ok(ks, targets)
        &&& vals@.len() == targets.len()
        &&& exists|x: Seq<i128>, q: int|
            #[trigger] normal_solution(ks, vs, x, q) && forall|k: int|
                0 <= k < targets.len() ==> (#[trigger] vals@[k]).den == q && vals@[k].num
                    == pred_num(x, targets[k]@)
    })
}

/// Capacity bounds of the one-dimensional closed-form fit: at most 2^16
/// calibration points, each with one coordinate, and coordinates and
/// values within 2^30 millionths (about a thousand engineering units).
/// Under these bounds the exact Cramer arithmetic of the fit is proven to
/// stay within `i128`.
pub open spec fn cap1d(ks: Seq<Point>, vs: Seq<i64>) -> bool {
    &&& ks.len() == vs.len()
    &&& 1 <= ks.len() <= 0x10000
    &&& dims_ok(ks)
    &&& ks[0].coordinates@.len() == 1
    &&& forall|k: int|
        0 <= k < ks.len() ==> -0x4000_0000 <= (#[trigger] ks[k].coordinates@[0]) <= 0x4000_0000
    &&& forall|k: int| 0 <= k < vs.len() ==> -0x4000_0000 <= #[trigger] vs[k] <= 0x4000_0000
}

/// The whole batch lies within the capacity of the one-dimensional
/// closed-form fit: dataset within `cap1d`, and every target
/// one-dimensional with a coordinate within 2^30 millionths.
pub open spec fn within_capacity(ks: Seq<Point>, vs: Seq<i64>, targets: Seq<Vec<i64>>) -> bool {
    &&& cap1d(ks, vs)
    &&& forall|k: int|
        0 <= k < targets.len() ==> (#[trigger] targets[k])@.len() == 1 && -0x4000_0000
            <= targets[k]@[0] <= 0x4000_0000
}

/// When a Linear batch owes success: at least two calibration points, the
/// normal system well conditioned (it has a scaled left inverse), and the
/// batch within the capacity of the closed-form fit.
pub open spec fn success_owed(ks: Seq<Point>, vs: Seq<i64>, targets: Seq<Vec<i64>>) -> bool {
    &&& ks.len() >= 2
    &&& within_capacity(ks, vs, targets)
    &&& exists|binv: Seq<Seq<int>>, det: int| left_inverse(binv, det, ks)
}

/// Magnitude bounds of the normal system of a one-dimensional dataset
/// within capacity: the count entry is exact, and every other entry is
/// bounded by the point count times the coordinate or product bound.
proof fn lemma_entries_bounded_1d(ks: Seq<Point>, vs: Seq<i64>, k: int)
    requires
        cap1d(ks, vs),
        0 <= k <= ks.len(),
    ensures
        normal_entry(ks, 0, 0, k) == k,
        -k * 0x4000_0000 <= normal_entry(ks, 0, 1, k) <= k * 0x4000_0000,
        -k * 0x4000_0000 <= normal_entry(ks, 1, 0, k) <= k * 0x4000_0000,
        0 <= normal_entry(ks, 1, 1, k) <= k * 0x1000_0000_0000_0000,
        -k * 0x4000_0000 <= rhs_entry(ks, vs, 0, k) <= k * 0x4000_0000,
        -k * 0x1000_0000_0000_0000 <= rhs_entry(ks, vs, 1, k) <= k * 0x1000_0000_0000_0000,
    decreases k,
{
    if k > 0 {
        lemma_entries_bounded_1d(ks, vs, k - 1);
        let c = ks[k - 1].coordinates@[0];
        let v = vs[k - 1];
        assert(ks[k - 1].coordinates@.len() == 1);
        assert(row_at(ks[k - 1], 0) == 1);
        assert(row_at(ks[k - 1], 1) == c);
        assert(-0x4000_0000 <= c <= 0x4000_0000);
        assert(-0x4000_0000 <= v <= 0x4000_0000);
        assert(0 <= c * c <= 0x1000_0000_0000_0000) by (nonlinear_arith)
            requires
                -0x4000_0000 <= c <= 0x4000_0000,
        ;
        assert(-0x1000_0000_0000_0000 <= c * v <= 0x1000_0000_0000_0000) by (nonlinear_arith)
            requires
                -0x4000_0000 <= c <= 0x4000_0000,
                -0x4000_0000 <= v <= 0x4000_0000,
        ;
    }
}

/// The intercept-column entry of the normal matrix counts the points.
proof fn lemma_count_entry(ks: Seq<Point>, k: int)
    requires
        0 <= k,
    ensures
        normal_entry(ks, 0, 0, k) == k,
    decreases k,
{
    if k > 0 {
        lemma_count_entry(ks, k - 1);
        assert(row_at(ks[k - 1], 0) == 1);
    }
}

/// The normal matrix is symmetric in its two mixed entries.
proof fn lemma_normal_symmetric(ks: Seq<Point>, k: int)
    ensures
        normal_entry(ks, 0, 1, k) == normal_entry(ks, 1, 0, k),
    decreases k,
{
    if k > 0 {
        lemma_normal_symmetric(ks, k - 1);
        let p = row_at(ks[k - 1], 0);
        let q = row_at(ks[k - 1], 1);
        assert(p * q == q * p) by (nonlinear_arith);
    }
}

/// The spread of the first `k` coordinates around `x`: the sum of squared
/// deviations, written over the normal entries.
spec fn spread_term(ks: Seq<Point>, x: int, k: int) -> int {
    normal_entry(ks, 1, 1, k) + k * x * x - 2 * normal_entry(ks, 0, 1, k) * x
}

/// The spread is a sum of squares: nonnegative, and at least each single
/// squared deviation.
proof fn lemma_spread(ks: Seq<Point>, x: int, k: int)
    requires
        0 <= k,
    ensures
        spread_term(ks, x, k) >= 0,
        forall|i: int|
            0 <= i < k ==> spread_term(ks, x, k) >= (row_at(#[trigger] ks[i], 1) - x) * (row_at(
                ks[i],
                1,
            ) - x),
    decreases k,
{
    if k > 0 {
        lemma_spread(ks, x, k - 1);
        let y = row_at(ks[k - 1], 1);
        assert(row_at(ks[k - 1], 0) == 1);
        assert(normal_entry(ks, 1, 1, k) == normal_entry(ks, 1, 1, k - 1) + y * y);
        assert(normal_entry(ks, 0, 1, k) == normal_entry(ks, 0, 1, k - 1) + y);
        assert(spread_term(ks, x, k) == spread_term(ks, x, k - 1) + (y - x) * (y - x))
            by (nonlinear_arith)
            requires
                normal_entry(ks, 1, 1, k) == normal_entry(ks, 1, 1, k - 1) + y * y,
                normal_entry(ks, 0, 1, k) == normal_entry(ks, 0, 1, k - 1) + y,
                spread_term(ks, x, k) == normal_entry(ks, 1, 1, k) + k * x * x - 2 * normal_entry(
                    ks,
                    0,
                    1,
                    k,
                ) * x,
                spread_term(ks, x, k - 1) == normal_entry(ks, 1, 1, k - 1) + (k - 1) * x * x - 2
                    * normal_entry(ks, 0, 1, k - 1) * x,
        ;
        assert((y - x) * (y - x) >= 0) by (nonlinear_arith);
    }
}

/// The determinant form of the one-dimensional normal system is
/// nonnegative, and strictly positive once two coordinates differ.
proof fn lemma_det_form_positive(ks: Seq<Point>, k: int, i0: int, j0: int)
    requires
        0 <= i0 < j0 < k,
        row_at(ks[i0], 1) != row_at(ks[j0], 1),
    ensures
        k * normal_entry(ks, 1, 1, k) - normal_entry(ks, 0, 1, k) * normal_entry(ks, 0, 1, k) > 0,
    decreases k,
{
    lemma_det_form_nonneg(ks, k - 1);
    let y = row_at(ks[k - 1], 1);
    assert(row_at(ks[k - 1], 0) == 1);
    assert(normal_entry(ks, 1, 1, k) == normal_entry(ks, 1, 1, k - 1) + y * y);
    assert(normal_entry(ks, 0, 1, k) == normal_entry(ks, 0, 1, k - 1) + y);
    assert(k * normal_entry(ks, 1, 1, k) - normal_entry(ks, 0, 1, k) * normal_entry(ks, 0, 1, k)
        == ((k - 1) * normal_entry(ks, 1, 1, k - 1) - normal_entry(ks, 0, 1, k - 1)
        * normal_entry(ks, 0, 1, k - 1)) + spread_term(ks, y, k - 1)) by (nonlinear_arith)
        requires
            normal_entry(ks, 1, 1, k) == normal_entry(ks, 1, 1, k - 1) + y * y,
            normal_entry(ks, 0, 1, k) == normal_entry(ks, 0, 1, k - 1) + y,
            spread_term(ks, y, k - 1) == normal_entry(ks, 1, 1, k - 1) + (k - 1) * y * y - 2
                * normal_entry(ks, 0, 1, k - 1) * y,
    ;
    lemma_spread(ks, y, k - 1);
    if j0 == k - 1 {
        let z = row_at(ks[i0], 1);
        assert(spread_term(ks, y, k - 1) >= (z - y) * (z - y));
        assert((z - y) * (z - y) > 0) by (nonlinear_arith)
            requires
                z != y,
        ;
    } else {
        lemma_det_form_positive(ks, k - 1, i0, j0);
    }
}

/// The determinant form of the one-dimensional normal system is never
/// negative.
proof fn lemma_det_form_nonneg(ks: Seq<Point>, k: int)
    ensures
        k >= 0 ==> k * normal_entry(ks, 1, 1, k) - normal_entry(ks, 0, 1, k) * normal_entry(
            ks,
            0,
            1,
            k,
        ) >= 0,
    decreases k,
{
    if k > 0 {
        lemma_det_form_nonneg(ks, k - 1);
        let y = row_at(ks[k - 1], 1);
        assert(row_at(ks[k - 1], 0) == 1);
        assert(normal_entry(ks, 1, 1, k) == normal_entry(ks, 1, 1, k - 1) + y * y);
        assert(normal_entry(ks, 0, 1, k) == normal_entry(ks, 0, 1, k - 1) + y);
        assert(k * normal_entry(ks, 1, 1, k) - normal_entry(ks, 0, 1, k) * normal_entry(
            ks,
            0,
            1,
            k,
        ) == ((k - 1) * normal_entry(ks, 1, 1, k - 1) - normal_entry(ks, 0, 1, k - 1)
            * normal_entry(ks, 0, 1, k - 1)) + spread_term(ks, y, k - 1)) by (nonlinear_arith)
            requires
                normal_entry(ks, 1, 1, k) == normal_entry(ks, 1, 1, k - 1) + y * y,
                normal_entry(ks, 0, 1, k) == normal_entry(ks, 0, 1, k - 1) + y,
                spread_term(ks, y, k - 1) == normal_entry(ks, 1, 1, k - 1) + (k - 1) * y * y - 2
                    * normal_entry(ks, 0, 1, k - 1) * y,
        ;
        lemma_spread(ks, y, k - 1);
    }
}

/// A one-dimensional dataset with two distinct coordinates has a scaled
/// left inverse of its normal matrix: the adjugate over the determinant,
/// which the spread of the coordinates makes positive. Together with
/// `within_capacity` this discharges every hypothesis of the owed-success
/// clause of `linear_post`.
pub proof fn lemma_distinct_coordinates_left_inverse(ks: Seq<Point>, i0: int, j0: int)
    requires
        ks[0].coordinates@.len() == 1,
        0 <= i0 < j0 < ks.len(),
        ks[i0].coordinates@[0] != ks[j0].coordinates@[0],
    ensures
        exists|binv: Seq<Seq<int>>, det: int| left_inverse(binv, det, ks),
{
    let m = ks.len() as int;
    let a00 = normal_entry(ks, 0, 0, m);
    let a01 = normal_entry(ks, 0, 1, m);
    let a10 = normal_entry(ks, 1, 0, m);
    let a11 = normal_entry(ks, 1, 1, m);
    lemma_count_entry(ks, m);
    lemma_normal_symmetric(ks, m);
    assert(row_at(ks[i0], 1) == ks[i0].coordinates@[0]);
    assert(row_at(ks[j0], 1) == ks[j0].coordinates@[0]);
    lemma_det_form_positive(ks, m, i0, j0);
    let det = a00 * a11 - a01 * a10;
    assert(det > 0);
    let binv = seq![seq![a11, -a01], seq![-a10, a00]];
    lemma_inverse_entry_unfold_1d(binv, ks, 0, 0);
    lemma_inverse_entry_unfold_1d(binv, ks, 0, 1);
    lemma_inverse_entry_unfold_1d(binv, ks, 1, 0);
    lemma_inverse_entry_unfold_1d(binv, ks, 1, 1);
    assert(a11 * a00 + (-a01) * a10 == det) by (nonlinear_arith)
        requires
            det == a00 * a11 - a01 * a10,
    ;
    assert(a11 * a01 + (-a01) * a11 == 0) by (nonlinear_arith);
    assert((-a10) * a00 + a00 * a10 == 0) by (nonlinear_arith);
    assert((-a10) * a01 + a00 * a11 == det) by (nonlinear_arith)
        requires
            det == a00 * a11 - a01 * a10,
            a01 == a10,
    ;
    assert forall|l: int, j: int|
        0 <= l < 2 && 0 <= j < 2 implies #[trigger] inverse_entry(binv, ks, l, j) == (if l == j {
        det
    } else {
        0int
    }) by {
        if l == 0 && j == 0 {
            assert(inverse_entry(binv, ks, 0, 0) == a11 * a00 + (-a01) * a10);
        } else if l == 0 && j == 1 {
            assert(inverse_entry(binv, ks, 0, 1) == a11 * a01 + (-a01) * a11);
        } else if l == 1 && j == 0 {
            assert(inverse_entry(binv, ks, 1, 0) == (-a10) * a00 + a00 * a10);
        } else {
            assert(inverse_entry(binv, ks, 1, 1) == (-a10) * a01 + a00 * a11);
        }
    }
    assert(left_inverse(binv, det, ks));
}

/// Unfolds the inverse-times-normal product of a one-dimensional dataset
/// to its two terms.
proof fn lemma_inverse_entry_unfold_1d(binv: Seq<Seq<int>>, ks: Seq<Point>, l: int, j: int)
    requires
        ks[0].coordinates@.len() == 1,
    ensures
        inverse_entry(binv, ks, l, j) == binv[l][0] * normal_entry(ks, 0, j, ks.len() as int)
            + binv[l][1] * normal_entry(ks, 1, j, ks.len() as int),
{
    let f = |i: int| binv[l][i] * normal_entry(ks, i, j, ks.len() as int);
    assert(sum(0, f) == 0);
    assert(sum(1, f) == sum(0, f) + f(0));
    assert(sum(2, f) == sum(1, f) + f(1));
    assert(inverse_entry(binv, ks, l, j) == sum(2, f));
}

/// A one-dimensional normal system with a scaled left inverse has a
/// nonzero determinant: were it zero, the system would have a nontrivial
/// kernel vector, which the left inverse scales to zero.
proof fn lemma_left_inverse_det_nonzero(ks: Seq<Point>, binv: Seq<Seq<int>>, det: int)
    requires
        ks[0].coordinates@.len() == 1,
        left_inverse(binv, det, ks),
    ensures
        normal_entry(ks, 0, 0, ks.len() as int) * normal_entry(ks, 1, 1, ks.len() as int)
            - normal_entry(ks, 0, 1, ks.len() as int) * normal_entry(ks, 1, 0, ks.len() as int)
            != 0,
{
    let m = ks.len() as int;
    let a00 = normal_entry(ks, 0, 0, m);
    let a01 = normal_entry(ks, 0, 1, m);
    let a10 = normal_entry(ks, 1, 0, m);
    let a11 = normal_entry(ks, 1, 1, m);
    if a00 * a11 - a01 * a10 == 0 {
        // A nontrivial kernel vector of the singular 2x2 system.
        let v0: int = if a00 != 0 || a01 != 0 {
            a01
        } else if a10 != 0 || a11 != 0 {
            a11
        } else {
            1
        };
        let v1: int = if a00 != 0 || a01 != 0 {
            -a00
        } else if a10 != 0 || a11 != 0 {
            -a10
        } else {
            0
        };
        if a00 != 0 || a01 != 0 {
            assert(a00 * a01 + a01 * (-a00) == 0) by (nonlinear_arith);
            assert(a10 * a01 + a11 * (-a00) == -(a00 * a11 - a01 * a10)) by (nonlinear_arith);
        } else if a10 != 0 || a11 != 0 {
            assert(a00 * a11 + a01 * (-a10) == a00 * a11 - a01 * a10) by (nonlinear_arith);
            assert(a10 * a11 + a11 * (-a10) == 0) by (nonlinear_arith);
        }
        assert(a00 * v0 + a01 * v1 == 0);
        assert(a10 * v0 + a11 * v1 == 0);
        assert(v0 != 0 || v1 != 0);
        // The left inverse turns the kernel equations into det * v == 0.
        lemma_inverse_entry_unfold_1d(binv, ks, 0, 0);
        lemma_inverse_entry_unfold_1d(binv, ks, 0, 1);
        lemma_inverse_entry_unfold_1d(binv, ks, 1, 0);
        lemma_inverse_entry_unfold_1d(binv, ks, 1, 1);
        let e00 = binv[0][0] * a00 + binv[0][1] * a10;
        let e01 = binv[0][0] * a01 + binv[0][1] * a11;
        let e10 = binv[1][0] * a00 + binv[1][1] * a10;
        let e11 = binv[1][0] * a01 + binv[1][1] * a11;
        assert(e00 == det && e01 == 0 && e10 == 0 && e11 == det);
        assert(det * v0 == 0) by (nonlinear_arith)
            requires
                e00 == binv[0][0] * a00 + binv[0][1] * a10,
                e01 == binv[0][0] * a01 + binv[0][1] * a11,
                e00 == det,
                e01 == 0,
                a00 * v0 + a01 * v1 == 0,
                a10 * v0 + a11 * v1 == 0,
        ;
        assert(det * v1 == 0) by (nonlinear_arith)
            requires
                e10 == binv[1][0] * a00 + binv[1][1] * a10,
                e11 == binv[1][0] * a01 + binv[1][1] * a11,
                e10 == 0,
                e11 == det,
                a00 * v0 + a01 * v1 == 0,
                a10 * v0 + a11 * v1 == 0,
        ;
        assert(v0 == 0) by (nonlinear_arith)
            requires
                det > 0,
                det * v0 == 0,
        ;
        assert(v1 == 0) by (nonlinear_arith)
            requires
                det > 0,
                det * v1 == 0,
        ;
        assert(false);
    }
}

/// Entry `i` of the design row of point `p`.
fn row_val(p: &Point, i: usize) -> (v: i64)
    requires
        i <= p.coordinates@.len(),
    ensures
        v as int == row_at(*p, i as int),
{
    if i == 0 {
        1
    } else {
        p.coordinates[i - 1]
    }
}

/// Builds the normal system of the regression exactly; `None` when an
/// entry leaves the fixed-width arithmetic.
fn build_normal(ks: &Vec<Point>, vs: &Vec<i64>) -> (r: Option<(Vec<Vec<i128>>, Vec<i128>)>)
    requires
        ks@.len() == vs@.len(),
        ks@.len() >= 1,
        dims_ok(ks@),
        ks@[0].coordinates@.len() < usize::MAX,
    ensures
        r matches Some(ab) ==> {
            let d1 = ks@[0].coordinates@.len() + 1;
            &&& ab.0@.len() == d1
            &&& ab.1@.len() == d1
            &&& forall|i: int| 0 <= i < d1 ==> (#[trigger] ab.0@[i])@.len() == d1
            &&& forall|i: int, j: int|
                0 <= i < d1 && 0 <= j < d1 ==> (#[trigger] ab.0@[i]@[j]) as int == normal_entry(
                    ks@,
                    i,
                    j,
                    ks@.len() as int,
                )
            &&& forall|i: int|
                0 <= i < d1 ==> (#[trigger] ab.1@[i]) as int == rhs_entry(
                    ks@,
                    vs@,
                    i,
                    ks@.len() as int,
                )
        },
        cap1d(ks@, vs@) ==> r is Some,
{
    let n = ks.len();
    let d1 = ks[0].coordinates.len() + 1;
    let mut a: Vec<Vec<i128>> = Vec::new();
    let mut b: Vec<i128> = Vec::new();
    let mut i: usize = 0;
    while i < d1
        invariant
            n == ks@.len() == vs@.len(),
            n >= 1,
            dims_ok(ks@),
            d1 == ks@[0].coordinates@.len() + 1,
            0 <= i <= d1,
            a@.len() == i,
            b@.len() == i,
            forall|t: int| 0 <= t < i ==> (#[trigger] a@[t])@.len() == d1,
            forall|t: int, j: int|
                0 <= t < i && 0 <= j < d1 ==> (#[trigger] a@[t]@[j]) as int == normal_entry(
                    ks@,
                    t,
                    j,
                    n as int,
                ),
            forall|t: int|
                0 <= t < i ==> (#[trigger] b@[t]) as int == rhs_entry(ks@, vs@, t, n as int),
        decreases d1 - i,
    {
        let mut row: Vec<i128> = Vec::new();
        let mut j: usize = 0;
        while j < d1
            invariant
                n == ks@.len() == vs@.len(),
                n >= 1,
                dims_ok(ks@),
                d1 == ks@[0].coordinates@.len() + 1,
                0 <= i < d1,
                0 <= j <= d1,
                row@.len() == j,
                forall|u: int|
                    0 <= u < j ==> (#[trigger] row@[u]) as int == normal_entry(ks@, i as int, u,
                        n as int),
            decreases d1 - j,
        {
            let mut acc: i128 = 0;
            let mut k: usize = 0;
            while k < n
                invariant
                    n == ks@.len() == vs@.len(),
                    dims_ok(ks@),
                    d1 == ks@[0].coordinates@.len() + 1,
                    0 <= i < d1,
                    0 <= j < d1,
                    0 <= k <= n,
                    acc as int == normal_entry(ks@, i as int, j as int, k as int),
                    cap1d(ks@, vs@) ==> -(k as int) * 0x1000_0000_0000_0000 <= acc as int <= (
                    k as int) * 0x1000_0000_0000_0000,
                decreases n - k,
            {
                let va = row_val(&ks[k], i) as i128;
                let vb = row_val(&ks[k], j) as i128;
                proof {
                    if cap1d(ks@, vs@) {
                        assert(d1 == 2);
                        assert(ks@[k as int].coordinates@.len() == 1);
                        assert(-0x4000_0000 <= va <= 0x4000_0000);
                        assert(-0x4000_0000 <= vb <= 0x4000_0000);
                        assert(-0x1000_0000_0000_0000 <= va * vb <= 0x1000_0000_0000_0000)
                            by (nonlinear_arith)
                            requires
                                -0x4000_0000 <= va <= 0x4000_0000,
                                -0x4000_0000 <= vb <= 0x4000_0000,
                        ;
                    }
                }
                let term = match va.checked_mul(vb) {
                    Some(t) => t,
                    None => {
                        proof {
                            if cap1d(ks@, vs@) {
                                assert(false);
                            }
                        }
                        return None;
                    },
                };
                acc = match acc.checked_add(term) {
                    Some(t) => t,
                    None => {
                        proof {
                            if cap1d(ks@, vs@) {
                                assert(false);
                            }
                        }
                        return None;
                    },
                };
                k = k + 1;
            }
            row.push(acc);
            j = j + 1;
        }
        let mut accb: i128 = 0;
        let mut k2: usize = 0;
        while k2 < n
            invariant
                n == ks@.len() == vs@.len(),
                dims_ok(ks@),
                d1 == ks@[0].coordinates@.len() + 1,
                0 <= i < d1,
                0 <= k2 <= n,
                accb as int == rhs_entry(ks@, vs@, i as int, k2 as int),
                cap1d(ks@, vs@) ==> -(k2 as int) * 0x1000_0000_0000_0000 <= accb as int <= (
                k2 as int) * 0x1000_0000_0000_0000,
            decreases n - k2,
        {
            let va = row_val(&ks[k2], i) as i128;
            let vv = vs[k2] as i128;
            proof {
                if cap1d(ks@, vs@) {
                    assert(d1 == 2);
                    assert(ks@[k2 as int].coordinates@.len() == 1);
                    assert(-0x4000_0000 <= va <= 0x4000_0000);
                    assert(-0x4000_0000 <= vv <= 0x4000_0000);
                    assert(-0x1000_0000_0000_0000 <= va * vv <= 0x1000_0000_0000_0000)
                        by (nonlinear_arith)
                        requires
                            -0x4000_0000 <= va <= 0x4000_0000,
                            -0x4000_0000 <= vv <= 0x4000_0000,
                    ;
                }
            }
            let term = match va.checked_mul(vv) {
                Some(t) => t,
                None => {
                    proof {
                        if cap1d(ks@, vs@) {
                            assert(false);
                        }
                    }
                    return None;
                },
            };
            accb = match accb.checked_add(term) {
                Some(t) => t,
                None => {
                    proof {
                        if cap1d(ks@, vs@) {
                            assert(false);
                        }
                    }
                    return None;
                },
            };
            k2 = k2 + 1;
        }
        a.push(row);
        b.push(accb);
        i = i + 1;
    }
    Some((a, b))
}

/// Builds the Gram system `(X X^T) alpha == y` of the regression. Used as
/// a fallback when the normal matrix is singular (an underdetermined but
/// consistent fit); any candidate it produces is still verified against
/// the normal system before being accepted, so this builder needs no
/// contract of its own.
fn build_gram(ks: &Vec<Point>, vs: &Vec<i64>) -> (r: Option<(Vec<Vec<i128>>, Vec<i128>)>)
    requires
        ks@.len() == vs@.len(),
        ks@.len() >= 1,
        dims_ok(ks@),
        ks@[0].coordinates@.len() < usize::MAX,
{
    let n = ks.len();
    let d1 = ks[0].coordinates.len() + 1;
    let mut g: Vec<Vec<i128>> = Vec::new();
    let mut y: Vec<i128> = Vec::new();
    let mut i: usize = 0;
    while i < n
        invariant
            n == ks@.len() == vs@.len(),
            dims_ok(ks@),
            d1 == ks@[0].coordinates@.len() + 1,
            0 <= i <= n,
        decreases n - i,
    {
        let mut row: Vec<i128> = Vec::new();
        let mut j: usize = 0;
        while j < n
            invariant
                n == ks@.len() == vs@.len(),
                dims_ok(ks@),
                d1 == ks@[0].coordinates@.len() + 1,
                0 <= i < n,
                0 <= j <= n,
            decreases n - j,
        {
            let mut acc: i128 = 0;
            let mut t: usize = 0;
            while t < d1
                invariant
                    n == ks@.len() == vs@.len(),
                    dims_ok(ks@),
                    d1 == ks@[0].coordinates@.len() + 1,
                    0 <= i < n,
                    0 <= j < n,
                    0 <= t <= d1,
                decreases d1 - t,
            {
                let va = row_val(&ks[i], t) as i128;
                let vb = row_val(&ks[j], t) as i128;
                let term = match va.checked_mul(vb) {
                    Some(v) => v,
                    None => { return None; },
                };
                acc = match acc.checked_add(term) {
                    Some(v) => v,
                    None => { return None; },
                };
                t = t + 1;
            }
            row.push(acc);
            j = j + 1;
        }
        g.push(row);
        y.push(vs[i] as i128);
        i = i + 1;
    }
    Some((g, y))
}

/// Combines a Gram solution `alpha` into design-space coefficients
/// `beta[j] = sum_k alpha[k] * row(k)[j]`. As with the Gram builder, the
/// result is only a candidate: it must still pass the normal-system check.
fn combine_gram(ks: &Vec<Point>, alpha: &Vec<i128>) -> (r: Option<Vec<i128>>)
    requires
        ks@.len() >= 1,
        alpha@.len() == ks@.len(),
        dims_ok(ks@),
        ks@[0].coordinates@.len() < usize::MAX,
    ensures
        r matches Some(beta) ==> beta@.len() == ks@[0].coordinates@.len() + 1,
{
    let n = ks.len();
    let d1 = ks[0].coordinates.len() + 1;
    let mut beta: Vec<i128> = Vec::new();
    let mut j: usize = 0;
    while j < d1
        invariant
            n == ks@.len() == alpha@.len(),
            dims_ok(ks@),
            d1 == ks@[0].coordinates@.len() + 1,
            0 <= j <= d1,
            beta@.len() == j,
        decreases d1 - j,
    {
        let mut acc: i128 = 0;
        let mut k: usize = 0;
        while k < n
            invariant
                n == ks@.len() == alpha@.len(),
                dims_ok(ks@),
                d1 == ks@[0].coordinates@.len() + 1,
                0 <= j < d1,
                0 <= k <= n,
            decreases n - k,
        {
            let va = row_val(&ks[k], j) as i128;
            let term = match alpha[k].checked_mul(va) {
                Some(v) => v,
                None => { return None; },
            };
            acc = match acc.checked_add(term) {
                Some(v) => v,
                None => { return None; },
            };
            k = k + 1;
        }
        beta.push(acc);
        j = j + 1;
    }
    Some(beta)
}

/// A dot product against a row whose entries are the normal-matrix entries
/// is the normal-matrix combination.
proof fn lemma_dot_is_combo(u: Seq<i128>, ks: Seq<Point>, i: int, x: Seq<i128>, j: int)
    requires
        0 <= j,
        forall|t: int|
            0 <= t < j ==> (#[trigger] u[t]) as int == normal_entry(ks, i, t, ks.len() as int),
    ensures
        dot_prefix(u, x, j) == normal_combo(ks, i, x, j),
    decreases j,
{
    if j > 0 {
        lemma_dot_is_combo(u, ks, i, x, j - 1);
    }
}

/// Linear (global affine least-squares) evaluation of a batch of targets
/// against the dataset columns `(keys, values)`.
///
/// Fails with `InsufficientPoints` exactly when the dataset has fewer
/// than two points, and with `DimensionMismatch` exactly when the
/// calibration points or the targets do not share one dimensionality.
/// `SingularSystem` reports a normal system that could not be solved
/// exactly: a rank-deficient fit, or exact values beyond the fixed-width
/// arithmetic — and is ruled out, by contract, for a well-conditioned
/// one-dimensional batch within the capacity bounds (`success_owed`). On
/// success the coefficients solve the normal equations exactly, and every
/// target gets the exact affine prediction, in target order.
pub fn linear_interpolate(keys: &Vec<Point>, values: &Vec<i64>, targets: &Vec<Vec<i64>>) -> (r:
    Result<Vec<Rat>, InterpolationError>)
    requires
        keys@.len() == values@.len(),
    ensures
        linear_post(keys@, values@, targets@, r),
{
    if keys.len() < 2 {
        return Err(InterpolationError::InsufficientPoints);
    }
    let n = keys.len();
    let d = keys[0].coordinates.len();
    let mut k0: usize = 0;
    while k0 < n
        invariant
            n == keys@.len(),
            d == keys@[0].coordinates@.len(),
            0 <= k0 <= n,
            forall|t: int| 0 <= t < k0 ==> (#[trigger] keys@[t].coordinates@).len() == d,
        decreases n - k0,
    {
        if keys[k0].coordinates.len() != d {
            return Err(InterpolationError::DimensionMismatch);
        }
        k0 = k0 + 1;
    }
    let mt = targets.len();
    let mut k1: usize = 0;
    while k1 < mt
        invariant
            n == keys@.len(),
            n >= 2,
            mt == targets@.len(),
            d == keys@[0].coordinates@.len(),
            dims_ok(keys@),
            0 <= k1 <= mt,
            forall|t: int| 0 <= t < k1 ==> (#[trigger] targets@[t])@.len() == d,
        decreases mt - k1,
    {
        if targets[k1].len() != d {
            return Err(InterpolationError::DimensionMismatch);
        }
        k1 = k1 + 1;
    }
    if d >= usize::MAX {
        return Err(InterpolationError::SingularSystem);
    }

    let built = match build_normal(keys, values) {
        Some(ab) => ab,
        None => { return Err(InterpolationError::SingularSystem); },
    };
    let a = built.0;
    let b = built.1;

    // For a one-dimensional fit, solve the 2x2 normal system by the
    // closed Cramer form, which owes success on well-conditioned data
    // within capacity. Otherwise, or when that route declines, run the
    // general exact elimination, falling back to the Gram route for an
    // underdetermined but consistent fit; those candidates are accepted
    // only after an exact substitution check against the normal system.
    let r2 = if d == 1 {
        solve_2x2(&a, &b)
    } else {
        None
    };
    let mut nums: Vec<i128>;
    let mut den: i128;
    match r2 {
        Some(sol) => {
            proof {
                if success_owed(keys@, values@, targets@) {
                    lemma_entries_bounded_1d(keys@, values@, n as int);
                    let av00 = a@[0]@[0] as int;
                    let av01 = a@[0]@[1] as int;
                    let av10 = a@[1]@[0] as int;
                    let av11 = a@[1]@[1] as int;
                    let bv0 = b@[0] as int;
                    let bv1 = b@[1] as int;
                    assert(av00 == normal_entry(keys@, 0, 0, n as int));
                    assert(av01 == normal_entry(keys@, 0, 1, n as int));
                    assert(av10 == normal_entry(keys@, 1, 0, n as int));
                    assert(av11 == normal_entry(keys@, 1, 1, n as int));
                    assert(bv0 == rhs_entry(keys@, values@, 0, n as int));
                    assert(bv1 == rhs_entry(keys@, values@, 1, n as int));
                    assert(-0x4000000000000000000000000000000 <= av11 * bv0 <= 0x4000000000000000000000000000000) by (nonlinear_arith)
                        requires
                            -0x10000000000000000000 <= av11 <= 0x10000000000000000000,
                            -0x400000000000 <= bv0 <= 0x400000000000,
                    ;
                    assert(-0x4000000000000000000000000000000 <= av01 * bv1 <= 0x4000000000000000000000000000000) by (nonlinear_arith)
                        requires
                            -0x400000000000 <= av01 <= 0x400000000000,
                            -0x10000000000000000000 <= bv1 <= 0x10000000000000000000,
                    ;
                    assert(-0x100000000000000000000000 <= av00 * bv1 <= 0x100000000000000000000000) by (nonlinear_arith)
                        requires
                            0 <= av00 <= 0x10000,
                            -0x10000000000000000000 <= bv1 <= 0x10000000000000000000,
                    ;
                    assert(-0x100000000000000000000000 <= av10 * bv0 <= 0x100000000000000000000000) by (nonlinear_arith)
                        requires
                            -0x400000000000 <= av10 <= 0x400000000000,
                            -0x400000000000 <= bv0 <= 0x400000000000,
                    ;
                    assert(-0x8000000000000000000000000000000 <= sol.0@[0] <= 0x8000000000000000000000000000000);
                    assert(-0x200000000000000000000000 <= sol.0@[1] <= 0x200000000000000000000000);
                }
            }
            nums = sol.0;
            den = sol.1;
            proof {
                assert(success_owed(keys@, values@, targets@) ==> (nums@.len() == 2 && -0x8000000000000000000000000000000
                    <= nums@[0] <= 0x8000000000000000000000000000000 && -0x200000000000000000000000 <= nums@[1] <= 0x200000000000000000000000));
            }
        },
        None => {
            proof {
                if success_owed(keys@, values@, targets@) {
                    lemma_entries_bounded_1d(keys@, values@, n as int);
                    let bw = choose|binv: Seq<Seq<int>>, dt: int| left_inverse(binv, dt, keys@);
                    lemma_left_inverse_det_nonzero(keys@, bw.0, bw.1);
                    let av00 = a@[0]@[0] as int;
                    let av01 = a@[0]@[1] as int;
                    let av10 = a@[1]@[0] as int;
                    let av11 = a@[1]@[1] as int;
                    let bv0 = b@[0] as int;
                    let bv1 = b@[1] as int;
                    assert(av00 == normal_entry(keys@, 0, 0, n as int));
                    assert(av01 == normal_entry(keys@, 0, 1, n as int));
                    assert(av10 == normal_entry(keys@, 1, 0, n as int));
                    assert(av11 == normal_entry(keys@, 1, 1, n as int));
                    assert(bv0 == rhs_entry(keys@, values@, 0, n as int));
                    assert(bv1 == rhs_entry(keys@, values@, 1, n as int));
                    assert(det_2x2(a@) != 0);
                    assert(-0x4000000000000000000000000000000 <= av11 * bv0 <= 0x4000000000000000000000000000000) by (nonlinear_arith)
                        requires
                            -0x10000000000000000000 <= av11 <= 0x10000000000000000000,
                            -0x400000000000 <= bv0 <= 0x400000000000,
                    ;
                    assert(-0x4000000000000000000000000000000 <= av01 * bv1 <= 0x4000000000000000000000000000000) by (nonlinear_arith)
                        requires
                            -0x400000000000 <= av01 <= 0x400000000000,
                            -0x10000000000000000000 <= bv1 <= 0x10000000000000000000,
                    ;
                    assert(-0x100000000000000000000000 <= av00 * bv1 <= 0x100000000000000000000000) by (nonlinear_arith)
                        requires
                            0 <= av00 <= 0x10000,
                            -0x10000000000000000000 <= bv1 <= 0x10000000000000000000,
                    ;
                    assert(-0x100000000000000000000000 <= av10 * bv0 <= 0x100000000000000000000000) by (nonlinear_arith)
                        requires
                            -0x400000000000 <= av10 <= 0x400000000000,
                            -0x400000000000 <= bv0 <= 0x400000000000,
                    ;
                    assert(-0x100000000000000000000000 <= av00 * av11 <= 0x100000000000000000000000) by (nonlinear_arith)
                        requires
                            0 <= av00 <= 0x10000,
                            -0x10000000000000000000 <= av11 <= 0x10000000000000000000,
                    ;
                    assert(-0x100000000000000000000000 <= av01 * av10 <= 0x100000000000000000000000) by (nonlinear_arith)
                        requires
                            -0x400000000000 <= av01 <= 0x400000000000,
                            -0x400000000000 <= av10 <= 0x400000000000,
                    ;
                    assert(products_fit_2x2(a@, b@));
                    assert(false);
                }
            }
            match solve_exact(&a, &b) {
                Some(sol) => {
                    nums = sol.0;
                    den = sol.1;
                },
                None => {
                    let gram = match build_gram(keys, values) {
                        Some(gy) => gy,
                        None => { return Err(InterpolationError::SingularSystem); },
                    };
                    let alpha = match solve_exact(&gram.0, &gram.1) {
                        Some(sol) => sol,
                        None => { return Err(InterpolationError::SingularSystem); },
                    };
                    if alpha.0.len() != n {
                        return Err(InterpolationError::SingularSystem);
                    }
                    let beta = match combine_gram(keys, &alpha.0) {
                        Some(v) => v,
                        None => { return Err(InterpolationError::SingularSystem); },
                    };
                    if !check_solution(&a, &b, &beta, alpha.1) {
                        return Err(InterpolationError::SingularSystem);
                    }
                    nums = beta;
                    den = alpha.1;
                },
            }
        },
    }

    proof {
        assert(nums@.len() == d + 1);
        assert forall|i: int| 0 <= i < d + 1 implies normal_combo(keys@, i, nums@, d + 1) == (
        den as int) * rhs_entry(keys@, values@, i, n as int) by {
            assert(dot_prefix(a@[i]@, nums@, nums@.len() as int) == (den as int) * b@[i]);
            lemma_dot_is_combo(a@[i]@, keys@, i, nums@, (d + 1) as int);
        }
        assert(normal_solution(keys@, values@, nums@, den as int));
    }

    // Apply the coefficients to every target, in order.
    let m = targets.len();
    let mut vals: Vec<Rat> = Vec::new();
    let mut k: usize = 0;
    while k < m
        invariant
            m == targets@.len(),
            n == keys@.len() == values@.len(),
            n >= 2,
            dims_ok(keys@),
            targets_dims_ok(keys@, targets@),
            d == keys@[0].coordinates@.len(),
            nums@.len() == d + 1,
            d < usize::MAX,
            den > 0,
            success_owed(keys@, values@, targets@) ==> (d == 1 && nums@.len() == 2 && -0x8000000000000000000000000000000
                <= nums@[0] <= 0x8000000000000000000000000000000 && -0x200000000000000000000000 <= nums@[1] <= 0x200000000000000000000000),
            0 <= k <= m,
            vals@.len() == k,
            forall|t: int|
                0 <= t < k ==> (#[trigger] vals@[t]).den == den && vals@[t].num == pred_num(
                    nums@,
                    targets@[t]@,
                ),
        decreases m - k,
    {
        let t = &targets[k];
        let w = if d <= t.len() {
            d
        } else {
            t.len()
        };
        let mut acc: i128 = nums[0];
        let mut i: usize = 0;
        while i < w
            invariant
                n == keys@.len() == values@.len(),
                n >= 2,
                dims_ok(keys@),
                targets_dims_ok(keys@, targets@),
                d == keys@[0].coordinates@.len(),
                w <= t@.len(),
                nums@.len() == d + 1,
                w <= d,
                success_owed(keys@, values@, targets@) ==> (d == 1 && w == 1 && t@.len() == 1
                    && -0x4000_0000 <= t@[0] <= 0x4000_0000 && -0x8000000000000000000000000000000 <= nums@[0] <= 0x8000000000000000000000000000000
                    && -0x200000000000000000000000 <= nums@[1] <= 0x200000000000000000000000 && (i == 0 ==> acc == nums@[0])),
                0 <= i <= w,
                acc as int == nums@[0] + pred_part(nums@, t@, i as int),
            decreases w - i,
        {
            proof {
                if success_owed(keys@, values@, targets@) {
                    assert(i == 0);
                    assert(-0x8000000000000000000000000000000 <= (nums@[1] as int) * (t@[0] as int) <= 0x8000000000000000000000000000000)
                        by (nonlinear_arith)
                        requires
                            -0x200000000000000000000000 <= nums@[1] <= 0x200000000000000000000000,
                            -0x4000_0000 <= t@[0] <= 0x4000_0000,
                    ;
                }
            }
            let term = match nums[i + 1].checked_mul(t[i] as i128) {
                Some(v) => v,
                None => {
                    proof {
                        if success_owed(keys@, values@, targets@) {
                            assert(false);
                        }
                    }
                    return Err(InterpolationError::SingularSystem);
                },
            };
            acc = match acc.checked_add(term) {
                Some(v) => v,
                None => {
                    proof {
                        if success_owed(keys@, values@, targets@) {
                            assert(false);
                        }
                    }
                    return Err(InterpolationError::SingularSystem);
                },
            };
            i = i + 1;
        }
        vals.push(Rat { num: acc, den });
        k = k + 1;
    }
    proof {
        assert(normal_solution(keys@, values@, nums@, den as int) && forall|t: int|
            0 <= t < targets@.len() ==> (#[trigger] vals@[t]).den == den as int && vals@[t].num
                == pred_num(nums@, targets@[t]@));
    }
    Ok(vals)
}

/// The affine form written by coefficients `c` over the design row of
/// point `p`, over the first `n` coefficients: `c[0] + c[1] p_1 + ...`.
pub open spec fn row_combo(p: Point, c: Seq<int>, n: int) -> int
    decreases n,
{
    if n <= 0 {
        0
    } else {
        row_combo(p, c, n - 1) + c[n - 1] * row_at(p, n - 1)
    }
}

/// The calibration values follow the affine rule `c` exactly: every value
/// is the rule applied to its point's coordinates.
pub open spec fn affine_data(ks: Seq<Point>, vs: Seq<i64>, c: Seq<int>) -> bool {
    &&& c.len() == ks[0].coordinates@.len() + 1
    &&& forall|k: int|
        0 <= k < ks.len() ==> #[trigger] vs[k] == row_combo(ks[k], c, c.len() as int)
}

/// The affine rule `c` applied to a target: `c[0] + sum c[1+j] t[j]`.
pub open spec fn affine_value(c: Seq<int>, t: Seq<i64>) -> int {
    c[0] + sum(t.len() as int, |j: int| c[1 + j] * (t[j] as int))
}

/// Row `l` of `binv` applied to column `j` of the normal matrix.
pub open spec fn inverse_entry(binv: Seq<Seq<int>>, ks: Seq<Point>, l: int, j: int) -> int {
    let d1 = ks[0].coordinates@.len() + 1;
    sum(d1 as int, |i: int| binv[l][i] * normal_entry(ks, i, j, ks.len() as int))
}

/// `binv` is a scaled left inverse of the normal matrix of the dataset:
/// an integer matrix with `binv . A == det . I` for a positive `det` (the
/// adjugate and the determinant, say). One exists exactly when the normal
/// system is well conditioned (full rank).
pub open spec fn left_inverse(binv: Seq<Seq<int>>, det: int, ks: Seq<Point>) -> bool {
    let d1 = ks[0].coordinates@.len() + 1;
    &&& det > 0
    &&& binv.len() == d1
    &&& forall|l: int, j: int|
        0 <= l < d1 && 0 <= j < d1 ==> #[trigger] inverse_entry(binv, ks, l, j) == if l == j {
            det
        } else {
            0int
        }
}

proof fn lemma_normal_entry_as_sum(ks: Seq<Point>, i: int, j: int, m: int)
    ensures
        normal_entry(ks, i, j, m) == sum(m, |k: int| row_at(ks[k], i) * row_at(ks[k], j)),
    decreases m,
{
    if m > 0 {
        lemma_normal_entry_as_sum(ks, i, j, m - 1);
    }
}

proof fn lemma_rhs_entry_as_sum(ks: Seq<Point>, vs: Seq<i64>, i: int, m: int)
    ensures
        rhs_entry(ks, vs, i, m) == sum(m, |k: int| row_at(ks[k], i) * vs[k]),
    decreases m,
{
    if m > 0 {
        lemma_rhs_entry_as_sum(ks, vs, i, m - 1);
    }
}

proof fn lemma_normal_combo_as_sum(ks: Seq<Point>, i: int, x: Seq<i128>, j: int)
    ensures
        normal_combo(ks, i, x, j) == sum(
            j,
            |jj: int| normal_entry(ks, i, jj, ks.len() as int) * (x[jj] as int),
        ),
    decreases j,
{
    if j > 0 {
        lemma_normal_combo_as_sum(ks, i, x, j - 1);
    }
}

proof fn lemma_row_combo_as_sum(p: Point, c: Seq<int>, n: int)
    ensures
        row_combo(p, c, n) == sum(n, |t: int| c[t] * row_at(p, t)),
    decreases n,
{
    if n > 0 {
        lemma_row_combo_as_sum(p, c, n - 1);
    }
}

proof fn lemma_pred_part_as_sum(x: Seq<i128>, t: Seq<i64>, k: int)
    ensures
        pred_part(x, t, k) == sum(k, |j: int| (x[1 + j] as int) * (t[j] as int)),
    decreases k,
{
    if k > 0 {
        lemma_pred_part_as_sum(x, t, k - 1);
    }
}

/// An exactly affine dataset satisfies its own normal equations: the
/// rule's coefficients solve them with denominator one.
proof fn lemma_affine_solves_normal(ks: Seq<Point>, vs: Seq<i64>, c: Seq<int>, i: int)
    requires
        ks.len() >= 1,
        dims_ok(ks),
        affine_data(ks, vs, c),
        0 <= i < c.len(),
    ensures
        sum(c.len() as int, |j: int| normal_entry(ks, i, j, ks.len() as int) * c[j]) == rhs_entry(
            ks,
            vs,
            i,
            ks.len() as int,
        ),
{
    let d1 = c.len() as int;
    let m = ks.len() as int;
    let prod = |j: int, k: int| row_at(ks[k], i) * row_at(ks[k], j) * c[j];

    // The combined row sum, expanded over the calibration points.
    assert(sum(d1, |j: int| normal_entry(ks, i, j, m) * c[j]) == sum(
        d1,
        |j: int| sum(m, |k: int| prod(j, k)),
    )) by {
        assert forall|j: int| 0 <= j < d1 implies #[trigger] (normal_entry(ks, i, j, m) * c[j])
            == sum(m, |k: int| prod(j, k)) by {
            lemma_normal_entry_as_sum(ks, i, j, m);
            assert forall|k: int| 0 <= k < m implies #[trigger] prod(j, k) == c[j] * (row_at(
                ks[k],
                i,
            ) * row_at(ks[k], j)) by {
                assert(row_at(ks[k], i) * row_at(ks[k], j) * c[j] == c[j] * (row_at(ks[k], i)
                    * row_at(ks[k], j))) by (nonlinear_arith);
            }
            lemma_sum_scale(
                m,
                c[j],
                |k: int| row_at(ks[k], i) * row_at(ks[k], j),
                |k: int| prod(j, k),
            );
        }
        lemma_sum_ext(
            d1,
            |j: int| normal_entry(ks, i, j, m) * c[j],
            |j: int| sum(m, |k: int| prod(j, k)),
        );
    }

    // Exchange the order of summation.
    lemma_sum_swap(d1, m, prod);

    // Factor the common row entry out of each point's contribution.
    assert(sum(m, |k: int| sum(d1, |j: int| prod(j, k))) == sum(
        m,
        |k: int| row_at(ks[k], i) * vs[k],
    )) by {
        assert forall|k: int| 0 <= k < m implies sum(d1, |j: int| prod(j, k)) == row_at(
            ks[k],
            i,
        ) * vs[k] by {
            assert forall|j: int| 0 <= j < d1 implies #[trigger] prod(j, k) == row_at(ks[k], i) * (
            c[j] * row_at(ks[k], j)) by {
                assert(row_at(ks[k], i) * row_at(ks[k], j) * c[j] == row_at(ks[k], i) * (c[j]
                    * row_at(ks[k], j))) by (nonlinear_arith);
            }
            lemma_sum_scale(
                d1,
                row_at(ks[k], i),
                |j: int| c[j] * row_at(ks[k], j),
                |j: int| prod(j, k),
            );
            lemma_row_combo_as_sum(ks[k], c, d1);
            assert(vs[k] == row_combo(ks[k], c, d1));
        }
        lemma_sum_ext(
            m,
            |k: int| sum(d1, |j: int| prod(j, k)),
            |k: int| row_at(ks[k], i) * vs[k],
        );
    }

    // Swap the sums on the left-hand side and read off the right-hand side.
    assert(sum(d1, |j: int| sum(m, |k: int| prod(j, k))) == sum(
        m,
        |k: int| sum(d1, |j: int| prod(j, k)),
    )) by {
        lemma_sum_ext(
            d1,
            |j: int| sum(m, |k: int| prod(j, k)),
            |j: int| sum(m, |k2: int| prod(j, k2)),
        );
        lemma_sum_ext(
            m,
            |k: int| sum(d1, |j2: int| prod(j2, k)),
            |k: int| sum(d1, |j: int| prod(j, k)),
        );
    }
    lemma_rhs_entry_as_sum(ks, vs, i, m);
}

/// The difference between a scaled solution and the scaled affine rule.
spec fn resid(x: Seq<i128>, q: int, c: Seq<int>, j: int) -> int {
    (x[j] as int) - q * c[j]
}

/// Row `i` of the normal matrix against the residual vector.
spec fn normal_row_resid(ks: Seq<Point>, x: Seq<i128>, q: int, c: Seq<int>, i: int) -> int {
    sum(c.len() as int, |j: int| normal_entry(ks, i, j, ks.len() as int) * resid(x, q, c, j))
}

/// Column `j` of the inverse-times-normal product against the residual.
spec fn binv_col_resid(
    binv: Seq<Seq<int>>,
    ks: Seq<Point>,
    x: Seq<i128>,
    q: int,
    c: Seq<int>,
    l: int,
    j: int,
) -> int {
    sum(
        c.len() as int,
        |i: int| binv[l][i] * (normal_entry(ks, i, j, ks.len() as int) * resid(x, q, c, j)),
    )
}

/// Row `i` of the same product, summed over the columns.
spec fn binv_row_resid(
    binv: Seq<Seq<int>>,
    ks: Seq<Point>,
    x: Seq<i128>,
    q: int,
    c: Seq<int>,
    l: int,
    i: int,
) -> int {
    sum(
        c.len() as int,
        |j: int| binv[l][i] * (normal_entry(ks, i, j, ks.len() as int) * resid(x, q, c, j)),
    )
}

/// With a left inverse of the normal matrix in hand, the normal equations
/// pin their solution down: any scaled solution is the scaled affine rule.
proof fn lemma_normal_solution_unique(
    ks: Seq<Point>,
    vs: Seq<i64>,
    c: Seq<int>,
    binv: Seq<Seq<int>>,
    det: int,
    x: Seq<i128>,
    q: int,
    l: int,
)
    requires
        ks.len() >= 1,
        dims_ok(ks),
        affine_data(ks, vs, c),
        left_inverse(binv, det, ks),
        normal_solution(ks, vs, x, q),
        0 <= l < c.len(),
    ensures
        x[l] as int == q * c[l],
{
    let d1 = c.len() as int;
    let m = ks.len() as int;
    let w = |j: int| resid(x, q, c, j);
    let row = |i: int, j: int| normal_entry(ks, i, j, m);

    // Each normal row annihilates the residual vector.
    assert forall|i: int| 0 <= i < d1 implies #[trigger] normal_row_resid(ks, x, q, c, i)
        == 0 by {
        lemma_normal_combo_as_sum(ks, i, x, d1);
        lemma_affine_solves_normal(ks, vs, c, i);
        lemma_sum_scale(d1, q, |j: int| row(i, j) * c[j], |j: int| q * (row(i, j) * c[j]));
        assert forall|j: int| 0 <= j < d1 implies #[trigger] (row(i, j) * resid(x, q, c, j))
            == row(i, j) * (x[j] as int) + (-1) * (q * (row(i, j) * c[j])) by {
            assert(row(i, j) * ((x[j] as int) - q * c[j]) == row(i, j) * (x[j] as int) + (-1) * (q
                * (row(i, j) * c[j]))) by (nonlinear_arith);
        }
        lemma_sum_linear(
            d1,
            |j: int| row(i, j) * (x[j] as int),
            |j: int| (-1) * (q * (row(i, j) * c[j])),
            |j: int| row(i, j) * resid(x, q, c, j),
        );
        lemma_sum_scale(
            d1,
            -1,
            |j: int| q * (row(i, j) * c[j]),
            |j: int| (-1) * (q * (row(i, j) * c[j])),
        );
        lemma_sum_ext(
            d1,
            |j: int| normal_entry(ks, i, j, ks.len() as int) * (x[j] as int),
            |j: int| row(i, j) * (x[j] as int),
        );
        lemma_sum_ext(
            d1,
            |j: int| normal_entry(ks, i, j, ks.len() as int) * c[j],
            |j: int| row(i, j) * c[j],
        );
        lemma_sum_ext(
            d1,
            |j: int| normal_entry(ks, i, j, ks.len() as int) * resid(x, q, c, j),
            |j: int| row(i, j) * resid(x, q, c, j),
        );
    }

    // Fold in the left inverse and exchange the summation order.
    let g = |i: int, j: int| binv[l][i] * (row(i, j) * w(j));
    assert(sum(d1, |i: int| sum(d1, |j: int| g(i, j))) == 0) by {
        assert forall|i: int| 0 <= i < d1 implies #[trigger] binv_row_resid(binv, ks, x, q, c, l, i)
            == 0 by {
            lemma_sum_scale(
                d1,
                binv[l][i],
                |j: int| normal_entry(ks, i, j, ks.len() as int) * resid(x, q, c, j),
                |j: int| binv[l][i] * (normal_entry(ks, i, j, ks.len() as int) * resid(x, q, c, j)),
            );
            assert(normal_row_resid(ks, x, q, c, i) == 0);
            assert(binv[l][i] * 0 == 0) by (nonlinear_arith);
        }
        assert forall|i: int| 0 <= i < d1 implies sum(d1, |j: int| g(i, j)) == #[trigger] binv_row_resid(
            binv,
            ks,
            x,
            q,
            c,
            l,
            i,
        ) by {
            lemma_sum_ext(
                d1,
                |j: int| g(i, j),
                |j: int| binv[l][i] * (normal_entry(ks, i, j, ks.len() as int) * resid(x, q, c, j)),
            );
        }
        lemma_sum_zero(d1, |i: int| binv_row_resid(binv, ks, x, q, c, l, i));
        lemma_sum_ext(
            d1,
            |i: int| sum(d1, |j: int| g(i, j)),
            |i: int| binv_row_resid(binv, ks, x, q, c, l, i),
        );
    }
    lemma_sum_swap(d1, d1, g);

    // The delta rows of the product pick out the scaled residual entries.
    let wd = |j: int| det * resid(x, q, c, j);
    assert(sum(d1, |j: int| sum(d1, |i: int| g(i, j))) == wd(l)) by {
        assert forall|j: int| 0 <= j < d1 implies #[trigger] binv_col_resid(binv, ks, x, q, c, l, j)
            == (if j == l {
            det * resid(x, q, c, l)
        } else {
            0int
        }) by {
            assert forall|i: int| 0 <= i < d1 implies #[trigger] (binv[l][i] * (normal_entry(
                ks,
                i,
                j,
                ks.len() as int,
            ) * resid(x, q, c, j))) == resid(x, q, c, j) * (binv[l][i] * normal_entry(
                ks,
                i,
                j,
                ks.len() as int,
            )) by {
                let a = binv[l][i];
                let b = normal_entry(ks, i, j, ks.len() as int);
                let r = resid(x, q, c, j);
                assert(a * (b * r) == r * (a * b)) by (nonlinear_arith);
            }
            lemma_sum_scale(
                d1,
                resid(x, q, c, j),
                |i: int| binv[l][i] * normal_entry(ks, i, j, ks.len() as int),
                |i: int| binv[l][i] * (normal_entry(ks, i, j, ks.len() as int) * resid(x, q, c, j)),
            );
            assert(inverse_entry(binv, ks, l, j) == sum(
                d1,
                |i: int| binv[l][i] * normal_entry(ks, i, j, ks.len() as int),
            ));
            if j == l {
                assert(inverse_entry(binv, ks, l, j) == det);
                assert(resid(x, q, c, j) * det == det * resid(x, q, c, j)) by (nonlinear_arith);
            } else {
                assert(inverse_entry(binv, ks, l, j) == 0);
                assert(resid(x, q, c, j) * 0 == 0) by (nonlinear_arith);
            }
        }
        assert forall|j: int| 0 <= j < d1 implies sum(d1, |i: int| g(i, j)) == #[trigger] binv_col_resid(
            binv,
            ks,
            x,
            q,
            c,
            l,
            j,
        ) by {
            lemma_sum_ext(
                d1,
                |i: int| g(i, j),
                |i: int| binv[l][i] * (normal_entry(ks, i, j, ks.len() as int) * resid(x, q, c, j)),
            );
        }
        lemma_sum_delta(d1, l, |j: int| binv_col_resid(binv, ks, x, q, c, l, j), wd);
        lemma_sum_ext(
            d1,
            |j: int| sum(d1, |i: int| g(i, j)),
            |j: int| binv_col_resid(binv, ks, x, q, c, l, j),
        );
    }
    // A positive determinant times the residual is zero, so the residual
    // itself vanishes.
    assert(det * resid(x, q, c, l) == 0);
    assert(resid(x, q, c, l) == 0) by (nonlinear_arith)
        requires
            det > 0,
            det * resid(x, q, c, l) == 0,
    ;
}

/// The cross-scaled difference of two scaled solutions.
spec fn resid2(x: Seq<i128>, q: int, y: Seq<i128>, p: int, j: int) -> int {
    p * (x[j] as int) - q * (y[j] as int)
}

/// Row `i` of the normal matrix against the cross-scaled difference.
spec fn normal_row_resid2(
    ks: Seq<Point>,
    x: Seq<i128>,
    q: int,
    y: Seq<i128>,
    p: int,
    i: int,
) -> int {
    sum(x.len() as int, |j: int| normal_entry(ks, i, j, ks.len() as int) * resid2(x, q, y, p, j))
}

/// Column `j` of the inverse-times-normal product against the difference.
spec fn binv_col_resid2(
    binv: Seq<Seq<int>>,
    ks: Seq<Point>,
    x: Seq<i128>,
    q: int,
    y: Seq<i128>,
    p: int,
    l: int,
    j: int,
) -> int {
    sum(
        x.len() as int,
        |i: int| binv[l][i] * (normal_entry(ks, i, j, ks.len() as int) * resid2(x, q, y, p, j)),
    )
}

/// Row `i` of the same product, summed over the columns.
spec fn binv_row_resid2(
    binv: Seq<Seq<int>>,
    ks: Seq<Point>,
    x: Seq<i128>,
    q: int,
    y: Seq<i128>,
    p: int,
    l: int,
    i: int,
) -> int {
    sum(
        x.len() as int,
        |j: int| binv[l][i] * (normal_entry(ks, i, j, ks.len() as int) * resid2(x, q, y, p, j)),
    )
}

/// A well-conditioned normal system has one rational solution: any two
/// scaled solutions agree entry by entry after cross-scaling.
proof fn lemma_normal_solutions_agree(
    ks: Seq<Point>,
    vs: Seq<i64>,
    x: Seq<i128>,
    q: int,
    y: Seq<i128>,
    p: int,
    binv: Seq<Seq<int>>,
    det: int,
    l: int,
)
    requires
        ks.len() >= 1,
        left_inverse(binv, det, ks),
        normal_solution(ks, vs, x, q),
        normal_solution(ks, vs, y, p),
        0 <= l < x.len(),
    ensures
        p * (x[l] as int) == q * (y[l] as int),
{
    let d1 = x.len() as int;
    let m = ks.len() as int;
    let w = |j: int| resid2(x, q, y, p, j);
    let row = |i: int, j: int| normal_entry(ks, i, j, m);

    // Each normal row annihilates the cross-scaled difference.
    assert forall|i: int| 0 <= i < d1 implies #[trigger] normal_row_resid2(ks, x, q, y, p, i)
        == 0 by {
        lemma_normal_combo_as_sum(ks, i, x, d1);
        lemma_normal_combo_as_sum(ks, i, y, d1);
        lemma_sum_scale(
            d1,
            p,
            |j: int| row(i, j) * (x[j] as int),
            |j: int| p * (row(i, j) * (x[j] as int)),
        );
        lemma_sum_scale(
            d1,
            q,
            |j: int| row(i, j) * (y[j] as int),
            |j: int| q * (row(i, j) * (y[j] as int)),
        );
        assert forall|j: int| 0 <= j < d1 implies #[trigger] (row(i, j) * resid2(x, q, y, p, j))
            == p * (row(i, j) * (x[j] as int)) + (-1) * (q * (row(i, j) * (y[j] as int))) by {
            assert(row(i, j) * (p * (x[j] as int) - q * (y[j] as int)) == p * (row(i, j) * (
            x[j] as int)) + (-1) * (q * (row(i, j) * (y[j] as int)))) by (nonlinear_arith);
        }
        lemma_sum_linear(
            d1,
            |j: int| p * (row(i, j) * (x[j] as int)),
            |j: int| (-1) * (q * (row(i, j) * (y[j] as int))),
            |j: int| row(i, j) * resid2(x, q, y, p, j),
        );
        lemma_sum_scale(
            d1,
            -1,
            |j: int| q * (row(i, j) * (y[j] as int)),
            |j: int| (-1) * (q * (row(i, j) * (y[j] as int))),
        );
        lemma_sum_ext(
            d1,
            |j: int| normal_entry(ks, i, j, ks.len() as int) * (x[j] as int),
            |j: int| row(i, j) * (x[j] as int),
        );
        lemma_sum_ext(
            d1,
            |j: int| normal_entry(ks, i, j, ks.len() as int) * (y[j] as int),
            |j: int| row(i, j) * (y[j] as int),
        );
        lemma_sum_ext(
            d1,
            |j: int| normal_entry(ks, i, j, ks.len() as int) * resid2(x, q, y, p, j),
            |j: int| row(i, j) * resid2(x, q, y, p, j),
        );
        assert(p * (q * rhs_entry(ks, vs, i, m)) + (-1) * (q * (p * rhs_entry(ks, vs, i, m)))
            == 0) by (nonlinear_arith);
    }

    // Fold in the left inverse and exchange the summation order.
    let g = |i: int, j: int| binv[l][i] * (row(i, j) * w(j));
    assert(sum(d1, |i: int| sum(d1, |j: int| g(i, j))) == 0) by {
        assert forall|i: int| 0 <= i < d1 implies #[trigger] binv_row_resid2(
            binv,
            ks,
            x,
            q,
            y,
            p,
            l,
            i,
        ) == 0 by {
            lemma_sum_scale(
                d1,
                binv[l][i],
                |j: int| normal_entry(ks, i, j, ks.len() as int) * resid2(x, q, y, p, j),
                |j: int| binv[l][i] * (normal_entry(ks, i, j, ks.len() as int) * resid2(
                    x,
                    q,
                    y,
                    p,
                    j,
                )),
            );
            assert(normal_row_resid2(ks, x, q, y, p, i) == 0);
            assert(binv[l][i] * 0 == 0) by (nonlinear_arith);
        }
        assert forall|i: int| 0 <= i < d1 implies sum(d1, |j: int| g(i, j))
            == #[trigger] binv_row_resid2(binv, ks, x, q, y, p, l, i) by {
            lemma_sum_ext(
                d1,
                |j: int| g(i, j),
                |j: int| binv[l][i] * (normal_entry(ks, i, j, ks.len() as int) * resid2(
                    x,
                    q,
                    y,
                    p,
                    j,
                )),
            );
        }
        lemma_sum_zero(d1, |i: int| binv_row_resid2(binv, ks, x, q, y, p, l, i));
        lemma_sum_ext(
            d1,
            |i: int| sum(d1, |j: int| g(i, j)),
            |i: int| binv_row_resid2(binv, ks, x, q, y, p, l, i),
        );
    }
    lemma_sum_swap(d1, d1, g);

    // The scaled-delta rows of the product pick out the difference.
    let wd = |j: int| det * resid2(x, q, y, p, j);
    assert(sum(d1, |j: int| sum(d1, |i: int| g(i, j))) == wd(l)) by {
        assert forall|j: int| 0 <= j < d1 implies #[trigger] binv_col_resid2(
            binv,
            ks,
            x,
            q,
            y,
            p,
            l,
            j,
        ) == (if j == l {
            det * resid2(x, q, y, p, l)
        } else {
            0int
        }) by {
            assert forall|i: int| 0 <= i < d1 implies #[trigger] (binv[l][i] * (normal_entry(
                ks,
                i,
                j,
                ks.len() as int,
            ) * resid2(x, q, y, p, j))) == resid2(x, q, y, p, j) * (binv[l][i] * normal_entry(
                ks,
                i,
                j,
                ks.len() as int,
            )) by {
                let av = binv[l][i];
                let bv = normal_entry(ks, i, j, ks.len() as int);
                let rv = resid2(x, q, y, p, j);
                assert(av * (bv * rv) == rv * (av * bv)) by (nonlinear_arith);
            }
            lemma_sum_scale(
                d1,
                resid2(x, q, y, p, j),
                |i: int| binv[l][i] * normal_entry(ks, i, j, ks.len() as int),
                |i: int| binv[l][i] * (normal_entry(ks, i, j, ks.len() as int) * resid2(
                    x,
                    q,
                    y,
                    p,
                    j,
                )),
            );
            assert(inverse_entry(binv, ks, l, j) == sum(
                d1,
                |i: int| binv[l][i] * normal_entry(ks, i, j, ks.len() as int),
            )) by {
                lemma_sum_ext(
                    d1,
                    |i: int| binv[l][i] * normal_entry(ks, i, j, ks.len() as int),
                    |i: int| binv[l][i] * normal_entry(ks, i, j, ks.len() as int),
                );
            }
            if j == l {
                assert(inverse_entry(binv, ks, l, j) == det);
                assert(resid2(x, q, y, p, j) * det == det * resid2(x, q, y, p, j))
                    by (nonlinear_arith);
            } else {
                assert(inverse_entry(binv, ks, l, j) == 0);
                assert(resid2(x, q, y, p, j) * 0 == 0) by (nonlinear_arith);
            }
        }
        assert forall|j: int| 0 <= j < d1 implies sum(d1, |i: int| g(i, j))
            == #[trigger] binv_col_resid2(binv, ks, x, q, y, p, l, j) by {
            lemma_sum_ext(
                d1,
                |i: int| g(i, j),
                |i: int| binv[l][i] * (normal_entry(ks, i, j, ks.len() as int) * resid2(
                    x,
                    q,
                    y,
                    p,
                    j,
                )),
            );
        }
        lemma_sum_delta(d1, l, |j: int| binv_col_resid2(binv, ks, x, q, y, p, l, j), wd);
        lemma_sum_ext(
            d1,
            |j: int| sum(d1, |i: int| g(i, j)),
            |j: int| binv_col_resid2(binv, ks, x, q, y, p, l, j),
        );
    }
    assert(det * resid2(x, q, y, p, l) == 0);
    assert(resid2(x, q, y, p, l) == 0) by (nonlinear_arith)
        requires
            det > 0,
            det * resid2(x, q, y, p, l) == 0,
    ;
}

/// Batch consistency of the Linear strategy over a well-conditioned
/// dataset: the same target, queried in any two successful batches
/// against the same dataset, receives the same rational value. In
/// particular the values of a concatenated batch agree with those of its
/// parts, and the evaluation order across targets cannot matter.
pub proof fn lemma_linear_batches_agree(
    ks: Seq<Point>,
    vs: Seq<i64>,
    ts1: Seq<Vec<i64>>,
    vals1: Vec<Rat>,
    ts2: Seq<Vec<i64>>,
    vals2: Vec<Rat>,
    binv: Seq<Seq<int>>,
    det: int,
    k1: int,
    k2: int,
)
    requires
        ks.len() >= 1,
        left_inverse(binv, det, ks),
        linear_post(ks, vs, ts1, Result::<Vec<Rat>, InterpolationError>::Ok(vals1)),
        linear_post(ks, vs, ts2, Result::<Vec<Rat>, InterpolationError>::Ok(vals2)),
        0 <= k1 < ts1.len(),
        0 <= k2 < ts2.len(),
        ts1[k1]@ == ts2[k2]@,
    ensures
        (vals1@[k1].num as int) * (vals2@[k2].den as int) == (vals2@[k2].num as int) * (
        vals1@[k1].den as int),
{
    let r1 = Result::<Vec<Rat>, InterpolationError>::Ok(vals1);
    let r2 = Result::<Vec<Rat>, InterpolationError>::Ok(vals2);
    assert(r1 matches Ok(v) && v == vals1);
    assert(r2 matches Ok(v) && v == vals2);
    let (x, q): (Seq<i128>, int) = choose|x: Seq<i128>, q: int|
        #[trigger] normal_solution(ks, vs, x, q) && forall|k: int|
            0 <= k < ts1.len() ==> (#[trigger] vals1@[k]).den == q && vals1@[k].num == pred_num(
                x,
                ts1[k]@,
            );
    let (y, p): (Seq<i128>, int) = choose|y: Seq<i128>, p: int|
        #[trigger] normal_solution(ks, vs, y, p) && forall|k: int|
            0 <= k < ts2.len() ==> (#[trigger] vals2@[k]).den == p && vals2@[k].num == pred_num(
                y,
                ts2[k]@,
            );
    let t = ts1[k1]@;
    let d1 = x.len() as int;
    assert(y.len() == d1);
    assert forall|l: int| 0 <= l < d1 implies p * ((#[trigger] x[l]) as int) == q * (y[l] as int) by {
        lemma_normal_solutions_agree(ks, vs, x, q, y, p, binv, det, l);
    }
    // The prediction sums cross-scale alike, term by term.
    let w = if d1 - 1 <= t.len() {
        d1 - 1
    } else {
        t.len() as int
    };
    lemma_pred_part_as_sum(x, t, w);
    lemma_pred_part_as_sum(y, t, w);
    lemma_sum_scale(
        w,
        p,
        |j: int| (x[1 + j] as int) * (t[j] as int),
        |j: int| p * ((x[1 + j] as int) * (t[j] as int)),
    );
    lemma_sum_scale(
        w,
        q,
        |j: int| (y[1 + j] as int) * (t[j] as int),
        |j: int| q * ((y[1 + j] as int) * (t[j] as int)),
    );
    assert forall|j: int| 0 <= j < w implies #[trigger] (p * ((x[1 + j] as int) * (t[j] as int)))
        == q * ((y[1 + j] as int) * (t[j] as int)) by {
        assert(p * (x[1 + j] as int) == q * (y[1 + j] as int));
        assert(p * ((x[1 + j] as int) * (t[j] as int)) == (p * (x[1 + j] as int)) * (t[j] as int)
            && q * ((y[1 + j] as int) * (t[j] as int)) == (q * (y[1 + j] as int)) * (
        t[j] as int)) by (nonlinear_arith);
    }
    lemma_sum_ext(
        w,
        |j: int| p * ((x[1 + j] as int) * (t[j] as int)),
        |j: int| q * ((y[1 + j] as int) * (t[j] as int)),
    );
    assert(p * pred_num(x, t) == q * pred_num(y, t)) by (nonlinear_arith)
        requires
            pred_num(x, t) == (x[0] as int) + sum(w, |j: int| (x[1 + j] as int) * (t[j] as int)),
            pred_num(y, t) == (y[0] as int) + sum(w, |j: int| (y[1 + j] as int) * (t[j] as int)),
            p * (x[0] as int) == q * (y[0] as int),
            p * sum(w, |j: int| (x[1 + j] as int) * (t[j] as int)) == q * sum(
                w,
                |j: int| (y[1 + j] as int) * (t[j] as int),
            ),
    ;
    assert(vals1@[k1].num == pred_num(x, t) && vals1@[k1].den == q);
    assert(vals2@[k2].num == pred_num(y, t) && vals2@[k2].den == p);
}

/// Exact affine recovery: when the calibration values follow an affine
/// rule exactly and the normal system of the least-squares fit is well
/// conditioned (it has a scaled left inverse), every value a successful
/// Linear batch returns is exactly the rule applied to its target —
/// inside or outside the sampled range.
pub proof fn lemma_exact_affine_recovery(
    ks: Seq<Point>,
    vs: Seq<i64>,
    targets: Seq<Vec<i64>>,
    vals: Vec<Rat>,
    c: Seq<int>,
    binv: Seq<Seq<int>>,
    det: int,
)
    requires
        ks.len() >= 1,
        dims_ok(ks),
        affine_data(ks, vs, c),
        left_inverse(binv, det, ks),
        linear_post(ks, vs, targets, Result::<Vec<Rat>, InterpolationError>::Ok(vals)),
        forall|k: int|
            0 <= k < targets.len() ==> (#[trigger] targets[k])@.len() == ks[0].coordinates@.len(),
    ensures
        forall|k: int|
            0 <= k < targets.len() ==> (#[trigger] vals@[k]).den > 0 && vals@[k].num as int
                == (vals@[k].den as int) * affine_value(c, targets[k]@),
{
    let d1 = c.len() as int;
    let r = Result::<Vec<Rat>, InterpolationError>::Ok(vals);
    assert(r matches Ok(v) && v == vals);
    let (x, q): (Seq<i128>, int) = choose|x: Seq<i128>, q: int|
        #[trigger] normal_solution(ks, vs, x, q) && forall|k: int|
            0 <= k < targets.len() ==> (#[trigger] vals@[k]).den == q && vals@[k].num == pred_num(
                x,
                targets[k]@,
            );
    assert forall|l: int| 0 <= l < d1 implies (#[trigger] x[l]) as int == q * c[l] by {
        lemma_normal_solution_unique(ks, vs, c, binv, det, x, q, l);
    }
    assert forall|k: int|
        0 <= k < targets.len() implies (#[trigger] vals@[k]).den > 0 && vals@[k].num as int == (
        vals@[k].den as int) * affine_value(c, targets[k]@) by {
        let t = targets[k]@;
        lemma_pred_part_as_sum(x, t, t.len() as int);
        assert forall|j: int| 0 <= j < t.len() implies #[trigger] ((x[1 + j] as int) * (
        t[j] as int)) == q * (c[1 + j] * (t[j] as int)) by {
            assert(x[1 + j] as int == q * c[1 + j]);
            assert((q * c[1 + j]) * (t[j] as int) == q * (c[1 + j] * (t[j] as int)))
                by (nonlinear_arith);
        }
        lemma_sum_scale(
            t.len() as int,
            q,
            |j: int| c[1 + j] * (t[j] as int),
            |j: int| (x[1 + j] as int) * (t[j] as int),
        );
        assert(pred_num(x, t) == (x[0] as int) + pred_part(x, t, t.len() as int));
        assert(q * affine_value(c, t) == q * c[0] + q * sum(
            t.len() as int,
            |j: int| c[1 + j] * (t[j] as int),
        )) by (nonlinear_arith);
    }
}

/// Marker type of the nearest-neighbor strategy.
pub struct NearestNeighbor;

/// Marker type of the global affine least-squares strategy.
pub struct Linear;

/// An interchangeable interpolation strategy: maps a dataset (as parallel
/// key and value columns) and a batch of targets to one value per target,
/// or fails the batch as a whole.
pub trait InterpolationStrategy {
    /// Evaluates every target against the dataset, in target order.
    fn interpolate(&self, keys: &Vec<Point>, values: &Vec<i64>, target: &Vec<Vec<i64>>) -> (r:
        Result<Vec<Rat>, InterpolationError>)
        requires
            keys@.len() == values@.len(),
            forall|k: int| 0 <= k < keys@.len() ==> wf_coords((#[trigger] keys@[k]).coordinates@),
            forall|k: int| 0 <= k < target@.len() ==> wf_coords((#[trigger] target@[k])@),
        ensures
            r matches Ok(vals) ==> vals@.len() == target@.len(),
    ;
}

impl InterpolationStrategy for NearestNeighbor {
    fn interpolate(&self, keys: &Vec<Point>, values: &Vec<i64>, target: &Vec<Vec<i64>>) -> (r:
        Result<Vec<Rat>, InterpolationError>)
        ensures
            nn_post(keys@, values@, target@, r),
    {
        nearest_interpolate(keys, values, target)
    }
}

impl InterpolationStrategy for Linear {
    fn interpolate(&self, keys: &Vec<Point>, values: &Vec<i64>, target: &Vec<Vec<i64>>) -> (r:
        Result<Vec<Rat>, InterpolationError>)
        ensures
            linear_post(keys@, values@, target@, r),
    {
        linear_interpolate(keys, values, target)
    }
}

/// The closed set of interpolation strategies, dispatched statically.
pub enum InterpolationStrategyEnum {
    /// Global affine least-squares fit.
    Linear(Linear),
    /// Value of the nearest calibration point.
    NearestNeighbor(NearestNeighbor),
}

impl InterpolationStrategyEnum {
    /// Evaluates every target against the dataset with the selected
    /// strategy; the result obeys that strategy's full contract.
    pub fn interpolate(&self, keys: &Vec<Point>, values: &Vec<i64>, target: &Vec<Vec<i64>>) -> (r:
        Result<Vec<Rat>, InterpolationError>)
        requires
            keys@.len() == values@.len(),
            forall|k: int| 0 <= k < keys@.len() ==> wf_coords((#[trigger] keys@[k]).coordinates@),
            forall|k: int| 0 <= k < target@.len() ==> wf_coords((#[trigger] target@[k])@),
        ensures
            self is Linear ==> linear_post(keys@, values@, target@, r),
            self is NearestNeighbor ==> nn_post(keys@, values@, target@, r),
    {
        match self {
            InterpolationStrategyEnum::Linear(s) => s.interpolate(keys, values, target),
            InterpolationStrategyEnum::NearestNeighbor(s) => s.interpolate(keys, values, target),
        }
    }
}

/// The first index of a stored key within tolerance of the coordinates
/// `c`, or -1 when no stored key is near.
pub open spec fn find_near(ks: Seq<Point>, c: Seq<i64>) -> int
    decreases ks.len(),
{
    if ks.len() == 0 {
        -1
    } else if coords_near(ks[0].coordinates@, c) {
        0
    } else {
        let r = find_near(ks.drop_first(), c);
        if r == -1 {
            -1
        } else {
            r + 1
        }
    }
}

proof fn lemma_find_near_at(ks: Seq<Point>, c: Seq<i64>, i: int)
    requires
        0 <= i < ks.len(),
        coords_near(ks[i].coordinates@, c),
        forall|t: int| 0 <= t < i ==> !coords_near((#[trigger] ks[t]).coordinates@, c),
    ensures
        find_near(ks, c) == i,
    decreases i,
{
    if i > 0 {
        lemma_find_near_at(ks.drop_first(), c, i - 1);
    }
}

proof fn lemma_find_near_none(ks: Seq<Point>, c: Seq<i64>)
    requires
        forall|t: int| 0 <= t < ks.len() ==> !coords_near((#[trigger] ks[t]).coordinates@, c),
    ensures
        find_near(ks, c) == -1,
    decreases ks.len(),
{
    if ks.len() > 0 {
        lemma_find_near_none(ks.drop_first(), c);
    }
}

/// Tolerance-based overwrite, stated over the stored keys. `find_near`
/// names the first stored key within tolerance of the coordinates, or -1
/// when there is none; together with `add_point`'s contract this says:
/// inserting a point within tolerance of a stored key leaves the key set
/// (and so the dataset size) unchanged and overwrites the value of the
/// first such key, while inserting a point beyond tolerance of every
/// stored key appends a new entry.
pub proof fn lemma_tolerance_overwrite(ks: Seq<Point>, c: Seq<i64>)
    ensures
        (find_near(ks, c) == -1) <==> (forall|t: int|
            0 <= t < ks.len() ==> !coords_near((#[trigger] ks[t]).coordinates@, c)),
        find_near(ks, c) != -1 ==> {
            let j = find_near(ks, c);
            &&& 0 <= j < ks.len()
            &&& coords_near(ks[j].coordinates@, c)
            &&& forall|t: int| 0 <= t < j ==> !coords_near((#[trigger] ks[t]).coordinates@, c)
        },
    decreases ks.len(),
{
    if ks.len() > 0 {
        lemma_tolerance_overwrite(ks.drop_first(), c);
        if !coords_near(ks[0].coordinates@, c) {
            let rest = ks.drop_first();
            let r = find_near(rest, c);
            if r == -1 {
                assert forall|t: int|
                    0 <= t < ks.len() implies !coords_near((#[trigger] ks[t]).coordinates@, c) by {
                    if t > 0 {
                        assert(rest[t - 1] == ks[t]);
                    }
                }
            } else {
                assert(ks[r + 1] == rest[r]);
                assert forall|t: int|
                    0 <= t < r + 1 implies !coords_near((#[trigger] ks[t]).coordinates@, c) by {
                    if t > 0 {
                        assert(rest[t - 1] == ks[t]);
                    }
                }
            }
        }
    }
}

/// Owns a calibration dataset keyed with per-coordinate tolerance, and
/// delegates batch evaluation to the selected strategy.
///
/// The dataset is kept as parallel key and value columns with the
/// invariant that no two stored keys are within tolerance of each other:
/// inserting a point near an existing key overwrites that key's value
/// (the stored key itself stays), which gives the columns the semantics
/// of a tolerance-keyed map by construction.
pub struct NDInterpolation {
    points: Vec<Point>,
    values: Vec<i64>,
    strategy: InterpolationStrategyEnum,
}

impl NDInterpolation {
    /// The stored calibration points, in insertion order.
    pub closed spec fn dataset_keys(self) -> Seq<Point> {
        self.points@
    }

    /// The stored calibration values, aligned with the keys.
    pub closed spec fn dataset_values(self) -> Seq<i64> {
        self.values@
    }

    /// The selected strategy.
    pub closed spec fn strategy_kind(self) -> InterpolationStrategyEnum {
        self.strategy
    }

    /// Well-formedness: aligned columns, admissible coordinates, and no
    /// two stored keys within tolerance of each other.
    pub open spec fn wf(self) -> bool {
        &&& self.dataset_keys().len() == self.dataset_values().len()
        &&& forall|i: int|
            0 <= i < self.dataset_keys().len() ==> wf_coords(
                (#[trigger] self.dataset_keys()[i]).coordinates@,
            )
        &&& forall|i: int, j: int|
            0 <= i < j < self.dataset_keys().len() ==> !coords_near(
                (#[trigger] self.dataset_keys()[i]).coordinates@,
                (#[trigger] self.dataset_keys()[j]).coordinates@,
            )
    }

    /// Creates an empty dataset bound to a strategy.
    pub fn new(strategy: InterpolationStrategyEnum) -> (s: Self)
        ensures
            s.wf(),
            s.dataset_keys().len() == 0,
            s.dataset_values().len() == 0,
            s.strategy_kind() == strategy,
    {
        NDInterpolation { points: Vec::new(), values: Vec::new(), strategy }
    }

    /// The number of stored calibration points.
    pub fn num_points(&self) -> (n: usize)
        ensures
            n == self.dataset_keys().len(),
    {
        self.points.len()
    }

    /// Inserts a calibration point. If a stored key is within tolerance
    /// of the new point, the value of the first such key is overwritten
    /// and the stored key is kept; otherwise the point and its value are
    /// appended.
    pub fn add_point(&mut self, point: Point, value: i64)
        requires
            old(self).wf(),
            wf_coords(point.coordinates@),
        ensures
            final(self).wf(),
            final(self).strategy_kind() == old(self).strategy_kind(),
            ({
                let j = find_near(old(self).dataset_keys(), point.coordinates@);
                if j >= 0 {
                    final(self).dataset_keys() == old(self).dataset_keys()
                        && final(self).dataset_values() == old(self).dataset_values().update(
                        j,
                        value,
                    )
                } else {
                    final(self).dataset_keys() == old(self).dataset_keys().push(point)
                        && final(self).dataset_values() == old(self).dataset_values().push(value)
                }
            }),
    {
        let n = self.points.len();
        let mut i: usize = 0;
        while i < n
            invariant
                *self == *old(self),
                old(self).wf(),
                n == self.points@.len(),
                0 <= i <= n,
                forall|t: int|
                    0 <= t < i ==> !coords_near((#[trigger] self.points@[t]).coordinates@,
                        point.coordinates@),
            decreases n - i,
        {
            if self.points[i].near(&point) {
                self.values.set(i, value);
                proof {
                    lemma_find_near_at(old(self).dataset_keys(), point.coordinates@, i as int);
                }
                return;
            }
            i = i + 1;
        }
        proof {
            lemma_find_near_none(old(self).dataset_keys(), point.coordinates@);
        }
        self.points.push(point);
        self.values.push(value);
    }

    /// Evaluates a batch of targets against the dataset with the selected
    /// strategy. The result obeys that strategy's full contract over the
    /// stored dataset; the batch fails as a whole or returns one value
    /// per target, in target order.
    pub fn interpolate(&self, target: &Vec<Vec<i64>>) -> (r: Result<Vec<Rat>, InterpolationError>)
        requires
            self.wf(),
            forall|k: int| 0 <= k < target@.len() ==> wf_coords((#[trigger] target@[k])@),
        ensures
            self.strategy_kind() is Linear ==> linear_post(
                self.dataset_keys(),
                self.dataset_values(),
                target@,
                r,
            ),
            self.strategy_kind() is NearestNeighbor ==> nn_post(
                self.dataset_keys(),
                self.dataset_values(),
                target@,
                r,
            ),
    {
        self.strategy.interpolate(&self.points, &self.values, target)
    }
}

} // verus!
