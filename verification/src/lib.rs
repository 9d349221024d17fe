//! Verified core of a structural fatigue assessment tool.
//!
//! The library turns sparse calibration data and raw stress histories into
//! fatigue-relevant quantities: an N-dimensional interpolation engine over a
//! tolerance-keyed dataset, and a rainflow cycle-counting state machine.
//! All numeric work is done on exact scaled integers (fixed-point, millionths
//! of an engineering unit), so every result is pinned down exactly; callers
//! that live in floating point convert at the boundary.

pub mod config;
pub mod decimal;
pub mod interpolate;
pub mod linalg;
pub mod material;
pub mod rainflow;
pub mod sums;
pub mod text;
pub mod timeseries;

pub use config::ValidationError;

use vstd::prelude::*;

verus! {

/// The absolute difference of two machine integers, as a mathematical
/// integer.
pub open spec fn abs_diff(a: i64, b: i64) -> int {
    if a >= b {
        a - b
    } else {
        b - a
    }
}

} // verus!
