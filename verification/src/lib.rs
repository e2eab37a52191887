//! Robust multidimensional point-set statistics: centroids, the geometric
//! median, eccentricity vectors, medoid and outlier detection, and trend
//! vectors between point sets.
//!
//! Coordinates are fixed-point real numbers: an `i64` coordinate counts
//! multiples of `1/SCALE`, so the integer value `SCALE` stands for the real
//! number one.  All algorithms work exactly on these integers (intermediate
//! products are taken in `i128`), so every function's result is a mathematical
//! function of its inputs, stated in its contract.

use vstd::prelude::*;

pub mod arith;
pub mod vecops;
pub mod pointset;
pub mod sorting;
pub mod distance;
pub mod centroid;
pub mod eccentric;
pub mod median;
pub mod stats;
pub mod props;

verus! {

/// Fixed-point unit: an `i64` coordinate counts multiples of `1/SCALE`,
/// so the integer `SCALE` stands for the real number one.
pub const SCALE: i64 = 1048576;

/// Exclusive bound on the coordinates of stored points (2^40).
pub const COORD_LIMIT: i64 = 1099511627776;

/// Exclusive bound on the coordinates of solver iterates (2^41); iterates
/// stay within it because each new estimate is a weighted average of points.
pub const EST_LIMIT: i64 = 2199023255552;

/// Inclusive bound on the dimension of a point set (2^10).
pub const DIM_LIMIT: usize = 1024;

/// Inclusive bound on the number of points in a point set (2^14).
pub const COUNT_LIMIT: usize = 16384;

/// Iteration cap for the geometric-median solvers; beyond it they fail
/// with `StatsError::NonConvergent` instead of looping forever.
pub const MAX_ITERS: usize = 10000;

/// Scale of the reciprocal weights used inside the solvers (2^60).
pub const WEIGHT_ONE: i128 = 1152921504606846976;

/// Exclusive bound on the coordinates accepted by the plain vector
/// operations (2^50); keeps every intermediate product inside `i128`.
pub const OP_LIMIT: i64 = 1125899906842624;

/// Inclusive bound on the distance of two points within `EST_LIMIT` (2^47).
pub const DIST_BOUND: i64 = 140737488355328;

/// Failure kinds of the library.  Every fallible function says in its
/// contract exactly which inputs produce which variant.
#[derive(Debug, Clone, Copy, PartialEq, Eq, Structural)]
pub enum StatsError {
    /// A point set or scalar sample has no elements (or no elements other
    /// than the one under examination).
    EmptyInput,
    /// Two vectors or point sets of different lengths were combined.
    DimensionMismatch,
    /// A zero-magnitude vector was normalized, or a zero coordinate
    /// inverted, where the algorithm defines no skip.
    DegenerateVector,
    /// An iterative solver exceeded its iteration cap, or detected a
    /// degenerate search direction, before meeting the tolerance.
    NonConvergent,
}

/// Mean and standard deviation of a scalar sample, in fixed-point units.
#[derive(Debug, Clone, Copy, PartialEq, Eq, Structural)]
pub struct MStats {
    pub mean: i64,
    pub std: i64,
}

/// Median and quartiles of a scalar sample, in fixed-point units.
#[derive(Debug, Clone, Copy, PartialEq, Eq, Structural)]
pub struct Med {
    pub lquartile: i64,
    pub median: i64,
    pub uquartile: i64,
}

} // verus!
