//! Lloyd's k-means clustering over exact 2-dimensional coordinates.
//!
//! Points carry bounded integer coordinates — callers with real-valued data
//! scale it onto the grid as fixed-point values — and a cluster's centroid
//! is kept as an exact rational: the coordinate sums plus the point count.
//! Equality of centroids, the lowest-index rule for breaking ties between
//! equidistant centroids, and the "centroid sequence repeats exactly"
//! convergence test are therefore exact, decided by cross-multiplication
//! rather than up to rounding, and every one of them is verified.
//!
//! The core consumes a flat collection of points and a target cluster
//! count, and produces the converged clusters; it does no rendering and no
//! input/output of its own.

pub mod centroid;
pub mod cluster;
pub mod kmeans;
pub mod point;

use vstd::prelude::*;

verus! {

/// The failures the clustering core can report.
#[derive(Clone, Copy, Debug, PartialEq, Eq, Structural)]
pub enum Error {
    /// The requested cluster count, or the input point collection, would
    /// leave every cluster permanently empty by construction.
    InvalidClusterCount,
    /// A point was divided by a zero scalar.
    DivisionByZero,
    /// The configured iteration bound was exhausted before the centroid
    /// sequence reached a fixed point.
    DidNotConverge,
}

} // verus!
