//! Immutable 2-dimensional points with exact distance operations.
//!
//! Coordinates are integers on a bounded grid, so every distance comparison
//! the clustering algorithm makes is exact: equality of distances is decided
//! precisely, never up to rounding.

use vstd::prelude::*;

verus! {

/// Largest coordinate magnitude a point handled by the clustering core may
/// carry.  The bound keeps every sum, squared distance and cross-multiplied
/// comparison inside the machine integer types.
pub const COORD_MAX: i64 = 1_000_000;

/// Largest number of points one clustering run may handle.  Together with
/// [`COORD_MAX`] it keeps coordinate sums and cross-multiplied distance
/// comparisons inside the machine integer types.
pub const MAX_POINTS: usize = 1_000_000;

/// A point on a 2-dimensional grid.  Immutable value type; equality is exact
/// equality of both coordinates.
#[derive(Clone, Copy, Debug, PartialEq, Eq, Structural)]
pub struct Point {
    pub x: i64,
    pub y: i64,
}

/// Whether a point lies on the bounded grid the clustering core works over.
pub open spec fn bounded(p: Point) -> bool {
    -COORD_MAX <= p.x <= COORD_MAX && -COORD_MAX <= p.y <= COORD_MAX
}

/// The exact squared Euclidean distance between two points.
pub open spec fn dist_sq(a: Point, b: Point) -> int {
    (a.x - b.x) * (a.x - b.x) + (a.y - b.y) * (a.y - b.y)
}

/// `r` is the integer part of the square root of `v`.
pub open spec fn is_sqrt_floor(v: int, r: int) -> bool {
    0 <= r && r * r <= v && v < (r + 1) * (r + 1)
}

impl Point {
    /// Constructs the point `(x, y)`.
    pub fn new(x: i64, y: i64) -> (r: Point)
        ensures
            r.x == x && r.y == y,
    {
        Point { x, y }
    }

    /// The point `(0, 0)`.
    pub fn origin() -> (r: Point)
        ensures
            r.x == 0 && r.y == 0,
    {
        Point { x: 0, y: 0 }
    }

    /// The componentwise sum of two points.
    pub fn add(self, rhs: Point) -> (r: Point)
        requires
            i64::MIN <= self.x + rhs.x <= i64::MAX,
            i64::MIN <= self.y + rhs.y <= i64::MAX,
        ensures
            r.x == self.x + rhs.x,
            r.y == self.y + rhs.y,
    {
        Point { x: self.x + rhs.x, y: self.y + rhs.y }
    }

    /// The exact squared Euclidean distance to `rhs`.
    pub fn distance_sq(self, rhs: Point) -> (r: u64)
        requires
            bounded(self),
            bounded(rhs),
        ensures
            r == dist_sq(self, rhs),
    {
        let dx: i64 = self.x - rhs.x;
        let dy: i64 = self.y - rhs.y;
        proof {
            lemma_square_bound(dx as int, 2 * COORD_MAX as int);
            lemma_square_bound(dy as int, 2 * COORD_MAX as int);
        }
        let dx2: i64 = dx * dx;
        let dy2: i64 = dy * dy;
        (dx2 + dy2) as u64
    }

    /// The Euclidean distance to `rhs`, rounded down to an integer.
    ///
    /// The result is pinned exactly: it is the integer part of the square
    /// root of the squared distance.  The clustering algorithm itself always
    /// compares squared distances, so no comparison ever goes through this
    /// rounding.
    pub fn distance(self, rhs: Point) -> (r: u64)
        requires
            bounded(self),
            bounded(rhs),
        ensures
            is_sqrt_floor(dist_sq(self, rhs), r as int),
    {
        let d = self.distance_sq(rhs);
        let r = isqrt(d as u128);
        proof {
            lemma_sqrt_floor_small(d as int, r as int);
        }
        r as u64
    }
}

/// `|x| <= m` implies `x * x <= m * m` (and squares are non-negative).
pub proof fn lemma_square_bound(x: int, m: int)
    by (nonlinear_arith)
    requires
        -m <= x <= m,
    ensures
        0 <= x * x <= m * m,
{
}

/// A square root of a value that fits in `u64` squared fits in `u64`.
proof fn lemma_sqrt_floor_small(v: int, r: int)
    by (nonlinear_arith)
    requires
        is_sqrt_floor(v, r),
        v <= u64::MAX,
    ensures
        r <= u64::MAX,
{
}

/// The integer part of a square root is unique.
pub proof fn lemma_sqrt_floor_unique(v: int, r1: int, r2: int)
    by (nonlinear_arith)
    requires
        is_sqrt_floor(v, r1),
        is_sqrt_floor(v, r2),
    ensures
        r1 == r2,
{
}

/// Distance is symmetric: swapping the endpoints leaves the squared
/// distance, and hence the distance, unchanged.
pub proof fn lemma_distance_symmetric(a: Point, b: Point)
    by (nonlinear_arith)
    ensures
        dist_sq(a, b) == dist_sq(b, a),
{
}

/// The distance from a point to itself is zero.
pub proof fn lemma_distance_self(a: Point)
    by (nonlinear_arith)
    ensures
        dist_sq(a, a) == 0,
{
}

/// The integer part of the square root of `v`, by binary search.
pub fn isqrt(v: u128) -> (r: u128)
    ensures
        is_sqrt_floor(v as int, r as int),
{
    if v == 0 {
        return 0;
    }
    let mut lo: u128 = 0;
    let mut hi: u128 = 1u128 << 64;
    proof {
        assert((1u128 << 64) == 0x1_0000_0000_0000_0000u128) by (bit_vector);
        assert(0x1_0000_0000_0000_0000 * 0x1_0000_0000_0000_0000 > u128::MAX) by (nonlinear_arith);
    }
    while lo + 1 < hi
        invariant
            lo < hi,
            hi <= 0x1_0000_0000_0000_0000,
            lo * lo <= v,
            v < hi * hi,
        decreases hi - lo,
    {
        let mid: u128 = lo + (hi - lo) / 2;
        proof {
            lemma_square_monotonic(mid as int, 0xffff_ffff_ffff_ffff);
        }
        if mid * mid <= v {
            lo = mid;
        } else {
            hi = mid;
        }
    }
    lo
}

/// Squaring is monotonic on the non-negative integers.
proof fn lemma_square_monotonic(x: int, m: int)
    by (nonlinear_arith)
    requires
        0 <= x <= m,
    ensures
        x * x <= m * m,
{
}

} // verus!
