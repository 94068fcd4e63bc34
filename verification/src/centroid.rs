//! Exact centroids: the arithmetic mean of a cluster's points, kept as a
//! rational number.
//!
//! A centroid stores the componentwise sum of the points it averages plus
//! the point count, so its value is `(x_sum / count, y_sum / count)` with no
//! rounding.  Equality of centroids, and comparisons of point-to-centroid
//! distances, are decided exactly by cross-multiplication.

use vstd::prelude::*;

use crate::point::{bounded, Point, COORD_MAX, MAX_POINTS};
use crate::Error;

verus! {

/// The arithmetic mean of a collection of points, as an exact rational:
/// the value is `(x_sum / count, y_sum / count)`.
#[derive(Clone, Copy, Debug)]
pub struct Centroid {
    pub x_sum: i64,
    pub y_sum: i64,
    pub count: u64,
}

/// Well-formedness of a centroid: the count is a positive number of points
/// within the supported range, and each coordinate of the mean lies on the
/// bounded grid.
pub open spec fn cwf(c: Centroid) -> bool {
    &&& 1 <= c.count <= MAX_POINTS
    &&& -COORD_MAX * c.count <= c.x_sum <= COORD_MAX * c.count
    &&& -COORD_MAX * c.count <= c.y_sum <= COORD_MAX * c.count
}

/// Exact value equality of two centroids: the two rationals are equal,
/// decided by cross-multiplication.
pub open spec fn ceq(a: Centroid, b: Centroid) -> bool {
    &&& a.x_sum * b.count == b.x_sum * a.count
    &&& a.y_sum * b.count == b.y_sum * a.count
}

/// The numerator of the exact squared distance from point `p` to the value
/// of centroid `c`; the squared distance itself is this over `c.count`
/// squared.
pub open spec fn dnum(p: Point, c: Centroid) -> int {
    let dx = p.x * c.count - c.x_sum;
    let dy = p.y * c.count - c.y_sum;
    dx * dx + dy * dy
}

/// Point `p` is strictly closer to centroid `a` than to centroid `b`:
/// the exact squared distances compare by cross-multiplication.
pub open spec fn strictly_closer(p: Point, a: Centroid, b: Centroid) -> bool {
    dnum(p, a) * (b.count * b.count) < dnum(p, b) * (a.count * a.count)
}

impl Centroid {
    /// The centroid whose value is exactly the point `p`.
    pub fn of_point(p: Point) -> (r: Centroid)
        ensures
            r == (Centroid { x_sum: p.x, y_sum: p.y, count: 1u64 }),
    {
        Centroid { x_sum: p.x, y_sum: p.y, count: 1 }
    }

    /// The centroid at the origin `(0, 0)`.
    pub fn origin() -> (r: Centroid)
        ensures
            r == origin_centroid(),
    {
        Centroid { x_sum: 0, y_sum: 0, count: 1 }
    }

    /// Exact value equality: whether `self` and `other` denote the same
    /// mean position, regardless of how many points were averaged.
    pub fn equals(&self, other: &Centroid) -> (r: bool)
        requires
            cwf(*self),
            cwf(*other),
        ensures
            r == ceq(*self, *other),
    {
        proof {
            lemma_abs_mul_bound(self.x_sum as int, other.count as int, 1_000_000_000_000, 1_000_000);
            lemma_abs_mul_bound(other.x_sum as int, self.count as int, 1_000_000_000_000, 1_000_000);
            lemma_abs_mul_bound(self.y_sum as int, other.count as int, 1_000_000_000_000, 1_000_000);
            lemma_abs_mul_bound(other.y_sum as int, self.count as int, 1_000_000_000_000, 1_000_000);
        }
        let xl: i128 = self.x_sum as i128 * other.count as i128;
        let xr: i128 = other.x_sum as i128 * self.count as i128;
        let yl: i128 = self.y_sum as i128 * other.count as i128;
        let yr: i128 = other.y_sum as i128 * self.count as i128;
        xl == xr && yl == yr
    }
}

/// The centroid value `(0, 0)`, used for empty clusters.
pub open spec fn origin_centroid() -> Centroid {
    Centroid { x_sum: 0, y_sum: 0, count: 1 }
}

impl Point {
    /// Componentwise division of a point by a scalar, as an exact rational;
    /// fails when the scalar is zero.
    pub fn divide(self, scalar: u64) -> (r: Result<Centroid, Error>)
        ensures
            match r {
                Ok(c) => scalar != 0 && c == (Centroid {
                    x_sum: self.x,
                    y_sum: self.y,
                    count: scalar,
                }),
                Err(e) => scalar == 0 && e == Error::DivisionByZero,
            },
    {
        if scalar == 0 {
            Err(Error::DivisionByZero)
        } else {
            Ok(Centroid { x_sum: self.x, y_sum: self.y, count: scalar })
        }
    }
}

/// The numerator of the squared distance from `p` to `c`, computed exactly.
pub(crate) fn dist_num(p: Point, c: &Centroid) -> (r: i128)
    requires
        bounded(p),
        cwf(*c),
    ensures
        r == dnum(p, *c),
        0 <= r <= 8_000_000_000_000_000_000_000_000,
{
    proof {
        lemma_abs_mul_bound(p.x as int, c.count as int, 1_000_000, 1_000_000);
        lemma_abs_mul_bound(p.y as int, c.count as int, 1_000_000, 1_000_000);
    }
    let dx: i128 = p.x as i128 * c.count as i128 - c.x_sum as i128;
    let dy: i128 = p.y as i128 * c.count as i128 - c.y_sum as i128;
    proof {
        crate::point::lemma_square_bound(dx as int, 2_000_000_000_000);
        crate::point::lemma_square_bound(dy as int, 2_000_000_000_000);
    }
    dx * dx + dy * dy
}

/// Whether `p` is strictly closer to `a` than to `b`, decided exactly.
pub fn closer(p: Point, a: &Centroid, b: &Centroid) -> (r: bool)
    requires
        bounded(p),
        cwf(*a),
        cwf(*b),
    ensures
        r == strictly_closer(p, *a, *b),
{
    let na = dist_num(p, a);
    let nb = dist_num(p, b);
    proof {
        lemma_abs_mul_bound(a.count as int, a.count as int, 1_000_000, 1_000_000);
        lemma_abs_mul_bound(b.count as int, b.count as int, 1_000_000, 1_000_000);
    }
    let a2: i128 = a.count as i128 * a.count as i128;
    let b2: i128 = b.count as i128 * b.count as i128;
    proof {
        lemma_abs_mul_bound(na as int, b2 as int, 8_000_000_000_000_000_000_000_000, 1_000_000_000_000);
        lemma_abs_mul_bound(nb as int, a2 as int, 8_000_000_000_000_000_000_000_000, 1_000_000_000_000);
    }
    na * b2 < nb * a2
}

/// Scaling rule: value-equal centroids give proportional squared-distance
/// numerators, with the squared counts as the factors of proportionality.
proof fn lemma_dnum_scale(p: Point, a: Centroid, b: Centroid)
    requires
        ceq(a, b),
    ensures
        dnum(p, a) * (b.count * b.count) == dnum(p, b) * (a.count * a.count),
{
    let px = p.x as int;
    let py = p.y as int;
    let n = a.count as int;
    let m = b.count as int;
    let dx = px * n - a.x_sum;
    let dy = py * n - a.y_sum;
    let ex = px * m - b.x_sum;
    let ey = py * m - b.y_sum;
    assert(dx * m == ex * n) by (nonlinear_arith)
        requires
            a.x_sum * m == b.x_sum * n,
            dx == px * n - a.x_sum,
            ex == px * m - b.x_sum,
    ;
    assert(dy * m == ey * n) by (nonlinear_arith)
        requires
            a.y_sum * m == b.y_sum * n,
            dy == py * n - a.y_sum,
            ey == py * m - b.y_sum,
    ;
    assert((dx * m) * (dx * m) == (ex * n) * (ex * n));
    assert((dy * m) * (dy * m) == (ey * n) * (ey * n));
    assert((dx * dx) * (m * m) == (dx * m) * (dx * m)) by (nonlinear_arith);
    assert((dy * dy) * (m * m) == (dy * m) * (dy * m)) by (nonlinear_arith);
    assert((ex * ex) * (n * n) == (ex * n) * (ex * n)) by (nonlinear_arith);
    assert((ey * ey) * (n * n) == (ey * n) * (ey * n)) by (nonlinear_arith);
    assert((dx * dx + dy * dy) * (m * m) == (dx * dx) * (m * m) + (dy * dy) * (m * m))
        by (nonlinear_arith);
    assert((ex * ex + ey * ey) * (n * n) == (ex * ex) * (n * n) + (ey * ey) * (n * n))
        by (nonlinear_arith);
}

/// One direction of [`lemma_closer_respects_ceq`].
proof fn lemma_closer_imp(p: Point, a: Centroid, a2: Centroid, b: Centroid, b2: Centroid)
    requires
        ceq(a, a2),
        ceq(b, b2),
        a.count >= 1,
        a2.count >= 1,
        b.count >= 1,
        b2.count >= 1,
        strictly_closer(p, a, b),
    ensures
        strictly_closer(p, a2, b2),
{
    let na = dnum(p, a);
    let na2 = dnum(p, a2);
    let nb = dnum(p, b);
    let nb2 = dnum(p, b2);
    let sa = a.count * a.count;
    let sa2 = a2.count * a2.count;
    let sb = b.count * b.count;
    let sb2 = b2.count * b2.count;
    lemma_dnum_scale(p, a, a2);
    lemma_dnum_scale(p, b, b2);
    assert(sa >= 1 && sa2 >= 1 && sb >= 1 && sb2 >= 1) by (nonlinear_arith)
        requires
            a.count >= 1,
            a2.count >= 1,
            b.count >= 1,
            b2.count >= 1,
            sa == a.count * a.count,
            sa2 == a2.count * a2.count,
            sb == b.count * b.count,
            sb2 == b2.count * b2.count,
    ;
    assert((na2 * sb2) * (sa * sb) < (nb2 * sa2) * (sa * sb)) by (nonlinear_arith)
        requires
            na * sb < nb * sa,
            na * sa2 == na2 * sa,
            nb * sb2 == nb2 * sb,
            sa >= 1,
            sb >= 1,
            sa2 >= 1,
            sb2 >= 1,
    ;
    assert(sa * sb >= 1) by (nonlinear_arith)
        requires
            sa >= 1,
            sb >= 1,
    ;
    assert(na2 * sb2 < nb2 * sa2) by (nonlinear_arith)
        requires
            (na2 * sb2) * (sa * sb) < (nb2 * sa2) * (sa * sb),
            sa * sb >= 1,
    ;
}

/// Replacing centroids by value-equal centroids does not change which of
/// the two a point is strictly closer to.
pub proof fn lemma_closer_respects_ceq(p: Point, a: Centroid, a2: Centroid, b: Centroid, b2: Centroid)
    requires
        ceq(a, a2),
        ceq(b, b2),
        a.count >= 1,
        a2.count >= 1,
        b.count >= 1,
        b2.count >= 1,
    ensures
        strictly_closer(p, a, b) == strictly_closer(p, a2, b2),
{
    if strictly_closer(p, a, b) {
        lemma_closer_imp(p, a, a2, b, b2);
    }
    if strictly_closer(p, a2, b2) {
        lemma_closer_imp(p, a2, a, b2, b);
    }
}

/// Strictness carries over a non-strict bound: if `p` is strictly closer
/// to `a` than to `b`, and not strictly closer to `c` than to `b`, then it
/// is strictly closer to `a` than to `c`.
pub proof fn lemma_closer_trans(p: Point, a: Centroid, b: Centroid, c: Centroid)
    requires
        a.count >= 1,
        b.count >= 1,
        c.count >= 1,
        strictly_closer(p, a, b),
        !strictly_closer(p, c, b),
    ensures
        strictly_closer(p, a, c),
{
    let na = dnum(p, a);
    let nb = dnum(p, b);
    let nc = dnum(p, c);
    let sa = a.count * a.count;
    let sb = b.count * b.count;
    let sc = c.count * c.count;
    assert(sa >= 1 && sb >= 1 && sc >= 1) by (nonlinear_arith)
        requires
            a.count >= 1,
            b.count >= 1,
            c.count >= 1,
            sa == a.count * a.count,
            sb == b.count * b.count,
            sc == c.count * c.count,
    ;
    assert((na * sc) * sb < (nc * sa) * sb) by (nonlinear_arith)
        requires
            na * sb < nb * sa,
            nb * sc <= nc * sb,
            sa >= 1,
            sb >= 1,
            sc >= 1,
    ;
    assert(na * sc < nc * sa) by (nonlinear_arith)
        requires
            (na * sc) * sb < (nc * sa) * sb,
            sb >= 1,
    ;
}

/// `|x| <= xm` and `0 <= y <= ym` bound `x * y` by `xm * ym` in magnitude.
pub proof fn lemma_abs_mul_bound(x: int, y: int, xm: int, ym: int)
    by (nonlinear_arith)
    requires
        -xm <= x <= xm,
        0 <= y <= ym,
        0 <= xm,
    ensures
        -(xm * ym) <= x * y <= xm * ym,
{
}

} // verus!
