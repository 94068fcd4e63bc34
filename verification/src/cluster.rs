//! Clusters: owned, growable collections of points with a cached centroid.
//!
//! The cached centroid always equals the arithmetic mean of the points the
//! cluster currently holds (or the origin when it is empty); every mutation
//! re-establishes this synchronously.  The one deliberate exception is
//! [`Cluster::gaussian`], which reports the generating center of a sample
//! instead of the sample's own mean until the first real mutation.

use vstd::prelude::*;

use crate::centroid::{cwf, origin_centroid, Centroid};
use crate::point::{bounded, Point, COORD_MAX, MAX_POINTS};

verus! {

/// A cluster of points plus a cached centroid.
#[derive(Clone, Debug)]
pub struct Cluster {
    points: Vec<Point>,
    centroid: Centroid,
}

/// The sum of the x-coordinates of a sequence of points.
pub open spec fn sum_x(s: Seq<Point>) -> int
    decreases s.len(),
{
    if s.len() == 0 {
        0
    } else {
        sum_x(s.drop_last()) + s.last().x
    }
}

/// The sum of the y-coordinates of a sequence of points.
pub open spec fn sum_y(s: Seq<Point>) -> int
    decreases s.len(),
{
    if s.len() == 0 {
        0
    } else {
        sum_y(s.drop_last()) + s.last().y
    }
}

/// The arithmetic mean of a sequence of points, as an exact rational
/// centroid; the origin for the empty sequence.
pub open spec fn mean_of(s: Seq<Point>) -> Centroid {
    if s.len() == 0 {
        origin_centroid()
    } else {
        Centroid { x_sum: sum_x(s) as i64, y_sum: sum_y(s) as i64, count: s.len() as u64 }
    }
}

/// Every point of the sequence lies on the bounded grid.
pub open spec fn all_bounded(s: Seq<Point>) -> bool {
    forall|i: int| 0 <= i < s.len() ==> bounded(#[trigger] s[i])
}

impl View for Cluster {
    type V = Seq<Point>;

    /// A cluster is viewed as the sequence of points it holds, in insertion
    /// order.
    closed spec fn view(&self) -> Seq<Point> {
        self.points@
    }
}

impl Cluster {
    /// The cached centroid.
    pub closed spec fn spec_centroid(self) -> Centroid {
        self.centroid
    }

    /// Structural invariant: the points fit on the bounded grid, their
    /// number is within the supported range, and the cached centroid is
    /// well formed.
    pub open spec fn inv(self) -> bool {
        &&& all_bounded(self@)
        &&& self@.len() <= MAX_POINTS
        &&& cwf(self.spec_centroid())
    }

    /// Full well-formedness: on top of [`Cluster::inv`], the cached
    /// centroid equals the arithmetic mean of the points currently held.
    pub open spec fn wf(self) -> bool {
        &&& self.inv()
        &&& self.spec_centroid() == mean_of(self@)
    }

    /// Constructs an empty cluster with its centroid placed at the origin.
    pub fn empty() -> (r: Cluster)
        ensures
            r.wf(),
            r@.len() == 0,
            r.spec_centroid() == origin_centroid(),
    {
        Cluster { points: Vec::new(), centroid: Centroid::origin() }
    }

    /// Constructs a cluster from a sample drawn around `center` (the caller
    /// draws the sample, for instance from per-axis normal distributions).
    ///
    /// The reported centroid is deliberately the generating `center`, not
    /// the sample's own mean; the first `add` or `evict_all` recomputes it.
    /// Callers that seed recognizable test clusters rely on this.
    pub fn gaussian(center: Point, sample: Vec<Point>) -> (r: Cluster)
        requires
            bounded(center),
            all_bounded(sample@),
            sample@.len() <= MAX_POINTS,
        ensures
            r@ == sample@,
            r.spec_centroid() == (Centroid { x_sum: center.x, y_sum: center.y, count: 1u64 }),
            r.inv(),
    {
        Cluster { points: sample, centroid: Centroid::of_point(center) }
    }

    /// A read-only view of the points currently held, in insertion order.
    pub fn iter(&self) -> (r: &Vec<Point>)
        ensures
            r@ == self@,
    {
        &self.points
    }

    /// Appends `point` and synchronously recomputes the centroid as the
    /// mean of all points now held.
    pub fn add(&mut self, point: Point)
        requires
            old(self).inv(),
            bounded(point),
            old(self)@.len() < MAX_POINTS,
        ensures
            final(self)@ == old(self)@.push(point),
            final(self).spec_centroid() == mean_of(final(self)@),
            final(self).wf(),
    {
        self.points.push(point);
        proof {
            assert(all_bounded(self.points@)) by {
                assert(forall|i: int| 0 <= i < old(self)@.len() ==> self.points@[i] == old(self)@[i]);
            }
        }
        let c = compute_centroid(&self.points);
        self.centroid = c;
    }

    /// Returns the cached centroid.
    pub fn centroid(&self) -> (r: Centroid)
        ensures
            r == self.spec_centroid(),
    {
        self.centroid
    }

    /// The Euclidean distance from the cached centroid to the given point,
    /// rounded down to an integer.
    ///
    /// The result is pinned exactly: the true squared distance is
    /// `dnum(point, c) / (c.count * c.count)` for the cached centroid `c`,
    /// and the result squared brackets it.  The clustering algorithm itself
    /// compares exact squared distances, never this rounding.
    pub fn distance_from_centroid(&self, point: Point) -> (r: u64)
        requires
            self.inv(),
            bounded(point),
        ensures
            (r * r) * (self.spec_centroid().count * self.spec_centroid().count) <= crate::centroid::dnum(
                point,
                self.spec_centroid(),
            ),
            crate::centroid::dnum(point, self.spec_centroid()) < ((r + 1) * (r + 1)) * (
            self.spec_centroid().count * self.spec_centroid().count),
    {
        let num = crate::centroid::dist_num(point, &self.centroid);
        let s = crate::point::isqrt(num as u128);
        proof {
            assert(s <= 3_000_000_000_000) by (nonlinear_arith)
                requires
                    s * s <= 8_000_000_000_000_000_000_000_000,
                    s >= 0,
            ;
        }
        let q = s / (self.centroid.count as u128);
        proof {
            lemma_floor_sqrt_div(num as int, s as int, self.centroid.count as int, q as int);
        }
        q as u64
    }

    /// Removes and returns every point, in insertion order, and resets the
    /// centroid to the origin; the cluster becomes empty.
    pub fn evict_all(&mut self) -> (r: Vec<Point>)
        ensures
            r@ == old(self)@,
            final(self)@.len() == 0,
            final(self).spec_centroid() == origin_centroid(),
            final(self).wf(),
    {
        let mut taken: Vec<Point> = Vec::new();
        core::mem::swap(&mut taken, &mut self.points);
        self.centroid = Centroid::origin();
        taken
    }
}

/// Dividing the integer square root of `num` by `n` yields the integer
/// part of the square root of `num / (n * n)`: its square, scaled by
/// `n * n`, brackets `num`.
proof fn lemma_floor_sqrt_div(num: int, s: int, n: int, q: int)
    requires
        0 <= num,
        crate::point::is_sqrt_floor(num, s),
        1 <= n,
        q == s / n,
    ensures
        0 <= q <= s,
        (q * q) * (n * n) <= num,
        num < ((q + 1) * (q + 1)) * (n * n),
{
    vstd::arithmetic::div_mod::lemma_fundamental_div_mod(s, n);
    vstd::arithmetic::div_mod::lemma_mod_bound(s, n);
    vstd::arithmetic::div_mod::lemma_div_pos_is_pos(s, n);
    assert(n * q <= s);
    assert(q <= s) by (nonlinear_arith)
        requires
            0 <= q,
            1 <= n,
            n * q <= s,
    ;
    assert(s + 1 <= n * (q + 1)) by (nonlinear_arith)
        requires
            s == n * q + s % n,
            s % n < n,
    ;
    assert((q * q) * (n * n) == (n * q) * (n * q)) by (nonlinear_arith);
    assert((n * q) * (n * q) <= s * s) by (nonlinear_arith)
        requires
            0 <= n * q,
            n * q <= s,
    ;
    assert((s + 1) * (s + 1) <= (n * (q + 1)) * (n * (q + 1))) by (nonlinear_arith)
        requires
            0 <= s + 1,
            s + 1 <= n * (q + 1),
    ;
    assert((n * (q + 1)) * (n * (q + 1)) == ((q + 1) * (q + 1)) * (n * n)) by (nonlinear_arith);
}

/// Coordinate sums of a sequence of bounded points stay within
/// `COORD_MAX` times its length.
pub proof fn lemma_sum_bounds(s: Seq<Point>)
    requires
        all_bounded(s),
    ensures
        -COORD_MAX * s.len() <= sum_x(s) <= COORD_MAX * s.len(),
        -COORD_MAX * s.len() <= sum_y(s) <= COORD_MAX * s.len(),
    decreases s.len(),
{
    if s.len() > 0 {
        assert(all_bounded(s.drop_last())) by {
            assert(forall|i: int| 0 <= i < s.len() - 1 ==> s.drop_last()[i] == s[i]);
        }
        lemma_sum_bounds(s.drop_last());
        assert(bounded(s.last()));
        assert(COORD_MAX * (s.len() - 1) + COORD_MAX == COORD_MAX * s.len()) by (nonlinear_arith);
    }
}

/// The mean of every non-empty collection of points the clustering core
/// handles is a well-formed centroid.
pub proof fn lemma_mean_cwf(s: Seq<Point>)
    requires
        all_bounded(s),
        s.len() <= MAX_POINTS,
    ensures
        cwf(mean_of(s)),
        mean_of(s).x_sum == sum_x(s),
        mean_of(s).y_sum == sum_y(s),
{
    lemma_sum_bounds(s);
    if s.len() > 0 {
        assert(COORD_MAX * s.len() <= 1_000_000_000_000) by (nonlinear_arith)
            requires
                s.len() <= 1_000_000,
        ;
    }
}

/// Computes the arithmetic mean of the given points: the componentwise sum
/// divided by the point count, with the empty collection special-cased to
/// the origin so the division never sees a zero count.
fn compute_centroid(points: &Vec<Point>) -> (r: Centroid)
    requires
        all_bounded(points@),
        points@.len() <= MAX_POINTS,
    ensures
        r == mean_of(points@),
        cwf(r),
{
    proof {
        lemma_mean_cwf(points@);
    }
    if points.len() == 0 {
        return Centroid::origin();
    }
    let mut sum = Point::origin();
    let mut i: usize = 0;
    while i < points.len()
        invariant
            i <= points@.len(),
            all_bounded(points@),
            points@.len() <= MAX_POINTS,
            sum.x == sum_x(points@.take(i as int)),
            sum.y == sum_y(points@.take(i as int)),
        decreases points@.len() - i,
    {
        proof {
            let pre = points@.take(i as int);
            let post = points@.take(i as int + 1);
            assert(post.drop_last() =~= pre);
            assert(post.last() == points@[i as int]);
            assert(all_bounded(pre)) by {
                assert(forall|j: int| 0 <= j < pre.len() ==> pre[j] == points@[j]);
            }
            lemma_sum_bounds(pre);
            assert(COORD_MAX * i <= 1_000_000_000_000) by (nonlinear_arith)
                requires
                    i <= 1_000_000,
                    COORD_MAX == 1_000_000,
            ;
        }
        let p = points[i];
        sum = sum.add(p);
        i += 1;
    }
    proof {
        assert(points@.take(points@.len() as int) =~= points@);
    }
    match sum.divide(points.len() as u64) {
        Ok(c) => c,
        Err(_) => vstd::pervasive::unreached(),
    }
}

} // verus!
