//! Lloyd's k-means driver: round-robin seeding, alternating assign/update
//! passes, and exact convergence detection over the centroid sequence.

use vstd::prelude::*;

use crate::centroid::{ceq, closer, cwf, strictly_closer, Centroid};
use crate::cluster::{all_bounded, mean_of, Cluster};
use crate::point::{bounded, Point, MAX_POINTS};
use crate::Error;

verus! {

/// The sequence of cached centroids of a sequence of clusters, in index
/// order.
pub open spec fn cents_of(cs: Seq<Cluster>) -> Seq<Centroid> {
    Seq::new(cs.len(), |i: int| cs[i].spec_centroid())
}

/// All points held by a sequence of clusters, flattened in cluster order.
pub open spec fn flatten(cs: Seq<Cluster>) -> Seq<Point>
    decreases cs.len(),
{
    if cs.len() == 0 {
        Seq::empty()
    } else {
        flatten(cs.drop_last()) + cs.last()@
    }
}

/// Every cluster of the sequence is well formed.
pub open spec fn all_wf(cs: Seq<Cluster>) -> bool {
    forall|i: int| 0 <= i < cs.len() ==> (#[trigger] cs[i]).wf()
}

/// Every centroid of the sequence is well formed.
pub open spec fn all_cwf(cents: Seq<Centroid>) -> bool {
    forall|i: int| 0 <= i < cents.len() ==> cwf(#[trigger] cents[i])
}

/// Two centroid sequences are equal: same length and exactly value-equal
/// centroids at every index.
pub open spec fn ceq_seq(a: Seq<Centroid>, b: Seq<Centroid>) -> bool {
    &&& a.len() == b.len()
    &&& forall|i: int| 0 <= i < a.len() ==> ceq(#[trigger] a[i], b[i])
}

/// The index of the centroid among `cents[0..n]` nearest to `p`, with ties
/// broken towards the lowest index: a candidate replaces the running best
/// only when it is strictly closer.
pub open spec fn nearest_upto(p: Point, cents: Seq<Centroid>, n: int) -> int
    decreases n,
{
    if n <= 1 {
        0
    } else {
        let b = nearest_upto(p, cents, n - 1);
        if strictly_closer(p, cents[n - 1], cents[b]) {
            n - 1
        } else {
            b
        }
    }
}

/// The index of the nearest centroid to `p`, lowest index winning ties.
pub open spec fn nearest_centroid(p: Point, cents: Seq<Centroid>) -> int {
    nearest_upto(p, cents, cents.len() as int)
}

/// The subsequence of `ps`, in order, whose nearest centroid among `cents`
/// is the one at index `j`.
pub open spec fn assigned(ps: Seq<Point>, cents: Seq<Centroid>, j: int) -> Seq<Point>
    decreases ps.len(),
{
    if ps.len() == 0 {
        Seq::empty()
    } else {
        assigned(ps.drop_last(), cents, j) + if nearest_centroid(ps.last(), cents) == j {
            seq![ps.last()]
        } else {
            Seq::empty()
        }
    }
}

/// The subsequence of `ps`, in order, that round-robin seeding over `k`
/// clusters sends to cluster `j`: the points whose index is `j` modulo `k`.
pub open spec fn round_robin(ps: Seq<Point>, k: int, j: int) -> Seq<Point>
    decreases ps.len(),
{
    if ps.len() == 0 {
        Seq::empty()
    } else {
        round_robin(ps.drop_last(), k, j) + if (ps.len() - 1) % k == j {
            seq![ps.last()]
        } else {
            Seq::empty()
        }
    }
}

/// The point collections of a sequence of clusters, cluster by cluster.
pub open spec fn partition_of(cs: Seq<Cluster>) -> Seq<Seq<Point>> {
    Seq::new(cs.len(), |j: int| cs[j]@)
}

/// All points of a partition, flattened in cluster order.
pub open spec fn concat_all(pt: Seq<Seq<Point>>) -> Seq<Point>
    decreases pt.len(),
{
    if pt.len() == 0 {
        Seq::empty()
    } else {
        concat_all(pt.drop_last()) + pt.last()
    }
}

/// The arithmetic mean of every class of a partition, in index order.
pub open spec fn means_of(pt: Seq<Seq<Point>>) -> Seq<Centroid> {
    Seq::new(pt.len(), |j: int| mean_of(pt[j]))
}

/// The partition that round-robin seeding of `ps` over `k` clusters
/// produces.
pub open spec fn seed_partition(ps: Seq<Point>, k: int) -> Seq<Seq<Point>> {
    Seq::new(k as nat, |j: int| round_robin(ps, k, j))
}

/// One assign/update pass: every point moves to the class of its nearest
/// current mean, lowest index winning exact ties.
pub open spec fn step_partition(pt: Seq<Seq<Point>>) -> Seq<Seq<Point>> {
    Seq::new(pt.len(), |j: int| assigned(concat_all(pt), means_of(pt), j))
}

/// The partition after `n` assign/update passes over the round-robin seed
/// of `ps` into `k` clusters.  The algorithm is a deterministic function
/// of its input: this trace is what every run computes.
pub open spec fn lloyd_trace(ps: Seq<Point>, k: int, n: nat) -> Seq<Seq<Point>>
    decreases n,
{
    if n == 0 {
        seed_partition(ps, k)
    } else {
        step_partition(lloyd_trace(ps, k, (n - 1) as nat))
    }
}

/// One more pass over this partition leaves every mean value unchanged:
/// the convergence test observed after the next pass will succeed.
pub open spec fn stable_partition(pt: Seq<Seq<Point>>) -> bool {
    ceq_seq(means_of(step_partition(pt)), means_of(pt))
}

/// The centroid sequence is a fixed point: re-running one assign/update
/// pass over the clusters' own points and centroids reproduces, cluster by
/// cluster, a centroid with exactly the same value.
pub open spec fn converged(cs: Seq<Cluster>) -> bool {
    forall|j: int|
        0 <= j < cs.len() ==> ceq(
            mean_of(assigned(flatten(cs), cents_of(cs), j)),
            (#[trigger] cs[j]).spec_centroid(),
        )
}

/// Returns the index of the centroid nearest to `point`; when several
/// centroids are exactly equidistant, the lowest index wins.
pub fn nearest(point: Point, cents: &Vec<Centroid>) -> (r: usize)
    requires
        bounded(point),
        cents@.len() >= 1,
        all_cwf(cents@),
    ensures
        r < cents@.len(),
        r as int == nearest_centroid(point, cents@),
        forall|j: int|
            0 <= j < cents@.len() ==> !strictly_closer(point, #[trigger] cents@[j], cents@[r as int]),
        forall|j: int| 0 <= j < r ==> strictly_closer(point, cents@[r as int], #[trigger] cents@[j]),
{
    proof {
        lemma_nearest_is_closest(point, cents@, cents@.len() as int);
    }
    let mut best: usize = 0;
    let mut i: usize = 1;
    while i < cents.len()
        invariant
            bounded(point),
            all_cwf(cents@),
            1 <= i <= cents@.len(),
            best < i,
            best as int == nearest_upto(point, cents@, i as int),
        decreases cents@.len() - i,
    {
        if closer(point, &cents[i], &cents[best]) {
            best = i;
        }
        i += 1;
    }
    best
}

/// The nearest index is in range.
pub proof fn lemma_nearest_upto_range(p: Point, cents: Seq<Centroid>, n: int)
    requires
        n >= 1,
    ensures
        0 <= nearest_upto(p, cents, n) < n,
    decreases n,
{
    if n > 1 {
        lemma_nearest_upto_range(p, cents, n - 1);
    }
}

/// Tie-break determinism: the nearest index among `cents[0..n]` is never
/// strictly beaten by any candidate, and strictly beats every candidate of
/// lower index — so between exactly equidistant centroids the lowest index
/// wins, on every run.
pub proof fn lemma_nearest_is_closest(p: Point, cents: Seq<Centroid>, n: int)
    requires
        1 <= n <= cents.len(),
        all_cwf(cents),
    ensures
        0 <= nearest_upto(p, cents, n) < n,
        forall|j: int|
            0 <= j < n ==> !strictly_closer(p, #[trigger] cents[j], cents[nearest_upto(p, cents, n)]),
        forall|j: int|
            0 <= j < nearest_upto(p, cents, n) ==> strictly_closer(
                p,
                cents[nearest_upto(p, cents, n)],
                #[trigger] cents[j],
            ),
    decreases n,
{
    if n > 1 {
        lemma_nearest_is_closest(p, cents, n - 1);
        let b = nearest_upto(p, cents, n - 1);
        let w = nearest_upto(p, cents, n);
        if strictly_closer(p, cents[n - 1], cents[b]) {
            assert(w == n - 1);
            assert forall|j: int| 0 <= j < n - 1 implies strictly_closer(
                p,
                cents[w],
                #[trigger] cents[j],
            ) by {
                crate::centroid::lemma_closer_trans(p, cents[n - 1], cents[b], cents[j]);
            }
        }
    }
}

/// The centroid of each cluster, in index order.
pub fn centroids(clusters: &Vec<Cluster>) -> (r: Vec<Centroid>)
    ensures
        r@ == cents_of(clusters@),
{
    let mut r: Vec<Centroid> = Vec::new();
    let mut i: usize = 0;
    while i < clusters.len()
        invariant
            i <= clusters@.len(),
            r@.len() == i,
            forall|j: int| 0 <= j < i ==> r@[j] == clusters@[j].spec_centroid(),
        decreases clusters@.len() - i,
    {
        r.push(clusters[i].centroid());
        i += 1;
    }
    proof {
        assert(r@ =~= cents_of(clusters@));
    }
    r
}

/// Whether two centroid sequences are equal: same length, and exactly
/// value-equal centroids at every index.
pub fn centroids_equal(a: &Vec<Centroid>, b: &Vec<Centroid>) -> (r: bool)
    requires
        all_cwf(a@),
        all_cwf(b@),
    ensures
        r == ceq_seq(a@, b@),
{
    if a.len() != b.len() {
        return false;
    }
    let mut i: usize = 0;
    while i < a.len()
        invariant
            a@.len() == b@.len(),
            i <= a@.len(),
            all_cwf(a@),
            all_cwf(b@),
            forall|j: int| 0 <= j < i ==> ceq(#[trigger] a@[j], b@[j]),
        decreases a@.len() - i,
    {
        if !a[i].equals(&b[i]) {
            return false;
        }
        i += 1;
    }
    true
}

/// `num_clusters` empty clusters, each with its centroid at the origin.
pub fn empty_clusters(num_clusters: usize) -> (r: Vec<Cluster>)
    ensures
        r@.len() == num_clusters,
        all_wf(r@),
        forall|j: int| 0 <= j < num_clusters ==> (#[trigger] r@[j])@.len() == 0,
{
    let mut r: Vec<Cluster> = Vec::new();
    let mut i: usize = 0;
    while i < num_clusters
        invariant
            i <= num_clusters,
            r@.len() == i,
            forall|j: int| 0 <= j < i ==> (#[trigger] r@[j]).wf() && r@[j]@.len() == 0,
        decreases num_clusters - i,
    {
        r.push(Cluster::empty());
        i += 1;
    }
    r
}

/// Round-robin seeding sends at most one cluster's share of the points.
proof fn lemma_round_robin_len(ps: Seq<Point>, k: int, j: int)
    ensures
        round_robin(ps, k, j).len() <= ps.len(),
    decreases ps.len(),
{
    if ps.len() > 0 {
        lemma_round_robin_len(ps.drop_last(), k, j);
    }
}

/// Each cluster receives at most as many points as were assigned.
proof fn lemma_assigned_len(ps: Seq<Point>, cents: Seq<Centroid>, j: int)
    ensures
        assigned(ps, cents, j).len() <= ps.len(),
    decreases ps.len(),
{
    if ps.len() > 0 {
        lemma_assigned_len(ps.drop_last(), cents, j);
    }
}

/// The flattened contents of an all-empty cluster sequence are empty.
proof fn lemma_flatten_all_empty(cs: Seq<Cluster>)
    requires
        forall|j: int| 0 <= j < cs.len() ==> (#[trigger] cs[j])@.len() == 0,
    ensures
        flatten(cs) =~= Seq::<Point>::empty(),
    decreases cs.len(),
{
    if cs.len() > 0 {
        lemma_flatten_all_empty(cs.drop_last());
    }
}

/// Appending one point to one cluster adds exactly that point to the
/// flattened contents, as a multiset.
proof fn lemma_flatten_insert_point(cs: Seq<Cluster>, j: int, c2: Cluster, p: Point)
    requires
        0 <= j < cs.len(),
        c2@ == cs[j]@.push(p),
    ensures
        flatten(cs.update(j, c2)).to_multiset() == flatten(cs).to_multiset().insert(p),
    decreases cs.len(),
{
    broadcast use vstd::seq_lib::group_to_multiset_ensures;
    broadcast use vstd::multiset::group_multiset_axioms;

    let upd = cs.update(j, c2);
    let n = cs.len() - 1;
    if j == n {
        assert(upd.drop_last() =~= cs.drop_last());
        vstd::seq_lib::lemma_multiset_commutative(flatten(cs.drop_last()), c2@);
        vstd::seq_lib::lemma_multiset_commutative(flatten(cs.drop_last()), cs[n]@);
        assert(cs[n]@.push(p).to_multiset() == cs[n]@.to_multiset().insert(p));
        assert(flatten(upd).to_multiset() =~= flatten(cs).to_multiset().insert(p));
    } else {
        assert(upd.drop_last() =~= cs.drop_last().update(j, c2));
        assert(cs.drop_last()[j] == cs[j]);
        lemma_flatten_insert_point(cs.drop_last(), j, c2, p);
        vstd::seq_lib::lemma_multiset_commutative(flatten(cs.drop_last().update(j, c2)), cs.last()@);
        vstd::seq_lib::lemma_multiset_commutative(flatten(cs.drop_last()), cs.last()@);
        assert(flatten(upd).to_multiset() =~= flatten(cs).to_multiset().insert(p));
    }
}

/// Seeds the given empty clusters with the input points: the point at
/// index `i` goes to the cluster at index `i` modulo the cluster count, in
/// input order.  This deterministic round-robin seed is the published
/// algorithm's choice: initial assignment depends on input ordering, not on
/// distances.
pub fn init_assign_points(clusters: &mut Vec<Cluster>, points: &Vec<Point>)
    requires
        old(clusters)@.len() >= 1,
        all_wf(old(clusters)@),
        forall|j: int| 0 <= j < old(clusters)@.len() ==> (#[trigger] old(clusters)@[j])@.len() == 0,
        all_bounded(points@),
        points@.len() <= MAX_POINTS,
    ensures
        final(clusters)@.len() == old(clusters)@.len(),
        all_wf(final(clusters)@),
        forall|j: int|
            0 <= j < final(clusters)@.len() ==> (#[trigger] final(clusters)@[j])@ == round_robin(
                points@,
                old(clusters)@.len() as int,
                j,
            ),
        flatten(final(clusters)@).to_multiset() == points@.to_multiset(),
{
    broadcast use vstd::seq_lib::group_to_multiset_ensures;

    let k = clusters.len();
    proof {
        lemma_flatten_all_empty(clusters@);
        assert(points@.take(0) =~= Seq::<Point>::empty());
        assert forall|j: int| 0 <= j < k implies (#[trigger] clusters@[j])@ == round_robin(
            points@.take(0),
            k as int,
            j,
        ) by {
            assert(round_robin(points@.take(0), k as int, j) =~= Seq::<Point>::empty());
            assert(clusters@[j]@ =~= Seq::<Point>::empty());
        }
    }
    let mut i: usize = 0;
    while i < points.len()
        invariant
            clusters@.len() == k,
            k >= 1,
            i <= points@.len(),
            all_bounded(points@),
            points@.len() <= MAX_POINTS,
            all_wf(clusters@),
            forall|j: int|
                0 <= j < k ==> (#[trigger] clusters@[j])@ == round_robin(
                    points@.take(i as int),
                    k as int,
                    j,
                ),
            flatten(clusters@).to_multiset() == points@.take(i as int).to_multiset(),
        decreases points@.len() - i,
    {
        let ghost pre = points@.take(i as int);
        let ghost post = points@.take(i as int + 1);
        let p = points[i];
        let idx = i % k;
        proof {
            assert(post.drop_last() =~= pre);
            assert(post.last() == points@[i as int]);
            lemma_round_robin_len(pre, k as int, idx as int);
        }
        let ghost cpre = clusters@;
        clusters[idx].add(p);
        proof {
            assert(clusters@ == cpre.update(idx as int, clusters@[idx as int]));
            lemma_flatten_insert_point(cpre, idx as int, clusters@[idx as int], p);
            assert(post =~= pre.push(p));
            vstd::seq_lib::to_multiset_build(pre, p);
            assert forall|j: int| 0 <= j < k implies (#[trigger] clusters@[j])@ == round_robin(
                post,
                k as int,
                j,
            ) by {
                if j == idx as int {
                    assert(round_robin(post, k as int, j) =~= round_robin(pre, k as int, j).push(
                        p,
                    ));
                } else {
                    assert(round_robin(post, k as int, j) =~= round_robin(pre, k as int, j));
                }
            }
        }
        i += 1;
    }
    proof {
        assert(points@.take(points@.len() as int) =~= points@);
    }
}

/// The flattened contents of well-formed clusters lie on the bounded grid.
proof fn lemma_flatten_bounded(cs: Seq<Cluster>)
    requires
        all_wf(cs),
    ensures
        all_bounded(flatten(cs)),
        flatten(cs).len() >= cs.last()@.len() || cs.len() == 0,
    decreases cs.len(),
{
    if cs.len() > 0 {
        assert(all_wf(cs.drop_last())) by {
            assert(forall|j: int| 0 <= j < cs.len() - 1 ==> cs.drop_last()[j] == cs[j]);
        }
        lemma_flatten_bounded(cs.drop_last());
        assert(cs.last().wf());
        assert forall|t: int| 0 <= t < flatten(cs).len() implies bounded(
            #[trigger] flatten(cs)[t],
        ) by {
            let head = flatten(cs.drop_last());
            if t < head.len() {
                assert(flatten(cs)[t] == head[t]);
            } else {
                assert(flatten(cs)[t] == cs.last()@[t - head.len()]);
            }
        }
    }
}

/// Well-formed clusters carry well-formed centroids.
proof fn lemma_cents_cwf(cs: Seq<Cluster>)
    requires
        all_wf(cs),
    ensures
        all_cwf(cents_of(cs)),
{
    assert forall|i: int| 0 <= i < cents_of(cs).len() implies cwf(#[trigger] cents_of(cs)[i]) by {
        assert(cs[i].wf());
    }
}

/// One assign/update pass of Lloyd's algorithm.
///
/// Captures a snapshot of every cluster's centroid, evicts all points into
/// one flat sequence, and re-adds each point, in order, to the cluster
/// whose snapshot centroid is nearest — with exact-tie ties always broken
/// towards the lowest cluster index.  The snapshot is taken before any
/// cluster is emptied: eviction destroys the basis for reassignment.
pub fn reassign_points(clusters: &mut Vec<Cluster>)
    requires
        old(clusters)@.len() >= 1,
        all_wf(old(clusters)@),
        flatten(old(clusters)@).len() <= MAX_POINTS,
    ensures
        final(clusters)@.len() == old(clusters)@.len(),
        all_wf(final(clusters)@),
        forall|j: int|
            0 <= j < final(clusters)@.len() ==> (#[trigger] final(clusters)@[j])@ == assigned(
                flatten(old(clusters)@),
                cents_of(old(clusters)@),
                j,
            ),
        flatten(final(clusters)@).to_multiset() == flatten(old(clusters)@).to_multiset(),
{
    let ghost orig = old(clusters)@;
    let cents = centroids(clusters);
    proof {
        lemma_cents_cwf(orig);
    }
    let mut points: Vec<Point> = Vec::new();
    let mut i: usize = 0;
    proof {
        assert(orig.take(0) =~= Seq::<Cluster>::empty());
    }
    while i < clusters.len()
        invariant
            clusters@.len() == orig.len(),
            i <= clusters@.len(),
            forall|j: int|
                0 <= j < i ==> (#[trigger] clusters@[j])@.len() == 0 && clusters@[j].wf(),
            forall|j: int| i <= j < clusters@.len() ==> #[trigger] clusters@[j] == orig[j],
            points@ == flatten(orig.take(i as int)),
        decreases clusters@.len() - i,
    {
        let mut evicted = clusters[i].evict_all();
        points.append(&mut evicted);
        proof {
            let t2 = orig.take(i as int + 1);
            assert(t2.drop_last() =~= orig.take(i as int));
            assert(t2.last() == orig[i as int]);
        }
        i += 1;
    }
    proof {
        assert(orig.take(orig.len() as int) =~= orig);
        lemma_flatten_bounded(orig);
        lemma_flatten_all_empty(clusters@);
        assert(points@.take(0) =~= Seq::<Point>::empty());
        assert forall|j: int| 0 <= j < clusters@.len() implies (#[trigger] clusters@[j])@
            == assigned(points@.take(0), cents@, j) by {
            assert(assigned(points@.take(0), cents@, j) =~= Seq::<Point>::empty());
            assert(clusters@[j]@ =~= Seq::<Point>::empty());
        }
    }
    let mut idx: usize = 0;
    while idx < points.len()
        invariant
            clusters@.len() == orig.len(),
            orig.len() >= 1,
            cents@ == cents_of(orig),
            all_cwf(cents@),
            idx <= points@.len(),
            points@.len() <= MAX_POINTS,
            all_bounded(points@),
            all_wf(clusters@),
            forall|j: int|
                0 <= j < clusters@.len() ==> (#[trigger] clusters@[j])@ == assigned(
                    points@.take(idx as int),
                    cents@,
                    j,
                ),
            flatten(clusters@).to_multiset() == points@.take(idx as int).to_multiset(),
        decreases points@.len() - idx,
    {
        let ghost pre = points@.take(idx as int);
        let ghost post = points@.take(idx as int + 1);
        let p = points[idx];
        let target = nearest(p, &cents);
        proof {
            assert(post.drop_last() =~= pre);
            assert(post.last() == points@[idx as int]);
            lemma_assigned_len(pre, cents@, target as int);
        }
        let ghost cpre = clusters@;
        clusters[target].add(p);
        proof {
            lemma_flatten_insert_point(cpre, target as int, clusters@[target as int], p);
            vstd::seq_lib::to_multiset_build(pre, p);
            assert(post =~= pre.push(p));
            assert forall|j: int| 0 <= j < clusters@.len() implies (#[trigger] clusters@[j])@
                == assigned(post, cents@, j) by {
                if j == target as int {
                    assert(assigned(post, cents@, j) =~= assigned(pre, cents@, j).push(p));
                } else {
                    assert(assigned(post, cents@, j) =~= assigned(pre, cents@, j));
                }
            }
        }
        idx += 1;
    }
    proof {
        assert(points@.take(points@.len() as int) =~= points@);
    }
}

/// Every point a pass assigns to cluster `j` indeed has `j` as its nearest
/// centroid index.
proof fn lemma_assigned_members(ps: Seq<Point>, cents: Seq<Centroid>, j: int)
    ensures
        forall|t: int|
            0 <= t < assigned(ps, cents, j).len() ==> nearest_centroid(
                #[trigger] assigned(ps, cents, j)[t],
                cents,
            ) == j,
    decreases ps.len(),
{
    if ps.len() > 0 {
        lemma_assigned_members(ps.drop_last(), cents, j);
        assert forall|t: int| 0 <= t < assigned(ps, cents, j).len() implies nearest_centroid(
            #[trigger] assigned(ps, cents, j)[t],
            cents,
        ) == j by {
            let head = assigned(ps.drop_last(), cents, j);
            if t < head.len() {
                assert(assigned(ps, cents, j)[t] == head[t]);
            } else {
                assert(assigned(ps, cents, j)[t] == ps.last());
            }
        }
    }
}

/// Replacing the centroid sequence by a value-equal one leaves the nearest
/// index of every point unchanged.
proof fn lemma_nearest_upto_ceq(p: Point, c1: Seq<Centroid>, c2: Seq<Centroid>, n: int)
    requires
        ceq_seq(c1, c2),
        all_cwf(c1),
        all_cwf(c2),
        1 <= n <= c1.len(),
    ensures
        nearest_upto(p, c1, n) == nearest_upto(p, c2, n),
    decreases n,
{
    if n > 1 {
        lemma_nearest_upto_ceq(p, c1, c2, n - 1);
        lemma_nearest_upto_range(p, c1, n - 1);
        let b = nearest_upto(p, c1, n - 1);
        crate::centroid::lemma_closer_respects_ceq(p, c1[n - 1], c2[n - 1], c1[b], c2[b]);
    }
}

/// Assignment distributes over concatenation of the point sequence.
proof fn lemma_assigned_concat(s1: Seq<Point>, s2: Seq<Point>, cents: Seq<Centroid>, j: int)
    ensures
        assigned(s1 + s2, cents, j) == assigned(s1, cents, j) + assigned(s2, cents, j),
    decreases s2.len(),
{
    if s2.len() == 0 {
        assert(s1 + s2 =~= s1);
        assert(assigned(s1, cents, j) + assigned(s2, cents, j) =~= assigned(s1, cents, j));
    } else {
        assert((s1 + s2).drop_last() =~= s1 + s2.drop_last());
        assert((s1 + s2).last() == s2.last());
        lemma_assigned_concat(s1, s2.drop_last(), cents, j);
        assert(assigned(s1 + s2, cents, j) =~= assigned(s1, cents, j) + assigned(s2, cents, j));
    }
}

/// A segment whose points all have nearest index `m` is assigned wholly to
/// cluster `m` and contributes nothing elsewhere.
proof fn lemma_assigned_uniform(s: Seq<Point>, cents: Seq<Centroid>, m: int, j: int)
    requires
        forall|t: int| 0 <= t < s.len() ==> nearest_centroid(#[trigger] s[t], cents) == m,
    ensures
        j == m ==> assigned(s, cents, j) == s,
        j != m ==> assigned(s, cents, j) == Seq::<Point>::empty(),
    decreases s.len(),
{
    if s.len() == 0 {
        assert(assigned(s, cents, j) =~= Seq::<Point>::empty());
    } else {
        assert(forall|t: int| 0 <= t < s.len() - 1 ==> s.drop_last()[t] == s[t]);
        lemma_assigned_uniform(s.drop_last(), cents, m, j);
        if j == m {
            assert(assigned(s, cents, j) =~= s);
        } else {
            assert(assigned(s, cents, j) =~= Seq::<Point>::empty());
        }
    }
}

/// When every cluster already holds exactly the points whose nearest index
/// is its own, re-assigning the flattened contents reproduces each cluster
/// verbatim.
proof fn lemma_assigned_flatten(cs: Seq<Cluster>, cents: Seq<Centroid>, j: int)
    requires
        forall|m: int, t: int|
            0 <= m < cs.len() && 0 <= t < cs[m]@.len() ==> nearest_centroid(
                #[trigger] cs[m]@[t],
                cents,
            ) == m,
        0 <= j,
    ensures
        j < cs.len() ==> assigned(flatten(cs), cents, j) == cs[j]@,
        j >= cs.len() ==> assigned(flatten(cs), cents, j) == Seq::<Point>::empty(),
    decreases cs.len(),
{
    if cs.len() == 0 {
    } else {
        let head = cs.drop_last();
        let n = cs.len() - 1;
        assert(forall|m: int| 0 <= m < head.len() ==> head[m] == cs[m]);
        lemma_assigned_flatten(head, cents, j);
        lemma_assigned_concat(flatten(head), cs.last()@, cents, j);
        assert(forall|t: int|
            0 <= t < cs.last()@.len() ==> nearest_centroid(#[trigger] cs.last()@[t], cents) == n);
        lemma_assigned_uniform(cs.last()@, cents, n, j);
        if j < n {
            assert(assigned(flatten(cs), cents, j) =~= cs[j]@);
        } else if j == n {
            assert(assigned(flatten(cs), cents, j) =~= cs[j]@);
        } else {
            assert(assigned(flatten(cs), cents, j) =~= Seq::<Point>::empty());
        }
    }
}

/// The flattened contents of clusters are the flattened contents of their
/// partition.
proof fn lemma_flatten_partition(cs: Seq<Cluster>)
    ensures
        concat_all(partition_of(cs)) == flatten(cs),
    decreases cs.len(),
{
    if cs.len() > 0 {
        assert(partition_of(cs).drop_last() =~= partition_of(cs.drop_last()));
        lemma_flatten_partition(cs.drop_last());
        assert(concat_all(partition_of(cs)) =~= flatten(cs));
    }
}

/// For well-formed clusters the cached centroids are exactly the means of
/// the partition.
proof fn lemma_cents_are_means(cs: Seq<Cluster>)
    requires
        all_wf(cs),
    ensures
        means_of(partition_of(cs)) == cents_of(cs),
{
    assert forall|j: int| 0 <= j < cs.len() implies means_of(partition_of(cs))[j] == cents_of(
        cs,
    )[j] by {
        assert(cs[j].wf());
    }
    assert(means_of(partition_of(cs)) =~= cents_of(cs));
}

/// One verified assign/update pass advances the clusters along the
/// specification-level trace by exactly one step.
proof fn lemma_reassign_is_step(pre: Seq<Cluster>, post: Seq<Cluster>)
    requires
        pre.len() == post.len(),
        all_wf(pre),
        forall|j: int|
            0 <= j < post.len() ==> (#[trigger] post[j])@ == assigned(
                flatten(pre),
                cents_of(pre),
                j,
            ),
    ensures
        partition_of(post) == step_partition(partition_of(pre)),
{
    lemma_flatten_partition(pre);
    lemma_cents_are_means(pre);
    assert(partition_of(post) =~= step_partition(partition_of(pre)));
}

/// Idempotence of convergence: when one assign/update pass carries `pre`
/// to `post` and leaves the centroid sequence value-equal, `post` is a
/// fixed point — re-running the pass on `post` itself reproduces an
/// identical centroid sequence.
pub proof fn lemma_step_fixed_point(pre: Seq<Cluster>, post: Seq<Cluster>)
    requires
        pre.len() == post.len(),
        pre.len() >= 1,
        all_wf(pre),
        all_wf(post),
        forall|j: int|
            0 <= j < post.len() ==> (#[trigger] post[j])@ == assigned(
                flatten(pre),
                cents_of(pre),
                j,
            ),
        ceq_seq(cents_of(post), cents_of(pre)),
    ensures
        converged(post),
{
    let oldc = cents_of(pre);
    let newc = cents_of(post);
    lemma_cents_cwf(pre);
    lemma_cents_cwf(post);
    assert forall|m: int, t: int|
        0 <= m < post.len() && 0 <= t < post[m]@.len() implies nearest_centroid(
        #[trigger] post[m]@[t],
        newc,
    ) == m by {
        lemma_assigned_members(flatten(pre), oldc, m);
        assert(nearest_centroid(post[m]@[t], oldc) == m);
        lemma_nearest_upto_ceq(post[m]@[t], newc, oldc, newc.len() as int);
    }
    assert forall|j: int| 0 <= j < post.len() implies ceq(
        mean_of(assigned(flatten(post), cents_of(post), j)),
        (#[trigger] post[j]).spec_centroid(),
    ) by {
        lemma_assigned_flatten(post, newc, j);
        assert(post[j].wf());
    }
}

/// Performs k-means clustering with a bound on the number of assign/update
/// passes, and reports progress: the converged clusters come back together
/// with the count of passes performed.
///
/// The count is pinned exactly: the final pass is the first one to observe
/// the fixed point, so the count is one more than the first stable index of
/// the iteration trace.  `DidNotConverge` comes back exactly when no pass
/// within the bound observed a fixed point.  A zero cluster count or an
/// empty input — either of which would leave every cluster permanently
/// empty by construction — is rejected up front with
/// `InvalidClusterCount`; a cluster count larger than the point count is
/// allowed, the surplus clusters ending empty with their centroids at the
/// origin.
pub fn run_with_progress(
    points: &Vec<Point>,
    num_clusters: usize,
    max_iterations: u64,
) -> (r: Result<(Vec<Cluster>, u64), Error>)
    requires
        all_bounded(points@),
        points@.len() <= MAX_POINTS,
    ensures
        (num_clusters == 0 || points@.len() == 0) <==> r == Err::<(Vec<Cluster>, u64), Error>(
            Error::InvalidClusterCount,
        ),
        r is Err ==> r == Err::<(Vec<Cluster>, u64), Error>(Error::InvalidClusterCount) || r
            == Err::<(Vec<Cluster>, u64), Error>(Error::DidNotConverge),
        r == Err::<(Vec<Cluster>, u64), Error>(Error::DidNotConverge) ==> forall|m: int|
            0 <= m < max_iterations ==> !stable_partition(
                #[trigger] lloyd_trace(points@, num_clusters as int, m as nat),
            ),
        match r {
            Ok(p) => {
                &&& p.0@.len() == num_clusters
                &&& all_wf(p.0@)
                &&& flatten(p.0@).to_multiset() == points@.to_multiset()
                &&& converged(p.0@)
                &&& 1 <= p.1 <= max_iterations
                &&& stable_partition(lloyd_trace(points@, num_clusters as int, (p.1 - 1) as nat))
                &&& forall|m: int|
                    0 <= m < p.1 - 1 ==> !stable_partition(
                        #[trigger] lloyd_trace(points@, num_clusters as int, m as nat),
                    )
                &&& partition_of(p.0@) == step_partition(
                    lloyd_trace(points@, num_clusters as int, (p.1 - 1) as nat),
                )
            },
            Err(_) => true,
        },
{
    if num_clusters == 0 || points.len() == 0 {
        return Err(Error::InvalidClusterCount);
    }
    let mut clusters = empty_clusters(num_clusters);
    init_assign_points(&mut clusters, points);
    let mut prev = centroids(&clusters);
    proof {
        lemma_cents_cwf(clusters@);
        vstd::seq_lib::to_multiset_len(flatten(clusters@));
        vstd::seq_lib::to_multiset_len(points@);
        assert(partition_of(clusters@) =~= seed_partition(points@, num_clusters as int));
    }
    let mut iterations: u64 = 0;
    while iterations < max_iterations
        invariant
            iterations <= max_iterations,
            clusters@.len() == num_clusters,
            num_clusters >= 1,
            1 <= points@.len() <= MAX_POINTS,
            all_bounded(points@),
            all_wf(clusters@),
            flatten(clusters@).to_multiset() == points@.to_multiset(),
            flatten(clusters@).len() == points@.len(),
            prev@ == cents_of(clusters@),
            all_cwf(prev@),
            partition_of(clusters@) == lloyd_trace(points@, num_clusters as int, iterations as nat),
            forall|m: int|
                0 <= m < iterations ==> !stable_partition(
                    #[trigger] lloyd_trace(points@, num_clusters as int, m as nat),
                ),
        decreases max_iterations - iterations,
    {
        iterations = iterations + 1;
        let ghost before = clusters@;
        reassign_points(&mut clusters);
        proof {
            vstd::seq_lib::to_multiset_len(flatten(clusters@));
            vstd::seq_lib::to_multiset_len(points@);
            lemma_cents_cwf(clusters@);
            lemma_reassign_is_step(before, clusters@);
            lemma_cents_are_means(before);
            lemma_cents_are_means(clusters@);
        }
        let next = centroids(&clusters);
        let ghost passes_done = iterations - 1;
        if centroids_equal(&next, &prev) {
            proof {
                lemma_step_fixed_point(before, clusters@);
                assert(stable_partition(lloyd_trace(points@, num_clusters as int, passes_done as nat)));
                assert(partition_of(clusters@) == step_partition(
                    lloyd_trace(points@, num_clusters as int, passes_done as nat),
                ));
            }
            return Ok((clusters, iterations));
        }
        prev = next;
        proof {
            assert forall|m: int| 0 <= m < iterations implies !stable_partition(
                #[trigger] lloyd_trace(points@, num_clusters as int, m as nat),
            ) by {
                if m == passes_done {
                    assert(!ceq_seq(
                        means_of(step_partition(lloyd_trace(points@, num_clusters as int, m as nat))),
                        means_of(lloyd_trace(points@, num_clusters as int, m as nat)),
                    ));
                }
            }
        }
    }
    Err(Error::DidNotConverge)
}

/// Performs k-means clustering with a bound on the number of assign/update
/// passes, reporting `DidNotConverge` exactly when no pass within the
/// bound observed the centroid sequence's fixed point.
///
/// The same run as [`run_with_progress`], with the pass count dropped.
pub fn run_with_limit(
    points: &Vec<Point>,
    num_clusters: usize,
    max_iterations: u64,
) -> (r: Result<Vec<Cluster>, Error>)
    requires
        all_bounded(points@),
        points@.len() <= MAX_POINTS,
    ensures
        (num_clusters == 0 || points@.len() == 0) <==> r == Err::<Vec<Cluster>, Error>(
            Error::InvalidClusterCount,
        ),
        r is Err ==> r == Err::<Vec<Cluster>, Error>(Error::InvalidClusterCount) || r == Err::<
            Vec<Cluster>,
            Error,
        >(Error::DidNotConverge),
        r == Err::<Vec<Cluster>, Error>(Error::DidNotConverge) ==> forall|m: int|
            0 <= m < max_iterations ==> !stable_partition(
                #[trigger] lloyd_trace(points@, num_clusters as int, m as nat),
            ),
        match r {
            Ok(cs) => {
                &&& cs@.len() == num_clusters
                &&& all_wf(cs@)
                &&& flatten(cs@).to_multiset() == points@.to_multiset()
                &&& converged(cs@)
                &&& exists|n: int|
                    {
                        &&& 0 <= n
                        &&& stable_partition(
                            #[trigger] lloyd_trace(points@, num_clusters as int, n as nat),
                        )
                        &&& forall|m: int|
                            0 <= m < n ==> !stable_partition(
                                #[trigger] lloyd_trace(points@, num_clusters as int, m as nat),
                            )
                        &&& partition_of(cs@) == step_partition(
                            lloyd_trace(points@, num_clusters as int, n as nat),
                        )
                    }
            },
            Err(_) => true,
        },
{
    match run_with_progress(points, num_clusters, max_iterations) {
        Ok(p) => {
            proof {
                let n: int = p.1 - 1;
                assert(stable_partition(lloyd_trace(points@, num_clusters as int, n as nat)));
            }
            Ok(p.0)
        },
        Err(e) => Err(e),
    }
}

/// Performs k-means clustering on a collection of points and returns the
/// resulting clusters: round-robin seeding, then alternating assign/update
/// passes until the centroid sequence repeats exactly.
///
/// Runs with the largest representable iteration cap, which in practice no
/// input exhausts; [`run_with_limit`] exposes the cap for callers that
/// want an early `DidNotConverge` on degenerate data, and
/// [`run_with_progress`] additionally reports the pass count.
pub fn run(points: &Vec<Point>, num_clusters: usize) -> (r: Result<Vec<Cluster>, Error>)
    requires
        all_bounded(points@),
        points@.len() <= MAX_POINTS,
    ensures
        (num_clusters == 0 || points@.len() == 0) <==> r == Err::<Vec<Cluster>, Error>(
            Error::InvalidClusterCount,
        ),
        r is Err ==> r == Err::<Vec<Cluster>, Error>(Error::InvalidClusterCount) || r == Err::<
            Vec<Cluster>,
            Error,
        >(Error::DidNotConverge),
        r == Err::<Vec<Cluster>, Error>(Error::DidNotConverge) ==> forall|m: int|
            0 <= m < u64::MAX ==> !stable_partition(
                #[trigger] lloyd_trace(points@, num_clusters as int, m as nat),
            ),
        match r {
            Ok(cs) => {
                &&& cs@.len() == num_clusters
                &&& all_wf(cs@)
                &&& flatten(cs@).to_multiset() == points@.to_multiset()
                &&& converged(cs@)
                &&& exists|n: int|
                    {
                        &&& 0 <= n
                        &&& stable_partition(
                            #[trigger] lloyd_trace(points@, num_clusters as int, n as nat),
                        )
                        &&& forall|m: int|
                            0 <= m < n ==> !stable_partition(
                                #[trigger] lloyd_trace(points@, num_clusters as int, m as nat),
                            )
                        &&& partition_of(cs@) == step_partition(
                            lloyd_trace(points@, num_clusters as int, n as nat),
                        )
                    }
            },
            Err(_) => true,
        },
{
    run_with_limit(points, num_clusters, u64::MAX)
}

} // verus!
