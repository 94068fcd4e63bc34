use ml::centroid::Centroid;
use ml::cluster::Cluster;
use ml::kmeans::{
    centroids, centroids_equal, empty_clusters, init_assign_points, nearest, reassign_points, run,
    run_with_limit, run_with_progress,
};
use ml::point::Point;
use ml::Error;

#[test]
fn nearest_picks_closest() {
    let cents = vec![
        Centroid::of_point(Point::new(0, 0)),
        Centroid::of_point(Point::new(10, 0)),
    ];
    assert_eq!(nearest(Point::new(2, 0), &cents), 0);
    assert_eq!(nearest(Point::new(8, 0), &cents), 1);
}

#[test]
fn nearest_breaks_ties_towards_lowest_index() {
    let cents = vec![
        Centroid::of_point(Point::new(0, 0)),
        Centroid::of_point(Point::new(2, 0)),
    ];
    // (1, 0) is exactly equidistant: the lower index must win, repeatably.
    for _ in 0..10 {
        assert_eq!(nearest(Point::new(1, 0), &cents), 0);
    }
    // Equidistant centroids given in the other order still favor index 0.
    let swapped = vec![
        Centroid::of_point(Point::new(2, 0)),
        Centroid::of_point(Point::new(0, 0)),
    ];
    assert_eq!(nearest(Point::new(1, 0), &swapped), 0);
}

#[test]
fn nearest_tie_of_value_equal_centroids() {
    // Two centroids with equal values but different representations tie;
    // the lowest index wins.
    let cents = vec![
        Centroid { x_sum: 6, y_sum: 6, count: 2 },
        Centroid::of_point(Point::new(3, 3)),
    ];
    assert_eq!(nearest(Point::new(3, 3), &cents), 0);
    assert_eq!(nearest(Point::new(100, -40), &cents), 0);
}

#[test]
fn centroids_equal_is_value_equality() {
    let a = vec![Centroid { x_sum: 1, y_sum: 1, count: 2 }];
    let b = vec![Centroid { x_sum: 2, y_sum: 2, count: 4 }];
    let c = vec![Centroid { x_sum: 1, y_sum: 0, count: 2 }];
    assert!(centroids_equal(&a, &b));
    assert!(!centroids_equal(&a, &c));
    assert!(!centroids_equal(&a, &vec![]));
}

#[test]
fn empty_clusters_are_empty() {
    let cs = empty_clusters(3);
    assert_eq!(cs.len(), 3);
    for c in &cs {
        assert_eq!(c.iter().len(), 0);
        assert!(c.centroid().equals(&Centroid::of_point(Point::origin())));
    }
}

#[test]
fn init_assignment_is_round_robin() {
    let mut cs = empty_clusters(2);
    let pts = vec![
        Point::new(0, 0),
        Point::new(1, 0),
        Point::new(2, 0),
        Point::new(3, 0),
        Point::new(4, 0),
    ];
    init_assign_points(&mut cs, &pts);
    assert_eq!(
        cs[0].iter().as_slice(),
        &[Point::new(0, 0), Point::new(2, 0), Point::new(4, 0)]
    );
    assert_eq!(cs[1].iter().as_slice(), &[Point::new(1, 0), Point::new(3, 0)]);
}

#[test]
fn reassign_sends_tied_points_to_lowest_index() {
    let mut cs = empty_clusters(2);
    // Both clusters hold one copy of the same point, so both centroids are
    // equal; on reassignment both copies must land in cluster 0.
    init_assign_points(&mut cs, &vec![Point::new(1, 1), Point::new(1, 1)]);
    reassign_points(&mut cs);
    assert_eq!(cs[0].iter().len(), 2);
    assert_eq!(cs[1].iter().len(), 0);
}

#[test]
fn rejects_zero_clusters() {
    let pts = vec![Point::new(1, 1)];
    assert!(matches!(run(&pts, 0), Err(Error::InvalidClusterCount)));
}

#[test]
fn rejects_empty_input() {
    assert!(matches!(run(&vec![], 2), Err(Error::InvalidClusterCount)));
}

#[test]
fn limit_zero_reports_did_not_converge() {
    let pts = vec![Point::new(0, 0), Point::new(4, 4)];
    assert!(matches!(
        run_with_limit(&pts, 1, 0),
        Err(Error::DidNotConverge)
    ));
}

#[test]
fn two_blobs_converge_to_their_means() {
    // Ordered so that round-robin seeding pairs the two left points in
    // cluster 0 and the two right points in cluster 1.
    let pts = vec![
        Point::new(0, 0),
        Point::new(10, 0),
        Point::new(0, 1),
        Point::new(10, 1),
    ];
    let cs = run(&pts, 2).unwrap();
    assert_eq!(cs.len(), 2);
    assert_eq!(cs[0].iter().as_slice(), &[Point::new(0, 0), Point::new(0, 1)]);
    assert_eq!(cs[1].iter().as_slice(), &[Point::new(10, 0), Point::new(10, 1)]);
    // Exact fixed-point centroids (0, 1/2) and (10, 1/2).
    assert!(cs[0].centroid().equals(&Centroid { x_sum: 0, y_sum: 1, count: 2 }));
    assert!(cs[1].centroid().equals(&Centroid { x_sum: 20, y_sum: 1, count: 2 }));
}

#[test]
fn convergence_is_a_fixed_point() {
    let pts = vec![
        Point::new(0, 0),
        Point::new(10, 0),
        Point::new(0, 1),
        Point::new(10, 1),
        Point::new(5, 5),
    ];
    let mut cs = run(&pts, 2).unwrap();
    let before = centroids(&cs);
    // Re-running the assign/update step after convergence must reproduce
    // an identical centroid sequence.
    reassign_points(&mut cs);
    let after = centroids(&cs);
    assert!(centroids_equal(&after, &before));
}

#[test]
fn identical_points_collapse_to_their_value() {
    let pts = vec![Point::new(3, 3); 5];
    for k in 1..=5 {
        let cs = run(&pts, k).unwrap();
        assert_eq!(cs.len(), k);
        let mut held = 0;
        for c in &cs {
            if c.iter().len() > 0 {
                held += c.iter().len();
                assert!(c.centroid().equals(&Centroid::of_point(Point::new(3, 3))));
            }
        }
        assert_eq!(held, 5);
    }
    // A single update pass moves every copy to the lowest-index cluster,
    // and one more pass observes the fixed point.
    assert!(run_with_limit(&pts, 2, 2).is_ok());
}

#[test]
fn one_cluster_per_point() {
    let pts = vec![
        Point::new(0, 0),
        Point::new(5, 0),
        Point::new(0, 5),
        Point::new(5, 5),
    ];
    let cs = run(&pts, 4).unwrap();
    assert_eq!(cs.len(), 4);
    for (c, p) in cs.iter().zip(pts.iter()) {
        assert_eq!(c.iter().as_slice(), &[*p]);
        assert!(c.centroid().equals(&Centroid::of_point(*p)));
    }
}

#[test]
fn more_clusters_than_points_leaves_empties() {
    let pts = vec![Point::new(1, 1)];
    let cs = run(&pts, 3).unwrap();
    assert_eq!(cs.len(), 3);
    assert_eq!(cs[0].iter().as_slice(), &[Point::new(1, 1)]);
    assert!(cs[0].centroid().equals(&Centroid::of_point(Point::new(1, 1))));
    for c in &cs[1..] {
        assert_eq!(c.iter().len(), 0);
        assert!(c.centroid().equals(&Centroid::of_point(Point::origin())));
    }
}

#[test]
fn progress_counts_passes() {
    // Already seeded at the fixed point: the single pass that observes it
    // is counted.
    let pts = vec![
        Point::new(0, 0),
        Point::new(10, 0),
        Point::new(0, 1),
        Point::new(10, 1),
    ];
    let (cs, passes) = run_with_progress(&pts, 2, u64::MAX).unwrap();
    assert_eq!(cs.len(), 2);
    assert_eq!(passes, 1);

    // Five identical points over two clusters: the first pass drains
    // cluster 1, the second observes the fixed point.
    let same = vec![Point::new(3, 3); 5];
    let (_, passes) = run_with_progress(&same, 2, u64::MAX).unwrap();
    assert_eq!(passes, 2);
}

#[test]
fn progress_reports_errors_like_the_driver() {
    let same = vec![Point::new(3, 3); 5];
    assert!(matches!(
        run_with_progress(&same, 2, 1),
        Err(Error::DidNotConverge)
    ));
    assert!(matches!(run_with_progress(&same, 2, 2), Ok(_)));
    assert!(matches!(
        run_with_progress(&vec![], 2, 5),
        Err(Error::InvalidClusterCount)
    ));
    assert!(matches!(
        run_with_progress(&same, 0, 5),
        Err(Error::InvalidClusterCount)
    ));
}

#[test]
fn single_cluster_collects_everything() {
    let pts = vec![Point::new(-4, 0), Point::new(0, 2), Point::new(1, 1)];
    let cs = run(&pts, 1).unwrap();
    assert_eq!(cs.len(), 1);
    assert_eq!(cs[0].iter().len(), 3);
    // The mean of (-4,0), (0,2), (1,1) is exactly (-1, 1).
    assert!(cs[0].centroid().equals(&Centroid::of_point(Point::new(-1, 1))));
}

#[test]
fn negative_coordinates_are_exact() {
    let pts = vec![
        Point::new(-10, -10),
        Point::new(10, 10),
        Point::new(-10, -12),
        Point::new(10, 12),
    ];
    let cs = run(&pts, 2).unwrap();
    assert!(cs[0].centroid().equals(&Centroid { x_sum: -20, y_sum: -22, count: 2 }));
    assert!(cs[1].centroid().equals(&Centroid { x_sum: 20, y_sum: 22, count: 2 }));
}

#[test]
fn seeding_depends_on_input_order() {
    // The round-robin seed ties the outcome to input ordering: the same
    // four points in interleaved order converge to the horizontal split.
    let pts = vec![
        Point::new(0, 0),
        Point::new(0, 1),
        Point::new(10, 0),
        Point::new(10, 1),
    ];
    let cs = run(&pts, 2).unwrap();
    assert!(cs[0].centroid().equals(&Centroid { x_sum: 10, y_sum: 0, count: 2 }));
    assert!(cs[1].centroid().equals(&Centroid { x_sum: 10, y_sum: 2, count: 2 }));
}

#[test]
fn gaussian_seeded_clusters_feed_the_driver() {
    // Two recognizable blobs drawn around distinct centers, as the demo
    // seeding does, then clustered from the flattened points.
    let left = Cluster::gaussian(
        Point::new(10, 10),
        vec![Point::new(8, 9), Point::new(12, 10), Point::new(10, 12)],
    );
    let right = Cluster::gaussian(
        Point::new(40, 40),
        vec![Point::new(38, 41), Point::new(42, 40), Point::new(40, 38)],
    );
    let mut pts: Vec<Point> = Vec::new();
    pts.extend_from_slice(left.iter().as_slice());
    pts.extend_from_slice(right.iter().as_slice());
    let cs = run(&pts, 2).unwrap();
    let total: usize = cs.iter().map(|c| c.iter().len()).sum();
    assert_eq!(total, 6);
    for c in &cs {
        for p in c.iter() {
            let own = c.distance_from_centroid(*p);
            for other in &cs {
                if other.iter().len() > 0 {
                    assert!(own <= other.distance_from_centroid(*p));
                }
            }
        }
    }
}
