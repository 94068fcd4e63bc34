use ml::centroid::Centroid;
use ml::cluster::Cluster;
use ml::point::Point;

#[test]
fn empty_cluster_has_origin_centroid() {
    let c = Cluster::empty();
    assert_eq!(c.iter().len(), 0);
    assert!(c.centroid().equals(&Centroid::of_point(Point::origin())));
}

#[test]
fn centroid_is_mean_after_any_adds() {
    let mut c = Cluster::empty();
    c.add(Point::new(1, 2));
    assert!(c.centroid().equals(&Centroid::of_point(Point::new(1, 2))));
    c.add(Point::new(3, 4));
    c.add(Point::new(5, 0));
    // Mean of (1,2), (3,4), (5,0) is exactly (3, 2).
    let got = c.centroid();
    assert_eq!((got.x_sum, got.y_sum, got.count), (9, 6, 3));
    assert!(got.equals(&Centroid::of_point(Point::new(3, 2))));
}

#[test]
fn centroid_mean_can_be_fractional() {
    let mut c = Cluster::empty();
    c.add(Point::new(0, 0));
    c.add(Point::new(0, 1));
    // Mean is exactly (0, 1/2).
    assert!(c.centroid().equals(&Centroid { x_sum: 0, y_sum: 1, count: 2 }));
}

#[test]
fn evict_all_returns_points_and_resets_centroid() {
    let mut c = Cluster::empty();
    c.add(Point::new(7, 8));
    c.add(Point::new(-1, 4));
    let out = c.evict_all();
    assert_eq!(out, vec![Point::new(7, 8), Point::new(-1, 4)]);
    assert_eq!(c.iter().len(), 0);
    assert!(c.centroid().equals(&Centroid::of_point(Point::origin())));
    // The mean restarts from the points added since the eviction.
    c.add(Point::new(9, 9));
    assert!(c.centroid().equals(&Centroid::of_point(Point::new(9, 9))));
}

#[test]
fn evict_all_on_empty_cluster() {
    let mut c = Cluster::empty();
    let out = c.evict_all();
    assert!(out.is_empty());
    assert!(c.centroid().equals(&Centroid::of_point(Point::origin())));
}

#[test]
fn gaussian_reports_generating_center() {
    let sample = vec![Point::new(0, 0), Point::new(10, 10)];
    let c = Cluster::gaussian(Point::new(5, 6), sample.clone());
    assert_eq!(c.iter().as_slice(), sample.as_slice());
    // The reported centroid is the given center, not the sample mean (5, 5).
    let got = c.centroid();
    assert_eq!((got.x_sum, got.y_sum, got.count), (5, 6, 1));
}

#[test]
fn gaussian_centroid_recomputed_on_first_add() {
    let sample = vec![Point::new(0, 0), Point::new(10, 10)];
    let mut c = Cluster::gaussian(Point::new(5, 6), sample);
    c.add(Point::new(1, 1));
    // Mean of (0,0), (10,10), (1,1): the cached center is replaced.
    let got = c.centroid();
    assert_eq!((got.x_sum, got.y_sum, got.count), (11, 11, 3));
}

#[test]
fn distance_from_centroid_exact() {
    let mut c = Cluster::empty();
    c.add(Point::new(0, 0));
    c.add(Point::new(0, 2));
    // Centroid is (0, 1); distance to (3, 1) is exactly 3.
    assert_eq!(c.distance_from_centroid(Point::new(3, 1)), 3);
}

#[test]
fn distance_from_centroid_rounds_down() {
    let mut c = Cluster::empty();
    c.add(Point::new(0, 0));
    c.add(Point::new(0, 1));
    // Centroid is (0, 1/2); distance to the origin is 1/2, so 0 rounded down.
    assert_eq!(c.distance_from_centroid(Point::new(0, 0)), 0);
    // Distance to (4, 2) is sqrt(16 + 9/4) = 4.27..., so 4 rounded down.
    assert_eq!(c.distance_from_centroid(Point::new(4, 2)), 4);
}

#[test]
fn iter_preserves_insertion_order() {
    let mut c = Cluster::empty();
    let pts = [Point::new(3, 1), Point::new(1, 3), Point::new(2, 2)];
    for p in pts {
        c.add(p);
    }
    assert_eq!(c.iter().as_slice(), &pts);
}
