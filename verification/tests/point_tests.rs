use ml::centroid::Centroid;
use ml::point::{isqrt, Point};
use ml::Error;

#[test]
fn distance_exact_three_four_five() {
    let a = Point::new(0, 0);
    let b = Point::new(3, 4);
    assert_eq!(a.distance_sq(b), 25);
    assert_eq!(a.distance(b), 5);
}

#[test]
fn distance_rounds_down() {
    let a = Point::new(0, 0);
    let b = Point::new(1, 1);
    assert_eq!(a.distance_sq(b), 2);
    assert_eq!(a.distance(b), 1);
}

#[test]
fn distance_symmetric() {
    let a = Point::new(1, 2);
    let b = Point::new(-4, 14);
    assert_eq!(a.distance(b), b.distance(a));
    assert_eq!(a.distance_sq(b), b.distance_sq(a));
    assert_eq!(a.distance(b), 13);
}

#[test]
fn distance_to_self_is_zero() {
    let a = Point::new(-37, 12);
    assert_eq!(a.distance(a), 0);
    assert_eq!(a.distance_sq(a), 0);
}

#[test]
fn point_equality_is_exact() {
    assert_eq!(Point::new(3, -7), Point::new(3, -7));
    assert_ne!(Point::new(3, -7), Point::new(3, 7));
    assert_eq!(Point::origin(), Point::new(0, 0));
}

#[test]
fn add_is_componentwise() {
    let s = Point::new(1, 2).add(Point::new(30, -40));
    assert_eq!(s, Point::new(31, -38));
}

#[test]
fn divide_by_zero_fails() {
    assert!(matches!(Point::new(1, 2).divide(0), Err(Error::DivisionByZero)));
}

#[test]
fn divide_gives_exact_rational() {
    let c = Point::new(3, 4).divide(2).unwrap();
    assert_eq!((c.x_sum, c.y_sum, c.count), (3, 4, 2));
    // (3/2, 4/2) equals (6/4, 8/4) as values.
    let d = Point::new(6, 8).divide(4).unwrap();
    assert!(c.equals(&d));
    assert!(!c.equals(&Centroid::of_point(Point::new(1, 2))));
}

#[test]
fn isqrt_edge_values() {
    assert_eq!(isqrt(0), 0);
    assert_eq!(isqrt(1), 1);
    assert_eq!(isqrt(3), 1);
    assert_eq!(isqrt(4), 2);
    assert_eq!(isqrt(99), 9);
    assert_eq!(isqrt(100), 10);
    assert_eq!(isqrt(u64::MAX as u128), 0xffff_ffff);
}
