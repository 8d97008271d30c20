use circle_pairs::circle::{count_intersections, count_intersections_sq, isqrt, Circle};
use circle_pairs::pairs::PairsIter;

#[test]
fn test_intersections_agree() {
    let mut circles: Vec<Circle> = Vec::new();
    for _ in 0..1000 {
        circles.push(Circle::random());
    }
    let mut it = PairsIter::new(&circles);
    while let Some((c1, c2)) = it.next() {
        let i1 = c1.intersects(c2);
        let i2 = c1.intersects_sq(c2);

        assert_eq!(i1, i2);
    }
}

#[test]
fn test_counts_agree_on_random_circles() {
    let mut circles: Vec<Circle> = Vec::new();
    for _ in 0..200 {
        circles.push(Circle::random());
    }
    assert_eq!(
        count_intersections(&circles),
        count_intersections_sq(&circles)
    );
}

#[test]
fn test_counts_concrete() {
    // A and B overlap; C is far away from both
    let a = Circle::new(0, 0, 300);
    let b = Circle::new(400, 0, 200);
    let c = Circle::new(10_000, 0, 100);
    let circles = [a, b, c];
    assert_eq!(count_intersections(&circles), 1);
    assert_eq!(count_intersections_sq(&circles), 1);
}

#[test]
fn test_touching_circles_do_not_intersect() {
    // centres 500 apart, radii 300 and 200: touching in exactly one point
    let a = Circle::new(0, 0, 300);
    let b = Circle::new(500, 0, 200);
    assert_eq!(a.dist_sq(&b), 250_000);
    assert_eq!(a.dist(&b), 500);
    assert!(!a.intersects(&b));
    assert!(!a.intersects_sq(&b));
}

#[test]
fn test_overlapping_circles_intersect() {
    let a = Circle::new(0, 0, 300);
    let b = Circle::new(400, 0, 200);
    assert!(a.intersects(&b));
    assert!(a.intersects_sq(&b));
}

#[test]
fn test_disjoint_circles_do_not_intersect() {
    let a = Circle::new(0, 0, 300);
    let b = Circle::new(900, 0, 200);
    assert!(!a.intersects(&b));
    assert!(!a.intersects_sq(&b));
}

#[test]
fn test_distances() {
    // a 3-4-5 triangle, scaled by one hundred
    let a = Circle::new(0, 0, 10);
    let b = Circle::new(300, 400, 10);
    assert_eq!(a.dist_sq(&b), 250_000);
    assert_eq!(a.dist(&b), 500);
    // the floor of a distance that is no whole number
    let c = Circle::new(1, 1, 10);
    assert_eq!(a.dist_sq(&c), 2);
    assert_eq!(a.dist(&c), 1);
}

#[test]
fn test_symmetry() {
    let a = Circle::new(-250, 125, 300);
    let b = Circle::new(400, -75, 150);
    assert_eq!(a.dist_sq(&b), b.dist_sq(&a));
    assert_eq!(a.dist(&b), b.dist(&a));
    assert_eq!(a.intersects(&b), b.intersects(&a));
    assert_eq!(a.intersects_sq(&b), b.intersects_sq(&a));
}

#[test]
fn test_isqrt_exact() {
    assert_eq!(isqrt(0), 0);
    assert_eq!(isqrt(1), 1);
    assert_eq!(isqrt(3), 1);
    assert_eq!(isqrt(4), 2);
    assert_eq!(isqrt(99), 9);
    assert_eq!(isqrt(100), 10);
    assert_eq!(isqrt(u64::MAX), 4_294_967_295);
}

#[test]
fn test_random_circles_in_expected_ranges() {
    for _ in 0..100 {
        let c = Circle::random();
        assert!(0 <= c.x && c.x < 10_000);
        assert!(0 <= c.y && c.y < 10_000);
        assert!(100 <= c.r && c.r < 1_000);
    }
}

#[test]
fn test_negative_radii_may_disagree() {
    // with a negative summed radius the squared predicate can hold while
    // the distance predicate never does; the agreement law asks for
    // non-negative radii
    let a = Circle::new(0, 0, -700);
    let b = Circle::new(100, 0, 200);
    assert!(!a.intersects(&b));
    assert!(a.intersects_sq(&b));
}
