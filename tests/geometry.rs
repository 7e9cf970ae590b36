use std::ops::Range;

use ray_tracing::aabb::Aabb;
use ray_tracing::ratio::Ratio;
use ray_tracing::vec3::{Ray, Vec3};

fn cube(x0: i64, y0: i64, z0: i64, x1: i64, y1: i64, z1: i64) -> Aabb {
    Aabb::new(Vec3::new(x0, y0, z0), Vec3::new(x1, y1, z1))
}

fn span(a: i64, b: i64) -> Range<Ratio> {
    Ratio::from_int(a)..Ratio::from_int(b)
}

#[test]
fn ratio_comparisons_use_values() {
    let half = Ratio::new(1, 2);
    let two_quarters = Ratio::new(2, 4);
    let two_thirds = Ratio::new(2, 3);
    assert!(half.less_than(&two_thirds));
    assert!(!two_thirds.less_than(&half));
    assert!(!half.less_than(&two_quarters));
    assert!(half.less_or_equal(&two_quarters));
    assert!(two_quarters.less_or_equal(&half));
    assert!(Ratio::new(-3, 2).less_than(&Ratio::from_int(-1)));
}

#[test]
fn new_orders_corners() {
    let b = cube(5, -1, 3, 2, 4, -6);
    assert_eq!(b.min, Vec3::new(2, -1, -6));
    assert_eq!(b.max, Vec3::new(5, 4, 3));
    assert_eq!(b.axis(0), 2..5);
    assert_eq!(b.axis(1), -1..4);
    assert_eq!(b.axis(2), -6..3);
}

#[test]
fn merge_is_componentwise_union() {
    let a = cube(0, 0, 0, 2, 2, 2);
    let b = cube(1, -3, 5, 4, 1, 6);
    let m = a.merge(&b);
    assert_eq!(m, cube(0, -3, 0, 4, 2, 6));
    assert_eq!(b.merge(&a), m);
}

#[test]
fn merge_contains_both_and_is_smallest() {
    let a = cube(-4, 0, 1, -1, 3, 2);
    let b = cube(2, 2, 2, 3, 9, 3);
    let m = a.merge(&b);
    for axis in 0..3 {
        let (ma, aa, ba) = (m.axis(axis), a.axis(axis), b.axis(axis));
        assert!(ma.start <= aa.start && aa.end <= ma.end);
        assert!(ma.start <= ba.start && ba.end <= ma.end);
        assert!(ma.start == aa.start || ma.start == ba.start);
        assert!(ma.end == aa.end || ma.end == ba.end);
    }
}

#[test]
fn longest_axis_prefers_the_last_of_equals() {
    assert_eq!(cube(0, 0, 0, 5, 1, 1).longest_axis(), 0);
    assert_eq!(cube(0, 0, 0, 1, 5, 1).longest_axis(), 1);
    assert_eq!(cube(0, 0, 0, 5, 5, 1).longest_axis(), 1);
    assert_eq!(cube(0, 0, 0, 4, 4, 4).longest_axis(), 2);
}

#[test]
fn slab_test_reports_entry_parameter() {
    let b = cube(0, 0, 0, 10, 10, 10);
    let r = Ray::new(Vec3::new(-10, 5, 5), Vec3::new(1, 0, 0));
    assert_eq!(b.entry(&r, &span(0, 1000)), Some(Ratio::new(10, 1)));
    assert!(b.hit(&r, &span(0, 1000)));
    let slow = Ray::new(Vec3::new(-10, 5, 5), Vec3::new(2, 0, 0));
    assert_eq!(b.entry(&slow, &span(0, 1000)), Some(Ratio::new(10, 2)));
}

#[test]
fn slab_test_respects_interval() {
    let b = cube(0, 0, 0, 10, 10, 10);
    let r = Ray::new(Vec3::new(-10, 5, 5), Vec3::new(1, 0, 0));
    assert!(!b.hit(&r, &span(0, 10)));
    assert!(b.hit(&r, &span(0, 11)));
    assert!(!b.hit(&r, &span(20, 30)));
    assert_eq!(b.entry(&r, &span(15, 30)), Some(Ratio::from_int(15)));
}

#[test]
fn slab_test_negative_direction() {
    let b = cube(0, 0, 0, 10, 10, 10);
    let r = Ray::new(Vec3::new(30, 5, 5), Vec3::new(-1, 0, 0));
    assert_eq!(b.entry(&r, &span(0, 100)), Some(Ratio::new(20, 1)));
    let away = Ray::new(Vec3::new(30, 5, 5), Vec3::new(1, 0, 0));
    assert!(!b.hit(&away, &span(0, 100)));
}

#[test]
fn slab_test_diagonal_miss_and_hit() {
    let b = cube(0, 0, 0, 10, 10, 10);
    let hit = Ray::new(Vec3::new(-5, -5, 5), Vec3::new(1, 1, 0));
    assert_eq!(b.entry(&hit, &span(0, 100)), Some(Ratio::new(5, 1)));
    let miss = Ray::new(Vec3::new(-5, 20, 5), Vec3::new(1, 1, 0));
    assert!(!b.hit(&miss, &span(0, 100)));
}

#[test]
fn parallel_ray_outside_a_slab_misses() {
    let b = cube(0, 0, 0, 10, 10, 10);
    let above = Ray::new(Vec3::new(-10, 20, 5), Vec3::new(1, 0, 0));
    assert!(!b.hit(&above, &span(-1000, 1000)));
    let below = Ray::new(Vec3::new(5, 5, -3), Vec3::new(0, 1, 0));
    assert!(!b.hit(&below, &span(-1000, 1000)));
    let on_face = Ray::new(Vec3::new(-10, 10, 5), Vec3::new(1, 0, 0));
    assert!(b.hit(&on_face, &span(-1000, 1000)));
}

#[test]
fn ray_starting_inside_enters_at_interval_start() {
    let b = cube(0, 0, 0, 10, 10, 10);
    let r = Ray::new(Vec3::new(5, 5, 5), Vec3::new(0, 0, 3));
    assert_eq!(b.entry(&r, &span(1, 100)), Some(Ratio::from_int(1)));
}

#[test]
fn extreme_coordinates_stay_exact() {
    let m = 0x4000_0000i64;
    let b = cube(-m, -m, -m, m, m, m);
    let r = Ray::new(Vec3::new(-m, 0, 0), Vec3::new(m, 1, 0));
    let far = Ratio::new(0x8000_0000, 1);
    assert_eq!(b.entry(&r, &(Ratio::from_int(0)..far)), Some(Ratio::from_int(0)));
    let outside = Ray::new(Vec3::new(-m, -m, -m), Vec3::new(-m, -m, -m));
    assert!(!b.hit(&outside, &(Ratio::new(1, 0x8000_0000)..far)));
    let through = Ray::new(Vec3::new(m, m, m), Vec3::new(-m, -m, -m));
    assert_eq!(b.entry(&through, &(Ratio::from_int(0)..far)), Some(Ratio::from_int(0)));
    assert!(b.hit(&through, &(Ratio::new(1, 2)..far)));
    assert!(!b.hit(&through, &(Ratio::new(2, 1)..far)));
}
