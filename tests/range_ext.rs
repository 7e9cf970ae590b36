use std::ops::Range;

use ray_tracing::extension_traits::RangeExt;

#[test]
fn test_overlap() {
    let range1: Range<i64> = 0..10;
    let range2: Range<i64> = 5..15;
    let merged = range1.merge(&range2);
    assert_eq!(merged, 0..15);
}

#[test]
fn test_no_overlap() {
    let range1: Range<i64> = 0..10;
    let range2: Range<i64> = 15..20;
    let merged = range1.merge(&range2);
    assert_eq!(merged, 0..20);
}

#[test]
fn test_contained() {
    let range1: Range<i64> = 0..15;
    let range2: Range<i64> = 5..10;
    let merged = range1.merge(&range2);
    assert_eq!(merged, 0..15);
}

#[test]
fn merge_with_negative_and_reversed_order() {
    let a: Range<i64> = -7..3;
    let b: Range<i64> = -2..9;
    assert_eq!(b.merge(&a), -7..9);
    assert_eq!(a.merge(&b), b.merge(&a));
}
