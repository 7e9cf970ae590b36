use ray_tracing::itertools::{CartesianProduct, Itertools};

#[test]
fn test_cartesian_product() {
    let a = vec![1, 2, 3];
    let b = vec![4, 5, 6];
    let c = a.cartesian_product(b);
    assert_eq!(
        c.collect_vec(),
        vec![
            (1, 4),
            (1, 5),
            (1, 6),
            (2, 4),
            (2, 5),
            (2, 6),
            (3, 4),
            (3, 5),
            (3, 6)
        ]
    );
}

#[test]
fn test_cartesian_product_empty() {
    let a: Vec<i32> = vec![];
    let b: Vec<i32> = vec![];
    let c = a.cartesian_product(b);
    assert_eq!(c.collect_vec(), vec![]);
}

#[test]
fn test_cartesian_product_empty_a() {
    let a: Vec<i32> = vec![];
    let b = vec![4, 5, 6];
    let c = a.cartesian_product(b);
    assert_eq!(c.collect_vec(), vec![]);
}

#[test]
fn test_cartesian_product_empty_b() {
    let a = vec![1, 2, 3];
    let b: Vec<i32> = vec![];
    let c = a.cartesian_product(b);
    assert_eq!(c.collect_vec(), vec![]);
}

#[test]
fn cartesian_product_steps_then_stays_exhausted() {
    let mut c = CartesianProduct::new(vec![0usize, 1], vec!['x', 'y']);
    assert_eq!(c.next(), Some((0, 'x')));
    assert_eq!(c.next(), Some((0, 'y')));
    assert_eq!(c.next(), Some((1, 'x')));
    assert_eq!(c.next(), Some((1, 'y')));
    assert_eq!(c.next(), None);
    assert_eq!(c.next(), None);
}

#[test]
fn cartesian_product_rest_after_partial_use() {
    let mut c = CartesianProduct::new(vec![7u8, 8], vec![1u8, 2, 3]);
    assert_eq!(c.next(), Some((7, 1)));
    assert_eq!(c.collect_vec(), vec![(7, 2), (7, 3), (8, 1), (8, 2), (8, 3)]);
}
