use std::ops::Range;

use ray_tracing::aabb::Aabb;
use ray_tracing::bvh_node::{sort_on_axis, BvhNode};
use ray_tracing::hittable::{HitRecord, HittableList};
use ray_tracing::ratio::Ratio;
use ray_tracing::vec3::{Ray, Vec3};

fn cube(x0: i64, y0: i64, z0: i64, x1: i64, y1: i64, z1: i64) -> Aabb {
    Aabb::new(Vec3::new(x0, y0, z0), Vec3::new(x1, y1, z1))
}

fn span(a: i64, b: i64) -> Range<Ratio> {
    Ratio::from_int(a)..Ratio::from_int(b)
}

fn row() -> Vec<Aabb> {
    vec![cube(5, 0, 0, 6, 2, 2), cube(2, 0, 0, 3, 2, 2), cube(8, 0, 0, 9, 2, 2)]
}

fn scene() -> Vec<Aabb> {
    let mut objects = Vec::new();
    for i in 0..4i64 {
        for j in 0..3i64 {
            let x = i * 10 + j;
            let y = j * 7 - i;
            objects.push(cube(x, y, -2, x + 3, y + 4, 2 + i));
        }
    }
    objects
}

fn rays() -> Vec<Ray> {
    let mut rays = Vec::new();
    for dx in [-3i64, -1, 0, 1, 2, 5] {
        for dy in [-2i64, 0, 1, 3] {
            for dz in [-1i64, 0, 1] {
                if dx != 0 || dy != 0 || dz != 0 {
                    rays.push(Ray::new(Vec3::new(15, 5, 0), Vec3::new(dx, dy, dz)));
                    rays.push(Ray::new(Vec3::new(-20, -3, 1), Vec3::new(dx, dy, dz)));
                }
            }
        }
    }
    rays
}

fn list_of(objects: &[Aabb]) -> HittableList {
    let mut list = HittableList::new();
    for o in objects {
        list.add(*o);
    }
    list
}

#[test]
fn list_finds_nearest_not_first() {
    let list = list_of(&row());
    let r = Ray::new(Vec3::new(-10, 1, 1), Vec3::new(1, 0, 0));
    assert_eq!(
        list.hit(&r, &span(0, 1000)),
        Some(HitRecord { t: Ratio::from_int(12), object: cube(2, 0, 0, 3, 2, 2) })
    );
    assert_eq!(list.hit(&r, &span(0, 12)), None);
    assert_eq!(list.bounding_box(), Some(cube(2, 0, 0, 9, 2, 2)));
}

#[test]
fn empty_list_has_no_box_and_no_hit() {
    let list = HittableList::new();
    let r = Ray::new(Vec3::new(0, 0, 0), Vec3::new(1, 0, 0));
    assert_eq!(list.bounding_box(), None);
    assert_eq!(list.hit(&r, &span(0, 1000)), None);
}

#[test]
fn bvh_finds_nearest() {
    let bvh = BvhNode::new(row());
    let r = Ray::new(Vec3::new(-10, 1, 1), Vec3::new(1, 0, 0));
    assert_eq!(
        bvh.hit(&r, &span(0, 1000)),
        Some(HitRecord { t: Ratio::from_int(12), object: cube(2, 0, 0, 3, 2, 2) })
    );
    let back = Ray::new(Vec3::new(20, 1, 1), Vec3::new(-1, 0, 0));
    assert_eq!(bvh.hit(&back, &span(0, 1000)).map(|h| h.t), Some(Ratio::from_int(11)));
    assert_eq!(bvh.bounding_box(), cube(2, 0, 0, 9, 2, 2));
}

#[test]
fn bvh_single_and_pair() {
    let one = BvhNode::new(vec![cube(0, 0, 0, 1, 1, 1)]);
    let r = Ray::new(Vec3::new(-1, 0, 0), Vec3::new(2, 1, 1));
    assert_eq!(one.hit(&r, &span(0, 10)).map(|h| h.t), Some(Ratio::new(1, 2)));
    let two = BvhNode::new(vec![cube(4, 0, 0, 5, 1, 1), cube(0, 0, 0, 1, 1, 1)]);
    let along = Ray::new(Vec3::new(-1, 0, 0), Vec3::new(1, 0, 0));
    assert_eq!(two.hit(&along, &span(0, 10)).map(|h| h.object), Some(cube(0, 0, 0, 1, 1, 1)));
    assert_eq!(two.bounding_box(), cube(0, 0, 0, 5, 1, 1));
}

#[test]
fn bvh_agrees_with_linear_scan() {
    let objects = scene();
    let bvh = BvhNode::new(objects.clone());
    let list = list_of(&objects);
    let mut hits = 0;
    for r in rays() {
        for (a, b) in [(0, 1000), (1, 30), (0, 8)] {
            let from_bvh = bvh.hit(&r, &span(a, b));
            let from_list = list.hit(&r, &span(a, b));
            assert_eq!(from_bvh.map(|h| h.t), from_list.map(|h| h.t));
            if from_bvh.is_some() {
                hits += 1;
            }
        }
    }
    assert!(hits > 10);
}

#[test]
fn bvh_answers_do_not_depend_on_input_order() {
    let objects = scene();
    let mut reversed = objects.clone();
    reversed.reverse();
    let mut rotated = objects.clone();
    rotated.rotate_left(5);
    let a = BvhNode::new(objects);
    let b = BvhNode::new(reversed);
    let c = BvhNode::from_list(list_of(&rotated));
    for r in rays() {
        let ha = a.hit(&r, &span(0, 1000)).map(|h| h.t);
        assert_eq!(ha, b.hit(&r, &span(0, 1000)).map(|h| h.t));
        assert_eq!(ha, c.hit(&r, &span(0, 1000)).map(|h| h.t));
    }
}

#[test]
fn sort_on_axis_is_stable_and_ordered() {
    let objects = vec![
        cube(3, 0, 0, 4, 1, 1),
        cube(1, 5, 0, 2, 6, 1),
        cube(3, 2, 0, 9, 3, 1),
        cube(0, 1, 0, 1, 2, 1),
    ];
    let by_x = sort_on_axis(&objects, 0);
    assert_eq!(by_x, vec![objects[3], objects[1], objects[0], objects[2]]);
    let by_y = sort_on_axis(&objects, 1);
    assert_eq!(by_y, vec![objects[0], objects[3], objects[2], objects[1]]);
}

fn sorted(mut objects: Vec<Aabb>) -> Vec<(i64, i64, i64, i64, i64, i64)> {
    let mut keys: Vec<_> = objects
        .drain(..)
        .map(|b| (b.min.x, b.min.y, b.min.z, b.max.x, b.max.y, b.max.z))
        .collect();
    keys.sort();
    keys
}

#[test]
fn bvh_holds_exactly_its_input() {
    let objects = scene();
    let bvh = BvhNode::new(objects.clone());
    assert_eq!(sorted(bvh.collect_objects()), sorted(objects.clone()));
    let mut duplicated = objects.clone();
    duplicated.push(objects[3]);
    let bvh = BvhNode::new(duplicated.clone());
    assert_eq!(bvh.collect_objects().len(), duplicated.len());
    assert_eq!(sorted(bvh.collect_objects()), sorted(duplicated));
}

#[test]
fn bvh_box_covers_every_object() {
    let objects = scene();
    let bvh = BvhNode::new(objects.clone());
    let bb = bvh.bounding_box();
    for o in &objects {
        assert!(bb.merge(o) == bb);
    }
}
