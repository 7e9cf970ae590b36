//! The bounding-volume hierarchy: a binary tree of boxes built once over a
//! list of objects, answering nearest-hit queries as the linear scan does.
//!
//! Split policy: each node sorts its objects by the low end of their boxes on
//! the longest axis of the union box, and splits them at the middle index.
use vstd::prelude::*;
use std::ops::Range;

use crate::aabb::{
    Aabb, box_hit, lemma_box_hit_grow, lemma_obj_hit_in_interval, lemma_obj_hit_narrow, obj_hit,
};
use crate::hittable::{
    HitRecord, HittableList, all_wf, is_nearest, lemma_nearest_in_interval, lemma_nearest_unique,
    lemma_scan_is_nearest, same_answer, scan,
};
use crate::ratio::{Ratio, lemma_le_lt_trans, lemma_lt_le_trans, lemma_total};
use crate::vec3::Ray;

verus! {

broadcast use vstd::seq_lib::group_to_multiset_ensures;

/// What a node holds: one object, or two subtrees.
#[derive(Debug)]
pub enum Children {
    One(Aabb),
    Two(Box<BvhNode>, Box<BvhNode>),
}

/// A node of the hierarchy, with the box that it caches over all its objects.
#[derive(Debug)]
pub struct BvhNode {
    children: Children,
    bounding_box: Aabb,
}

/// `a + b` holds exactly what `a` and `b` hold.
proof fn lemma_concat_contains(a: Seq<Aabb>, b: Seq<Aabb>)
    ensures
        forall|x: Aabb| #[trigger] (a + b).contains(x) <==> a.contains(x) || b.contains(x),
{
    assert forall|x: Aabb| #[trigger] (a + b).contains(x) <==> a.contains(x) || b.contains(x) by {
        if a.contains(x) {
            let k = choose|k: int| 0 <= k < a.len() && a[k] == x;
            assert((a + b)[k] == x);
        }
        if b.contains(x) {
            let k = choose|k: int| 0 <= k < b.len() && b[k] == x;
            assert((a + b)[a.len() + k] == x);
        }
        if (a + b).contains(x) {
            let k = choose|k: int| 0 <= k < (a + b).len() && (a + b)[k] == x;
            if k < a.len() {
                assert(a[k] == x);
            } else {
                assert(b[k - a.len()] == x);
            }
        }
    }
}

/// Two lists with the same multiset of objects hold the same objects.
proof fn lemma_same_multiset_contains(a: Seq<Aabb>, b: Seq<Aabb>)
    requires
        a.to_multiset() == b.to_multiset(),
    ensures
        forall|o: Aabb| #[trigger] a.contains(o) <==> b.contains(o),
{
    assert forall|o: Aabb| #[trigger] a.contains(o) <==> b.contains(o) by {
        vstd::seq_lib::to_multiset_contains(a, o);
        vstd::seq_lib::to_multiset_contains(b, o);
    }
}

impl BvhNode {
    /// The objects under this node, left to right.
    pub closed spec fn objects(self) -> Seq<Aabb>
        decreases self,
    {
        match self.children {
            Children::One(o) => seq![o],
            Children::Two(l, r) => (*l).objects() + (*r).objects(),
        }
    }

    /// The box cached at this node.
    pub closed spec fn bounds(self) -> Aabb {
        self.bounding_box
    }

    /// Every box well formed, and every node's box containing every object under it.
    pub closed spec fn wf(self) -> bool
        decreases self,
    {
        &&& self.bounding_box.wf()
        &&& all_wf(self.objects())
        &&& forall|o: Aabb| #[trigger]
            self.objects().contains(o) ==> self.bounding_box.contains_box(o)
        &&& match self.children {
            Children::One(_) => true,
            Children::Two(l, r) => (*l).wf() && (*r).wf(),
        }
    }

    /// The answer of a query: skip the node when the ray misses its box; else
    /// ask the left subtree, then the right one on the interval that ends at
    /// the left hit, and keep the right answer when there is one.
    pub closed spec fn hit_spec(self, r: Ray, s: Ratio, e: Ratio) -> Option<HitRecord>
        decreases self,
    {
        if !box_hit(self.bounding_box, r, s, e) {
            None
        } else {
            match self.children {
                Children::One(o) => match obj_hit(o, r, s, e) {
                    Some(t) => Some(HitRecord { t, object: o }),
                    None => None,
                },
                Children::Two(left, right) => {
                    let lh = (*left).hit_spec(r, s, e);
                    let end = match lh {
                        Some(h) => h.t,
                        None => e,
                    };
                    let rh = (*right).hit_spec(r, s, end);
                    if rh.is_some() {
                        rh
                    } else {
                        lh
                    }
                },
            }
        }
    }

    /// A query answers with a nearest hit among the node's objects.
    pub proof fn lemma_hit_is_nearest(self, r: Ray, s: Ratio, e: Ratio)
        requires
            self.wf(),
            r.wf(),
            s.wf(),
            e.wf(),
        ensures
            is_nearest(self.objects(), r, s, e, self.hit_spec(r, s, e)),
        decreases self,
    {
        let objs = self.objects();
        if !box_hit(self.bounding_box, r, s, e) {
            assert forall|o: Aabb| #[trigger] objs.contains(o) implies obj_hit(
                o,
                r,
                s,
                e,
            ).is_none() by {
                if box_hit(o, r, s, e) {
                    lemma_box_hit_grow(self.bounding_box, o, r, s, e);
                }
            }
        } else {
            match self.children {
                Children::One(o) => {
                    assert(objs.contains(o)) by {
                        assert(objs[0] == o);
                    }
                    assert forall|x: Aabb| #[trigger] objs.contains(x) implies x == o by {
                        let k = choose|k: int| 0 <= k < objs.len() && objs[k] == x;
                    }
                },
                Children::Two(left, right) => {
                    let (l, rt) = (*left, *right);
                    lemma_concat_contains(l.objects(), rt.objects());
                    assert(all_wf(l.objects()));
                    assert(all_wf(rt.objects()));
                    l.lemma_hit_is_nearest(r, s, e);
                    let lh = l.hit_spec(r, s, e);
                    let end = match lh {
                        Some(h) => h.t,
                        None => e,
                    };
                    if lh.is_some() {
                        lemma_nearest_in_interval(l.objects(), r, s, e, lh);
                        lemma_total(end, e);
                    } else {
                        lemma_total(e, e);
                    }
                    rt.lemma_hit_is_nearest(r, s, end);
                    let rh = rt.hit_spec(r, s, end);
                    assert forall|o: Aabb| #[trigger] rt.objects().contains(o) implies obj_hit(
                        o,
                        r,
                        s,
                        end,
                    ) == (match obj_hit(o, r, s, e) {
                        Some(t) => if t.lt(end) {
                            Some(t)
                        } else {
                            None
                        },
                        None => None,
                    }) by {
                        lemma_obj_hit_narrow(o, r, s, e, end);
                    }
                    match rh {
                        Some(h) => {
                            lemma_nearest_in_interval(rt.objects(), r, s, end, rh);
                            assert forall|o: Aabb| #[trigger]
                                objs.contains(o) && obj_hit(o, r, s, e).is_some() implies h.t.le(
                                obj_hit(o, r, s, e)->0,
                            ) by {
                                let to = obj_hit(o, r, s, e)->0;
                                lemma_obj_hit_in_interval(o, r, s, e);
                                if l.objects().contains(o) {
                                    let hl = lh->0;
                                    lemma_nearest_in_interval(l.objects(), r, s, e, lh);
                                    lemma_lt_le_trans(h.t, hl.t, to);
                                } else {
                                    if !to.lt(end) {
                                        lemma_total(to, end);
                                        lemma_lt_le_trans(h.t, end, to);
                                    }
                                }
                            }
                        },
                        None => {
                            match lh {
                                Some(hl) => {
                                    assert forall|o: Aabb| #[trigger]
                                        objs.contains(o) && obj_hit(o, r, s, e).is_some() implies hl.t.le(
                                        obj_hit(o, r, s, e)->0,
                                    ) by {
                                        if rt.objects().contains(o) {
                                            lemma_total(obj_hit(o, r, s, e)->0, end);
                                        }
                                    }
                                },
                                None => {},
                            }
                        },
                    }
                },
            }
        }
    }
}


/// `objs` is ordered by the low end of the boxes on axis `axis`.
pub open spec fn sorted_on(objs: Seq<Aabb>, axis: int) -> bool {
    forall|i: int, j: int| 0 <= i < j < objs.len() ==> objs[i].lo(axis) <= objs[j].lo(axis)
}

/// A stable insertion sort of the objects by the low end of their boxes on `axis`.
pub fn sort_on_axis(objects: &Vec<Aabb>, axis: usize) -> (r: Vec<Aabb>)
    requires
        axis < 3,
    ensures
        r@.to_multiset() == objects@.to_multiset(),
        sorted_on(r@, axis as int),
{
    let mut out: Vec<Aabb> = Vec::new();
    let mut i: usize = 0;
    while i < objects.len()
        invariant
            i <= objects.len(),
            axis < 3,
            out@.to_multiset() == objects@.take(i as int).to_multiset(),
            sorted_on(out@, axis as int),
        decreases objects.len() - i,
    {
        let x = objects[i];
        let key = x.axis(axis).start;
        let mut pos: usize = out.len();
        while pos > 0 && out[pos - 1].axis(axis).start > key
            invariant
                pos <= out.len(),
                axis < 3,
                key == x.lo(axis as int),
                forall|k: int| pos <= k < out.len() ==> out@[k].lo(axis as int) > key,
            decreases pos,
        {
            pos -= 1;
        }
        let ghost before = out@;
        out.insert(pos, x);
        proof {
            assert(objects@.take(i + 1) =~= objects@.take(i as int).push(x));
            assert forall|a: int, b: int| 0 <= a < b < out@.len() implies out@[a].lo(axis as int)
                <= out@[b].lo(axis as int) by {
                if pos > 0 && a < pos && b > pos {
                    assert(before[pos - 1].lo(axis as int) <= key);
                }
                if pos > 0 && a < pos && b == pos {
                    assert(before[pos - 1].lo(axis as int) <= key);
                }
            }
        }
        i += 1;
    }
    proof {
        assert(objects@.take(objects.len() as int) =~= objects@);
    }
    out
}

impl BvhNode {
    fn leaf(object: Aabb) -> (r: BvhNode)
        requires
            object.wf(),
        ensures
            r.wf(),
            r.objects() == seq![object],
    {
        let r = BvhNode { children: Children::One(object), bounding_box: object };
        proof {
            assert forall|o: Aabb| #[trigger] r.objects().contains(o) implies o == object by {
                let k = choose|k: int| 0 <= k < r.objects().len() && r.objects()[k] == o;
            }
        }
        r
    }

    /// Builds the hierarchy over a non-empty list of objects.
    pub fn new(objects: Vec<Aabb>) -> (r: BvhNode)
        requires
            objects.len() > 0,
            all_wf(objects@),
        ensures
            r.wf(),
            r.objects().to_multiset() == objects@.to_multiset(),
        decreases objects@.len(),
    {
        let n = objects.len();
        if n == 1 {
            let o = objects[0];
            assert(objects@.contains(o)) by {
                assert(objects@[0] == o);
            }
            let r = Self::leaf(o);
            assert(objects@ =~= seq![o]);
            return r;
        }
        if n == 2 {
            let a = objects[0];
            let b = objects[1];
            assert(objects@.contains(a)) by {
                assert(objects@[0] == a);
            }
            assert(objects@.contains(b)) by {
                assert(objects@[1] == b);
            }
            let bounding_box = a.merge(&b);
            let left = Self::leaf(a);
            let right = Self::leaf(b);
            let r = BvhNode { children: Children::Two(Box::new(left), Box::new(right)), bounding_box };
            proof {
                assert(objects@ =~= seq![a] + seq![b]);
                lemma_concat_contains(seq![a], seq![b]);
                assert(r.objects() == seq![a] + seq![b]);
            }
            return r;
        }
        let mut bounding_box = objects[0];
        assert(objects@.contains(objects@[0]));
        let mut i: usize = 1;
        while i < n
            invariant
                1 <= i <= n,
                n == objects.len(),
                all_wf(objects@),
                bounding_box.wf(),
                forall|k: int| 0 <= k < i ==> bounding_box.contains_box(#[trigger] objects@[k]),
            decreases n - i,
        {
            assert(objects@.contains(objects@[i as int]));
            bounding_box = bounding_box.merge(&objects[i]);
            i += 1;
        }
        let axis = bounding_box.longest_axis();
        let mut left_objects = sort_on_axis(&objects, axis);
        let ghost all = left_objects@;
        proof {
            vstd::seq_lib::to_multiset_len(all);
            vstd::seq_lib::to_multiset_len(objects@);
        }
        let mid = n / 2;
        let right_objects = left_objects.split_off(mid);
        let ghost lo = left_objects@;
        let ghost ro = right_objects@;
        let ghost sorted = lo + ro;
        proof {
            assert(sorted =~= all);
            lemma_same_multiset_contains(sorted, objects@);
            lemma_concat_contains(left_objects@, right_objects@);
            assert forall|o: Aabb| sorted.contains(o) implies o.wf() && bounding_box.contains_box(o) by {
                assert(objects@.contains(o));
                let k = choose|k: int| 0 <= k < objects@.len() && objects@[k] == o;
            }
        }
        let left = Self::new(left_objects);
        let right = Self::new(right_objects);
        let r = BvhNode { children: Children::Two(Box::new(left), Box::new(right)), bounding_box };
        proof {
            vstd::seq_lib::lemma_multiset_commutative(left.objects(), right.objects());
            vstd::seq_lib::lemma_multiset_commutative(lo, ro);
            lemma_concat_contains(left.objects(), right.objects());
            lemma_same_multiset_contains(left.objects(), lo);
            lemma_same_multiset_contains(right.objects(), ro);
            assert(r.objects() == left.objects() + right.objects());
            assert forall|o: Aabb| #[trigger] r.objects().contains(o) implies o.wf()
                && bounding_box.contains_box(o) by {
                assert(sorted.contains(o));
            }
        }
        r
    }

    /// Builds the hierarchy over the objects of a non-empty list.
    pub fn from_list(list: HittableList) -> (r: BvhNode)
        requires
            list.wf(),
            list@.len() > 0,
        ensures
            r.wf(),
            r.objects().to_multiset() == list@.to_multiset(),
    {
        Self::new(list.into_objects())
    }

    /// The objects under this node, left to right.
    pub fn collect_objects(&self) -> (r: Vec<Aabb>)
        ensures
            r@ == self.objects(),
        decreases self,
    {
        match &self.children {
            Children::One(o) => {
                let mut r = Vec::new();
                r.push(*o);
                assert(r@ =~= seq![*o]);
                r
            },
            Children::Two(left, right) => {
                let mut r = left.collect_objects();
                let mut rest = right.collect_objects();
                r.append(&mut rest);
                r
            },
        }
    }

    /// The box that bounds every object under this node.
    pub fn bounding_box(&self) -> (r: Aabb)
        requires
            self.wf(),
        ensures
            r == self.bounds(),
            r.wf(),
            forall|o: Aabb| #[trigger] self.objects().contains(o) ==> r.contains_box(o),
    {
        self.bounding_box
    }

    /// The nearest object under this node that the ray meets inside `interval`.
    pub fn hit(&self, r: &Ray, interval: &Range<Ratio>) -> (res: Option<HitRecord>)
        requires
            self.wf(),
            r.wf(),
            interval.start.wf(),
            interval.end.wf(),
        ensures
            res == self.hit_spec(*r, interval.start, interval.end),
            is_nearest(self.objects(), *r, interval.start, interval.end, res),
        decreases self,
    {
        proof {
            self.lemma_hit_is_nearest(*r, interval.start, interval.end);
        }
        if !self.bounding_box.hit(r, interval) {
            return None;
        }
        match &self.children {
            Children::One(o) => match {
                assert(self.objects()[0] == *o);
                o.entry(r, interval)
            } {
                Some(t) => Some(HitRecord { t, object: *o }),
                None => None,
            },
            Children::Two(left, right) => {
                assert((**left).wf());
                assert(all_wf(left.objects()));
                let left_hit = left.hit(r, interval);
                let right_hit = match &left_hit {
                    Some(h) => {
                        proof {
                            lemma_nearest_in_interval(
                                left.objects(),
                                *r,
                                interval.start,
                                interval.end,
                                left_hit,
                            );
                        }
                        let narrowed = Range { start: interval.start, end: h.t };
                        right.hit(r, &narrowed)
                    },
                    None => right.hit(r, interval),
                };
                if right_hit.is_some() {
                    right_hit
                } else {
                    left_hit
                }
            },
        }
    }
}

/// Querying the hierarchy gives the same answer as the linear scan over the
/// same objects, in any order: both miss, or both hit at the same parameter.
pub proof fn lemma_bvh_matches_scan(tree: BvhNode, objs: Seq<Aabb>, r: Ray, s: Ratio, e: Ratio)
    requires
        tree.wf(),
        tree.objects().to_multiset() == objs.to_multiset(),
        r.wf(),
        s.wf(),
        e.wf(),
    ensures
        same_answer(tree.hit_spec(r, s, e), scan(objs, r, s, e)),
{
    lemma_same_multiset_contains(tree.objects(), objs);
    assert(all_wf(objs));
    tree.lemma_hit_is_nearest(r, s, e);
    lemma_scan_is_nearest(objs, r, s, e);
    lemma_nearest_unique(tree.objects(), objs, r, s, e, tree.hit_spec(r, s, e), scan(objs, r, s, e));
}

/// Two hierarchies over the same objects, whatever their shape, answer every
/// query alike.
pub proof fn lemma_bvh_answers_agree(t1: BvhNode, t2: BvhNode, r: Ray, s: Ratio, e: Ratio)
    requires
        t1.wf(),
        t2.wf(),
        t1.objects().to_multiset() == t2.objects().to_multiset(),
        r.wf(),
        s.wf(),
        e.wf(),
    ensures
        same_answer(t1.hit_spec(r, s, e), t2.hit_spec(r, s, e)),
{
    lemma_same_multiset_contains(t1.objects(), t2.objects());
    t1.lemma_hit_is_nearest(r, s, e);
    t2.lemma_hit_is_nearest(r, s, e);
    lemma_nearest_unique(t1.objects(), t2.objects(), r, s, e, t1.hit_spec(r, s, e), t2.hit_spec(r, s, e));
}

} // verus!
