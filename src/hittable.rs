//! Hit records, the nearest-hit scan over a list of objects, and its meaning.
use vstd::prelude::*;
use std::ops::Range;

use crate::aabb::{Aabb, lemma_obj_hit_in_interval, lemma_obj_hit_narrow, obj_hit};
use crate::ratio::{Ratio, lemma_le_trans, lemma_lt_le_trans, lemma_total};
use crate::vec3::Ray;

verus! {

/// Where a ray met an object: the ray parameter, and the object that was met.
#[derive(Clone, Copy, Debug, PartialEq, Eq, Structural)]
pub struct HitRecord {
    pub t: Ratio,
    pub object: Aabb,
}

/// Every object is a well-formed box.
pub open spec fn all_wf(objs: Seq<Aabb>) -> bool {
    forall|o: Aabb| objs.contains(o) ==> o.wf()
}

/// The linear scan: each object is tested on the interval that ends at the
/// best hit found so far, and a later object replaces it only when strictly nearer.
pub open spec fn scan(objs: Seq<Aabb>, r: Ray, s: Ratio, e: Ratio) -> Option<HitRecord>
    decreases objs.len(),
{
    if objs.len() == 0 {
        None
    } else {
        let prev = scan(objs.drop_last(), r, s, e);
        let cur_e = match prev {
            Some(h) => h.t,
            None => e,
        };
        match obj_hit(objs.last(), r, s, cur_e) {
            Some(t) => Some(HitRecord { t, object: objs.last() }),
            None => prev,
        }
    }
}

/// `res` is a nearest hit among `objs` on the interval from `s` to `e`: no hit
/// when no object is met, else an object that is met, at a parameter no larger
/// than that of any other object met.
pub open spec fn is_nearest(
    objs: Seq<Aabb>,
    r: Ray,
    s: Ratio,
    e: Ratio,
    res: Option<HitRecord>,
) -> bool {
    match res {
        None => forall|o: Aabb| #[trigger] objs.contains(o) ==> obj_hit(o, r, s, e).is_none(),
        Some(h) => {
            &&& objs.contains(h.object)
            &&& obj_hit(h.object, r, s, e) == Some(h.t)
            &&& forall|o: Aabb| #[trigger]
                objs.contains(o) && obj_hit(o, r, s, e).is_some() ==> h.t.le(
                    obj_hit(o, r, s, e)->0,
                )
        },
    }
}

/// Two answers agree: both miss, or both hit at the same parameter value.
pub open spec fn same_answer(a: Option<HitRecord>, b: Option<HitRecord>) -> bool {
    match (a, b) {
        (None, None) => true,
        (Some(x), Some(y)) => x.t.same_value(y.t),
        _ => false,
    }
}

/// A hit that `is_nearest` describes lies in the interval.
pub proof fn lemma_nearest_in_interval(
    objs: Seq<Aabb>,
    r: Ray,
    s: Ratio,
    e: Ratio,
    res: Option<HitRecord>,
)
    requires
        all_wf(objs),
        r.wf(),
        s.wf(),
        e.wf(),
        is_nearest(objs, r, s, e, res),
        res.is_some(),
    ensures
        res->0.t.wf(),
        res->0.t.lt(e),
        s.le(res->0.t),
{
    lemma_obj_hit_in_interval(res->0.object, r, s, e);
}

/// The scan finds a nearest hit.
pub proof fn lemma_scan_is_nearest(objs: Seq<Aabb>, r: Ray, s: Ratio, e: Ratio)
    requires
        all_wf(objs),
        r.wf(),
        s.wf(),
        e.wf(),
    ensures
        is_nearest(objs, r, s, e, scan(objs, r, s, e)),
    decreases objs.len(),
{
    if objs.len() > 0 {
        let prefix = objs.drop_last();
        let o = objs.last();
        assert(objs =~= prefix.push(o));
        assert forall|x: Aabb| objs.contains(x) <==> prefix.contains(x) || x == o by {
            if prefix.contains(x) {
                let k = choose|k: int| 0 <= k < prefix.len() && prefix[k] == x;
                assert(objs[k] == x);
            }
            if objs.contains(x) && x != o {
                let k = choose|k: int| 0 <= k < objs.len() && objs[k] == x;
                assert(prefix[k] == x);
            }
            if x == o {
                assert(objs[objs.len() - 1] == x);
            }
        }
        assert(all_wf(prefix));
        assert(o.wf());
        lemma_scan_is_nearest(prefix, r, s, e);
        let prev = scan(prefix, r, s, e);
        match prev {
            None => {},
            Some(h) => {
                lemma_nearest_in_interval(prefix, r, s, e, prev);
                lemma_total(h.t, e);
                lemma_obj_hit_narrow(o, r, s, e, h.t);
                match obj_hit(o, r, s, e) {
                    Some(t) => {
                        lemma_obj_hit_in_interval(o, r, s, e);
                        if t.lt(h.t) {
                            assert forall|x: Aabb| #[trigger]
                                objs.contains(x) && obj_hit(x, r, s, e).is_some() implies t.le(
                                obj_hit(x, r, s, e)->0,
                            ) by {
                                if x != o {
                                    lemma_obj_hit_in_interval(x, r, s, e);
                                    lemma_lt_le_trans(t, h.t, obj_hit(x, r, s, e)->0);
                                }
                            }
                        } else {
                            lemma_total(t, h.t);
                        }
                    },
                    None => {},
                }
            },
        }
    }
}

/// Nearest hits over two lists that hold the same objects agree, whatever
/// the order of the lists.
pub proof fn lemma_nearest_unique(
    objs1: Seq<Aabb>,
    objs2: Seq<Aabb>,
    r: Ray,
    s: Ratio,
    e: Ratio,
    res1: Option<HitRecord>,
    res2: Option<HitRecord>,
)
    requires
        forall|o: Aabb| objs1.contains(o) <==> objs2.contains(o),
        is_nearest(objs1, r, s, e, res1),
        is_nearest(objs2, r, s, e, res2),
    ensures
        same_answer(res1, res2),
{
    match (res1, res2) {
        (Some(h1), Some(h2)) => {
            assert(objs1.contains(h2.object));
            assert(objs2.contains(h1.object));
        },
        (Some(h1), None) => {
            assert(objs2.contains(h1.object));
        },
        (None, Some(h2)) => {
            assert(objs1.contains(h2.object));
        },
        (None, None) => {},
    }
}

/// A list of objects, with the box that bounds them all.
#[derive(Clone, Debug)]
pub struct HittableList {
    objects: Vec<Aabb>,
    bounding_box: Option<Aabb>,
}

impl View for HittableList {
    type V = Seq<Aabb>;

    /// The objects, in the order they were added.
    closed spec fn view(&self) -> Seq<Aabb> {
        self.objects@
    }
}

impl HittableList {
    /// Every object well formed, and the bounding box present exactly when
    /// there are objects, containing each of them.
    pub closed spec fn wf(&self) -> bool {
        &&& all_wf(self.objects@)
        &&& (self.bounding_box.is_some() <==> self.objects@.len() > 0)
        &&& match self.bounding_box {
            Some(bb) => bb.wf() && forall|o: Aabb| #[trigger]
                self.objects@.contains(o) ==> bb.contains_box(o),
            None => true,
        }
    }

    pub closed spec fn bounds(&self) -> Option<Aabb> {
        self.bounding_box
    }

    pub fn new() -> (r: HittableList)
        ensures
            r.wf(),
            r@ == Seq::<Aabb>::empty(),
    {
        HittableList { objects: Vec::new(), bounding_box: None }
    }

    /// The objects, in the order they were added.
    pub fn into_objects(self) -> (r: Vec<Aabb>)
        requires
            self.wf(),
        ensures
            r@ == self@,
            all_wf(r@),
    {
        self.objects
    }

    /// The box that bounds every object, if there is any object.
    pub fn bounding_box(&self) -> (r: Option<Aabb>)
        requires
            self.wf(),
        ensures
            r == self.bounds(),
            r.is_some() <==> self@.len() > 0,
            r matches Some(bb) ==> bb.wf() && forall|o: Aabb| #[trigger]
                self@.contains(o) ==> bb.contains_box(o),
    {
        self.bounding_box
    }

    /// Appends an object and grows the bounding box to cover it.
    pub fn add(&mut self, object: Aabb)
        requires
            old(self).wf(),
            object.wf(),
        ensures
            final(self).wf(),
            final(self)@ == old(self)@.push(object),
            final(self).bounds() == (match old(self).bounds() {
                Some(bb) => Some(bb.merged(object)),
                None => Some(object),
            }),
    {
        let ghost old_objs = self.objects@;
        let new_box = match &self.bounding_box {
            Some(bb) => bb.merge(&object),
            None => object,
        };
        self.bounding_box = Some(new_box);
        self.objects.push(object);
        proof {
            assert forall|o: Aabb| #[trigger] self.objects@.contains(o) implies o == object
                || old_objs.contains(o) by {
                if o != object {
                    let k = choose|k: int| 0 <= k < self.objects@.len() && self.objects@[k] == o;
                    assert(old_objs[k] == o);
                }
            }
            assert(self.objects@[old_objs.len() as int] == object);
        }
    }

    /// The nearest object that the ray meets inside `interval`.
    pub fn hit(&self, r: &Ray, interval: &Range<Ratio>) -> (res: Option<HitRecord>)
        requires
            self.wf(),
            r.wf(),
            interval.start.wf(),
            interval.end.wf(),
        ensures
            res == scan(self@, *r, interval.start, interval.end),
            is_nearest(self@, *r, interval.start, interval.end, res),
    {
        let ghost objs = self.objects@;
        let ghost s = interval.start;
        let ghost e = interval.end;
        let mut output: Option<HitRecord> = None;
        let mut check_interval = Range { start: interval.start, end: interval.end };
        let mut i: usize = 0;
        while i < self.objects.len()
            invariant
                i <= objs.len(),
                objs == self.objects@,
                all_wf(objs),
                r.wf(),
                s.wf(),
                e.wf(),
                s == interval.start,
                e == interval.end,
                check_interval.start == s,
                output == scan(objs.take(i as int), *r, s, e),
                check_interval.end == (match output {
                    Some(h) => h.t,
                    None => e,
                }),
                check_interval.end.wf(),
            decreases objs.len() - i,
        {
            let ghost prefix = objs.take(i as int);
            let ghost next = objs.take(i + 1);
            proof {
                assert(next.drop_last() =~= prefix);
                assert(next.last() == objs[i as int]);
                assert(objs.contains(objs[i as int]));
                assert(all_wf(prefix)) by {
                    assert forall|o: Aabb| prefix.contains(o) implies o.wf() by {
                        let k = choose|k: int| 0 <= k < prefix.len() && prefix[k] == o;
                        assert(objs[k] == o);
                    }
                }
            }
            let ghost old_end = check_interval.end;
            let object = &self.objects[i];
            match object.entry(r, &check_interval) {
                Some(t) => {
                    proof {
                        lemma_obj_hit_in_interval(*object, *r, s, check_interval.end);
                    }
                    check_interval = Range { start: interval.start, end: t };
                    output = Some(HitRecord { t, object: *object });
                },
                None => {},
            }
            proof {
                assert(scan(next, *r, s, e) == (match obj_hit(objs[i as int], *r, s, old_end) {
                    Some(t) => Some(HitRecord { t, object: objs[i as int] }),
                    None => scan(prefix, *r, s, e),
                }));
            }
            i += 1;
        }
        proof {
            assert(objs.take(objs.len() as int) =~= objs);
            lemma_scan_is_nearest(objs, *r, s, e);
        }
        output
    }
}

} // verus!
