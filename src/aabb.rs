//! Axis-aligned bounding boxes and the slab test.
use vstd::prelude::*;
use std::ops::Range;

use crate::extension_traits::{max_i64, min_i64, RangeExt};
use crate::ratio::{
    Ratio, lemma_le_lt_trans, lemma_le_refl, lemma_le_trans, lemma_lt_le_trans, lemma_same_den,
    lemma_total,
};
use crate::vec3::{Ray, Vec3};

verus! {

/// An axis-aligned box `[min.x, max.x] x [min.y, max.y] x [min.z, max.z]`.
#[derive(Clone, Copy, Debug, PartialEq, Eq, Structural)]
pub struct Aabb {
    pub min: Vec3,
    pub max: Vec3,
}

impl Aabb {
    pub open spec fn lo(self, i: int) -> i64 {
        self.min.comp(i)
    }

    pub open spec fn hi(self, i: int) -> i64 {
        self.max.comp(i)
    }

    /// Bounded corners, and `min <= max` on every axis.
    pub open spec fn wf(self) -> bool {
        &&& self.min.wf()
        &&& self.max.wf()
        &&& self.min.x <= self.max.x
        &&& self.min.y <= self.max.y
        &&& self.min.z <= self.max.z
    }

    /// Every point of `other` lies in `self`.
    pub open spec fn contains_box(self, other: Aabb) -> bool {
        &&& self.min.x <= other.min.x && other.max.x <= self.max.x
        &&& self.min.y <= other.min.y && other.max.y <= self.max.y
        &&& self.min.z <= other.min.z && other.max.z <= self.max.z
    }

    /// The componentwise union of two boxes.
    pub open spec fn merged(self, other: Aabb) -> Aabb {
        Aabb {
            min: Vec3 {
                x: min_i64(self.min.x, other.min.x),
                y: min_i64(self.min.y, other.min.y),
                z: min_i64(self.min.z, other.min.z),
            },
            max: Vec3 {
                x: max_i64(self.max.x, other.max.x),
                y: max_i64(self.max.y, other.max.y),
                z: max_i64(self.max.z, other.max.z),
            },
        }
    }

    pub open spec fn extent(self, i: int) -> int {
        self.hi(i) - self.lo(i)
    }

    /// The box spanned by two corners, in either order.
    pub fn new(a: Vec3, b: Vec3) -> (r: Aabb)
        requires
            a.wf(),
            b.wf(),
        ensures
            r.wf(),
            r.min == (Vec3 { x: min_i64(a.x, b.x), y: min_i64(a.y, b.y), z: min_i64(a.z, b.z) }),
            r.max == (Vec3 { x: max_i64(a.x, b.x), y: max_i64(a.y, b.y), z: max_i64(a.z, b.z) }),
    {
        let x = (a.x..b.x).merge(&(b.x..a.x));
        let y = (a.y..b.y).merge(&(b.y..a.y));
        let z = (a.z..b.z).merge(&(b.z..a.z));
        Aabb::from_ranges(x, y, z)
    }

    fn from_ranges(x: Range<i64>, y: Range<i64>, z: Range<i64>) -> (r: Aabb)
        ensures
            r.min == (Vec3 { x: x.start, y: y.start, z: z.start }),
            r.max == (Vec3 { x: x.end, y: y.end, z: z.end }),
    {
        Aabb { min: Vec3 { x: x.start, y: y.start, z: z.start }, max: Vec3 { x: x.end, y: y.end, z: z.end } }
    }

    /// The interval of axis `axis`; any index but 0, 1 or 2 is a caller error.
    pub fn axis(&self, axis: usize) -> (r: Range<i64>)
        requires
            axis < 3,
        ensures
            r.start == self.lo(axis as int),
            r.end == self.hi(axis as int),
    {
        self.min.axis(axis)..self.max.axis(axis)
    }

    /// The axis along which the box is widest; among equally wide axes, the last.
    pub fn longest_axis(&self) -> (r: usize)
        requires
            self.wf(),
        ensures
            r < 3,
            forall|i: int| 0 <= i < 3 ==> self.extent(i) <= self.extent(r as int),
            forall|i: int| r < i < 3 ==> self.extent(i) < self.extent(r as int),
    {
        let lx = self.max.x - self.min.x;
        let ly = self.max.y - self.min.y;
        let lz = self.max.z - self.min.z;
        if lz >= lx && lz >= ly {
            2
        } else if ly >= lx {
            1
        } else {
            0
        }
    }

    /// The smallest box that contains both boxes.
    pub fn merge(&self, other: &Aabb) -> (r: Aabb)
        requires
            self.wf(),
            other.wf(),
        ensures
            r == self.merged(*other),
            r.wf(),
            r.contains_box(*self),
            r.contains_box(*other),
    {
        let x = self.axis(0).merge(&other.axis(0));
        let y = self.axis(1).merge(&other.axis(1));
        let z = self.axis(2).merge(&other.axis(2));
        Aabb::from_ranges(x, y, z)
    }

    /// Slab test: whether the ray meets the box for some parameter inside `ray_t`,
    /// and if so the parameter at which it enters.
    pub fn entry(&self, r: &Ray, ray_t: &Range<Ratio>) -> (res: Option<Ratio>)
        requires
            self.wf(),
            r.wf(),
            ray_t.start.wf(),
            ray_t.end.wf(),
        ensures
            res == obj_hit(*self, *r, ray_t.start, ray_t.end),
    {
        let ghost b = *self;
        let mut s = ray_t.start;
        let mut e = ray_t.end;
        let mut i: usize = 0;
        while i < 3
            invariant
                i <= 3,
                b == *self,
                b.wf(),
                r.wf(),
                ray_t.start.wf(),
                ray_t.end.wf(),
                s == start_upto(b, *r, ray_t.start, i as nat),
                e == end_upto(b, *r, ray_t.end, i as nat),
                s.wf(),
                e.wf(),
                parallel_ok_upto(b, *r, i as int),
                any_active_upto(*r, i as int) ==> s.lt(e),
            decreases 3 - i,
        {
            let d = r.direction.axis(i);
            let o = r.origin.axis(i);
            let lo = self.min.axis(i);
            let hi = self.max.axis(i);
            if d == 0 {
                if o < lo || o > hi {
                    assert(!inside_slab(b, *r, i as int));
                    return None;
                }
                assert(any_active_upto(*r, (i + 1) as int) ==> any_active_upto(*r, i as int));
            } else {
                let near = if d > 0 {
                    Ratio { num: lo - o, den: d }
                } else {
                    Ratio { num: o - hi, den: -d }
                };
                let far = if d > 0 {
                    Ratio { num: hi - o, den: d }
                } else {
                    Ratio { num: o - lo, den: -d }
                };
                assert(near == near_of(b, *r, i as int));
                assert(far == far_of(b, *r, i as int));
                if s.less_than(&near) {
                    s = near;
                }
                if far.less_than(&e) {
                    e = far;
                }
                if e.less_or_equal(&s) {
                    proof {
                        lemma_start_mono(b, *r, ray_t.start, (i + 1) as nat, 3);
                        lemma_end_mono(b, *r, ray_t.end, (i + 1) as nat, 3);
                        lemma_upto_wf(b, *r, ray_t.start, ray_t.end, 3);
                        let big_s = start_upto(b, *r, ray_t.start, 3);
                        let big_e = end_upto(b, *r, ray_t.end, 3);
                        lemma_le_trans(big_e, e, s);
                        lemma_le_trans(big_e, s, big_s);
                        lemma_total(big_s, big_e);
                    }
                    return None;
                }
                proof {
                    lemma_total(s, e);
                }
            }
            i += 1;
        }
        assert(active(*r, 0) || active(*r, 1) || active(*r, 2));
        Some(s)
    }

    /// Slab test: whether the ray meets the box for some parameter inside `ray_t`.
    pub fn hit(&self, r: &Ray, ray_t: &Range<Ratio>) -> (res: bool)
        requires
            self.wf(),
            r.wf(),
            ray_t.start.wf(),
            ray_t.end.wf(),
        ensures
            res == box_hit(*self, *r, ray_t.start, ray_t.end),
    {
        self.entry(r, ray_t).is_some()
    }
}

/// The ray is not parallel to the slabs of axis `i`.
pub open spec fn active(r: Ray, i: int) -> bool {
    r.direction.comp(i) != 0
}

/// The ray's origin lies between the two planes of axis `i`.
pub open spec fn inside_slab(b: Aabb, r: Ray, i: int) -> bool {
    b.lo(i) <= r.origin.comp(i) <= b.hi(i)
}

/// Parameter at which the ray crosses the nearer plane of axis `i`.
pub open spec fn near_of(b: Aabb, r: Ray, i: int) -> Ratio {
    let d = r.direction.comp(i);
    let o = r.origin.comp(i);
    if d > 0 {
        Ratio { num: (b.lo(i) - o) as i64, den: d }
    } else {
        Ratio { num: (o - b.hi(i)) as i64, den: (-d) as i64 }
    }
}

/// Parameter at which the ray crosses the farther plane of axis `i`.
pub open spec fn far_of(b: Aabb, r: Ray, i: int) -> Ratio {
    let d = r.direction.comp(i);
    let o = r.origin.comp(i);
    if d > 0 {
        Ratio { num: (b.hi(i) - o) as i64, den: d }
    } else {
        Ratio { num: (o - b.lo(i)) as i64, den: (-d) as i64 }
    }
}

pub open spec fn start_step(b: Aabb, r: Ray, i: int, s: Ratio) -> Ratio {
    if active(r, i) && s.lt(near_of(b, r, i)) {
        near_of(b, r, i)
    } else {
        s
    }
}

pub open spec fn end_step(b: Aabb, r: Ray, i: int, e: Ratio) -> Ratio {
    if active(r, i) && far_of(b, r, i).lt(e) {
        far_of(b, r, i)
    } else {
        e
    }
}

/// Start of the parameter interval after clipping against the first `k` axes.
pub open spec fn start_upto(b: Aabb, r: Ray, s: Ratio, k: nat) -> Ratio
    decreases k,
{
    if k == 0 {
        s
    } else {
        start_step(b, r, k - 1, start_upto(b, r, s, (k - 1) as nat))
    }
}

/// End of the parameter interval after clipping against the first `k` axes.
pub open spec fn end_upto(b: Aabb, r: Ray, e: Ratio, k: nat) -> Ratio
    decreases k,
{
    if k == 0 {
        e
    } else {
        end_step(b, r, k - 1, end_upto(b, r, e, (k - 1) as nat))
    }
}

pub open spec fn parallel_ok_upto(b: Aabb, r: Ray, k: int) -> bool {
    forall|i: int| 0 <= i < k && !active(r, i) ==> #[trigger] inside_slab(b, r, i)
}

pub open spec fn any_active_upto(r: Ray, k: int) -> bool {
    exists|i: int| 0 <= i < k && #[trigger] active(r, i)
}

/// Parameter at which the ray enters the box, starting the search at `s`.
pub open spec fn entry_of(b: Aabb, r: Ray, s: Ratio) -> Ratio {
    start_upto(b, r, s, 3)
}

/// Parameter at which the ray leaves the box, ending the search at `e`.
pub open spec fn exit_of(b: Aabb, r: Ray, e: Ratio) -> Ratio {
    end_upto(b, r, e, 3)
}

/// The ray meets the box for a parameter in the interval from `s` to `e`.
pub open spec fn box_hit(b: Aabb, r: Ray, s: Ratio, e: Ratio) -> bool {
    parallel_ok_upto(b, r, 3) && entry_of(b, r, s).lt(exit_of(b, r, e))
}

/// The box as a solid object: where the ray first meets it within the interval.
pub open spec fn obj_hit(b: Aabb, r: Ray, s: Ratio, e: Ratio) -> Option<Ratio> {
    if box_hit(b, r, s, e) {
        Some(entry_of(b, r, s))
    } else {
        None
    }
}

proof fn lemma_slab_wf(b: Aabb, r: Ray, i: int)
    requires
        b.wf(),
        r.wf(),
        0 <= i < 3,
        active(r, i),
    ensures
        near_of(b, r, i).wf(),
        far_of(b, r, i).wf(),
{
}

proof fn lemma_upto_wf(b: Aabb, r: Ray, s: Ratio, e: Ratio, k: nat)
    requires
        b.wf(),
        r.wf(),
        s.wf(),
        e.wf(),
        k <= 3,
    ensures
        start_upto(b, r, s, k).wf(),
        end_upto(b, r, e, k).wf(),
    decreases k,
{
    if k > 0 {
        lemma_upto_wf(b, r, s, e, (k - 1) as nat);
        if active(r, k - 1) {
            lemma_slab_wf(b, r, k - 1);
        }
    }
}

proof fn lemma_start_mono(b: Aabb, r: Ray, s: Ratio, j: nat, k: nat)
    requires
        b.wf(),
        r.wf(),
        s.wf(),
        j <= k <= 3,
    ensures
        start_upto(b, r, s, j).le(start_upto(b, r, s, k)),
    decreases k,
{
    if j == k {
        lemma_le_refl(start_upto(b, r, s, j));
    } else {
        lemma_start_mono(b, r, s, j, (k - 1) as nat);
        lemma_upto_wf(b, r, s, s, k);
        lemma_upto_wf(b, r, s, s, (k - 1) as nat);
        lemma_upto_wf(b, r, s, s, j);
        let prev = start_upto(b, r, s, (k - 1) as nat);
        lemma_le_refl(prev);
        lemma_le_trans(start_upto(b, r, s, j), prev, start_upto(b, r, s, k));
    }
}

proof fn lemma_end_mono(b: Aabb, r: Ray, e: Ratio, j: nat, k: nat)
    requires
        b.wf(),
        r.wf(),
        e.wf(),
        j <= k <= 3,
    ensures
        end_upto(b, r, e, k).le(end_upto(b, r, e, j)),
    decreases k,
{
    if j == k {
        lemma_le_refl(end_upto(b, r, e, j));
    } else {
        lemma_end_mono(b, r, e, j, (k - 1) as nat);
        lemma_upto_wf(b, r, e, e, k);
        lemma_upto_wf(b, r, e, e, (k - 1) as nat);
        lemma_upto_wf(b, r, e, e, j);
        let prev = end_upto(b, r, e, (k - 1) as nat);
        lemma_le_refl(prev);
        lemma_total(far_of(b, r, k - 1), prev);
        lemma_le_trans(end_upto(b, r, e, k), prev, end_upto(b, r, e, j));
    }
}


/// Every active axis puts its near plane before `y`, among the first `k` axes.
pub open spec fn nears_before(b: Aabb, r: Ray, y: Ratio, k: int) -> bool {
    forall|i: int| 0 <= i < k && active(r, i) ==> #[trigger] near_of(b, r, i).lt(y)
}

/// Every active axis puts its far plane after `x`, among the first `k` axes.
pub open spec fn fars_after(b: Aabb, r: Ray, x: Ratio, k: int) -> bool {
    forall|i: int| 0 <= i < k && active(r, i) ==> x.lt(#[trigger] far_of(b, r, i))
}

/// The ray meets the box in the interval exactly when every entry comes
/// before every exit, counting `s` as an entry and `e` as an exit.
pub open spec fn entries_before_exits(b: Aabb, r: Ray, s: Ratio, e: Ratio) -> bool {
    &&& s.lt(e)
    &&& nears_before(b, r, e, 3)
    &&& fars_after(b, r, s, 3)
    &&& forall|i: int, j: int|
        0 <= i < 3 && 0 <= j < 3 && active(r, i) && active(r, j) ==> #[trigger] near_of(b, r, j).lt(
            #[trigger] far_of(b, r, i),
        )
}

proof fn lemma_start_before(b: Aabb, r: Ray, s: Ratio, y: Ratio, k: nat)
    requires
        b.wf(),
        r.wf(),
        s.wf(),
        y.wf(),
        k <= 3,
    ensures
        start_upto(b, r, s, k).lt(y) <==> (s.lt(y) && nears_before(b, r, y, k as int)),
    decreases k,
{
    if k > 0 {
        let i = k - 1;
        lemma_start_before(b, r, s, y, i as nat);
        lemma_upto_wf(b, r, s, s, i as nat);
        let x = start_upto(b, r, s, i as nat);
        if active(r, i) {
            let n = near_of(b, r, i);
            lemma_slab_wf(b, r, i);
            if x.lt(n) {
                if n.lt(y) {
                    lemma_le_lt_trans(x, n, y);
                }
            } else {
                lemma_total(x, n);
                if x.lt(y) {
                    lemma_le_lt_trans(n, x, y);
                }
            }
        }
        assert(nears_before(b, r, y, k as int) <==> nears_before(b, r, y, i) && (active(r, i)
            ==> near_of(b, r, i).lt(y)));
    }
}

proof fn lemma_end_after(b: Aabb, r: Ray, e: Ratio, x: Ratio, k: nat)
    requires
        b.wf(),
        r.wf(),
        e.wf(),
        x.wf(),
        k <= 3,
    ensures
        x.lt(end_upto(b, r, e, k)) <==> (x.lt(e) && fars_after(b, r, x, k as int)),
    decreases k,
{
    if k > 0 {
        let i = k - 1;
        lemma_end_after(b, r, e, x, i as nat);
        lemma_upto_wf(b, r, e, e, i as nat);
        let y = end_upto(b, r, e, i as nat);
        if active(r, i) {
            let f = far_of(b, r, i);
            lemma_slab_wf(b, r, i);
            if f.lt(y) {
                if x.lt(f) {
                    lemma_lt_le_trans(x, f, y);
                }
            } else {
                lemma_total(f, y);
                if x.lt(y) {
                    lemma_lt_le_trans(x, y, f);
                }
            }
        }
        assert(fars_after(b, r, x, k as int) <==> fars_after(b, r, x, i) && (active(r, i) ==> x.lt(
            far_of(b, r, i),
        )));
    }
}

/// The slab test, stated without the order in which the axes are clipped.
pub proof fn lemma_box_hit_pairwise(b: Aabb, r: Ray, s: Ratio, e: Ratio)
    requires
        b.wf(),
        r.wf(),
        s.wf(),
        e.wf(),
    ensures
        box_hit(b, r, s, e) <==> parallel_ok_upto(b, r, 3) && entries_before_exits(b, r, s, e),
{
    let big_s = entry_of(b, r, s);
    lemma_upto_wf(b, r, s, e, 3);
    lemma_end_after(b, r, e, big_s, 3);
    lemma_start_before(b, r, s, e, 3);
    assert forall|i: int| 0 <= i < 3 && active(r, i) implies big_s.lt(#[trigger] far_of(b, r, i))
        <==> (s.lt(far_of(b, r, i)) && nears_before(b, r, far_of(b, r, i), 3)) by {
        lemma_slab_wf(b, r, i);
        lemma_start_before(b, r, s, far_of(b, r, i), 3);
    }
    if big_s.lt(exit_of(b, r, e)) {
        assert forall|i: int, j: int|
            0 <= i < 3 && 0 <= j < 3 && active(r, i) && active(r, j) implies #[trigger] near_of(
            b,
            r,
            j,
        ).lt(#[trigger] far_of(b, r, i)) by {
            assert(big_s.lt(far_of(b, r, i)));
        }
    }
    if entries_before_exits(b, r, s, e) {
        assert forall|i: int| 0 <= i < 3 && active(r, i) implies big_s.lt(
            #[trigger] far_of(b, r, i),
        ) by {
            assert forall|j: int| 0 <= j < 3 && active(r, j) implies #[trigger] near_of(
                b,
                r,
                j,
            ).lt(far_of(b, r, i)) by {
                assert(near_of(b, r, j).lt(far_of(b, r, i)));
            }
        }
    }
}

/// Hit parameters lie in the interval: `s <= t < e`.
pub proof fn lemma_obj_hit_in_interval(b: Aabb, r: Ray, s: Ratio, e: Ratio)
    requires
        b.wf(),
        r.wf(),
        s.wf(),
        e.wf(),
        box_hit(b, r, s, e),
    ensures
        s.le(entry_of(b, r, s)),
        entry_of(b, r, s).lt(e),
        entry_of(b, r, s).wf(),
{
    lemma_start_mono(b, r, s, 0, 3);
    lemma_upto_wf(b, r, s, e, 3);
    lemma_end_after(b, r, e, entry_of(b, r, s), 3);
}

/// Lowering the end of the interval keeps exactly the hits that come before it.
pub proof fn lemma_obj_hit_narrow(b: Aabb, r: Ray, s: Ratio, e: Ratio, e2: Ratio)
    requires
        b.wf(),
        r.wf(),
        s.wf(),
        e.wf(),
        e2.wf(),
        e2.le(e),
    ensures
        obj_hit(b, r, s, e2) == (match obj_hit(b, r, s, e) {
            Some(t) => if t.lt(e2) {
                Some(t)
            } else {
                None
            },
            None => None,
        }),
{
    let big_s = entry_of(b, r, s);
    lemma_upto_wf(b, r, s, e, 3);
    lemma_end_after(b, r, e, big_s, 3);
    lemma_end_after(b, r, e2, big_s, 3);
    if big_s.lt(e2) {
        lemma_lt_le_trans(big_s, e2, e);
    }
}

/// A box that contains another is met by every ray that meets the other.
pub proof fn lemma_box_hit_grow(outer: Aabb, inner: Aabb, r: Ray, s: Ratio, e: Ratio)
    requires
        outer.wf(),
        inner.wf(),
        r.wf(),
        s.wf(),
        e.wf(),
        outer.contains_box(inner),
        box_hit(inner, r, s, e),
    ensures
        box_hit(outer, r, s, e),
{
    lemma_box_hit_pairwise(inner, r, s, e);
    lemma_box_hit_pairwise(outer, r, s, e);
    assert forall|i: int| 0 <= i < 3 && active(r, i) implies near_of(outer, r, i).le(
        near_of(inner, r, i),
    ) && far_of(inner, r, i).le(far_of(outer, r, i)) by {
        lemma_same_den(near_of(outer, r, i), near_of(inner, r, i));
        lemma_same_den(far_of(inner, r, i), far_of(outer, r, i));
    }
    assert forall|i: int| 0 <= i < 3 && !active(r, i) implies #[trigger] inside_slab(
        outer,
        r,
        i,
    ) by {
        assert(inside_slab(inner, r, i));
    }
    assert forall|i: int| 0 <= i < 3 && active(r, i) implies #[trigger] near_of(outer, r, i).lt(
        e,
    ) by {
        lemma_slab_wf(outer, r, i);
        lemma_slab_wf(inner, r, i);
        assert(near_of(inner, r, i).lt(e));
        lemma_le_lt_trans(near_of(outer, r, i), near_of(inner, r, i), e);
    }
    assert forall|i: int| 0 <= i < 3 && active(r, i) implies s.lt(
        #[trigger] far_of(outer, r, i),
    ) by {
        lemma_slab_wf(outer, r, i);
        lemma_slab_wf(inner, r, i);
        assert(s.lt(far_of(inner, r, i)));
        lemma_lt_le_trans(s, far_of(inner, r, i), far_of(outer, r, i));
    }
    assert forall|i: int, j: int|
        0 <= i < 3 && 0 <= j < 3 && active(r, i) && active(r, j) implies #[trigger] near_of(
        outer,
        r,
        j,
    ).lt(#[trigger] far_of(outer, r, i)) by {
        lemma_slab_wf(outer, r, i);
        lemma_slab_wf(inner, r, i);
        lemma_slab_wf(outer, r, j);
        lemma_slab_wf(inner, r, j);
        assert(near_of(inner, r, j).lt(far_of(inner, r, i)));
        lemma_le_lt_trans(near_of(outer, r, j), near_of(inner, r, j), far_of(inner, r, i));
        lemma_lt_le_trans(near_of(outer, r, j), far_of(inner, r, i), far_of(outer, r, i));
    }
}

/// The merge of two boxes contains both, and every box that contains both
/// contains the merge.
pub proof fn lemma_merge_smallest(a: Aabb, b: Aabb, c: Aabb)
    requires
        a.wf(),
        b.wf(),
        c.contains_box(a),
        c.contains_box(b),
    ensures
        a.merged(b).wf(),
        a.merged(b).contains_box(a),
        a.merged(b).contains_box(b),
        c.contains_box(a.merged(b)),
{
}

/// Merging is commutative and associative.
pub proof fn lemma_merge_commutative_associative(a: Aabb, b: Aabb, c: Aabb)
    ensures
        a.merged(b) == b.merged(a),
        a.merged(b).merged(c) == a.merged(b.merged(c)),
{
}

/// A ray parallel to the slabs of one axis, with its origin outside them,
/// misses the box whatever the other axes and the interval are.
pub proof fn lemma_parallel_outside_misses(b: Aabb, r: Ray, s: Ratio, e: Ratio, i: int)
    requires
        0 <= i < 3,
        r.direction.comp(i) == 0,
        r.origin.comp(i) < b.lo(i) || r.origin.comp(i) > b.hi(i),
    ensures
        !box_hit(b, r, s, e),
        obj_hit(b, r, s, e).is_none(),
{
    assert(!inside_slab(b, r, i));
}

} // verus!
