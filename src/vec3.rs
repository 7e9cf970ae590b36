//! Fixed-point points, vectors and rays.
use vstd::prelude::*;

verus! {

/// Bound on the magnitude of every coordinate of a well-formed point or vector.
pub const COORD_MAX: i64 = 0x4000_0000;

/// A point or vector with fixed-point integer coordinates.
#[derive(Clone, Copy, Debug, PartialEq, Eq, Structural)]
pub struct Vec3 {
    pub x: i64,
    pub y: i64,
    pub z: i64,
}

impl Vec3 {
    pub open spec fn wf(self) -> bool {
        &&& -COORD_MAX <= self.x <= COORD_MAX
        &&& -COORD_MAX <= self.y <= COORD_MAX
        &&& -COORD_MAX <= self.z <= COORD_MAX
    }

    /// Coordinate `i` (0 is x, 1 is y, 2 is z).
    pub open spec fn comp(self, i: int) -> i64 {
        if i == 0 {
            self.x
        } else if i == 1 {
            self.y
        } else {
            self.z
        }
    }

    pub open spec fn is_zero(self) -> bool {
        self.x == 0 && self.y == 0 && self.z == 0
    }

    pub fn new(x: i64, y: i64, z: i64) -> (r: Vec3)
        ensures
            r.x == x,
            r.y == y,
            r.z == z,
    {
        Vec3 { x, y, z }
    }

    /// Coordinate `axis`; any other index than 0, 1 or 2 is a caller error.
    pub fn axis(&self, axis: usize) -> (r: i64)
        requires
            axis < 3,
        ensures
            r == self.comp(axis as int),
    {
        if axis == 0 {
            self.x
        } else if axis == 1 {
            self.y
        } else {
            self.z
        }
    }
}

/// A ray `origin + t * direction`, with `t` a rational parameter.
#[derive(Clone, Copy, Debug, PartialEq, Eq, Structural)]
pub struct Ray {
    pub origin: Vec3,
    pub direction: Vec3,
}

impl Ray {
    /// Both ends bounded, and a direction that is not the zero vector.
    pub open spec fn wf(self) -> bool {
        self.origin.wf() && self.direction.wf() && !self.direction.is_zero()
    }

    pub fn new(origin: Vec3, direction: Vec3) -> (r: Ray)
        ensures
            r.origin == origin,
            r.direction == direction,
    {
        Ray { origin, direction }
    }
}

} // verus!
