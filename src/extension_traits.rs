//! Small extensions of std types used by the geometry.
use vstd::prelude::*;
use std::ops::Range;

verus! {

/// Merging two ranges into the smallest range that covers both.
pub trait RangeExt: Sized {
    /// The merged range, as a mathematical value.
    spec fn merged(&self, other: &Self) -> Self;

    fn merge(&self, other: &Self) -> (r: Self)
        ensures
            r == self.merged(other),
    ;
}

pub open spec fn min_i64(a: i64, b: i64) -> i64 {
    if a <= b { a } else { b }
}

pub open spec fn max_i64(a: i64, b: i64) -> i64 {
    if a >= b { a } else { b }
}

impl RangeExt for Range<i64> {
    /// Smallest start to largest end.
    open spec fn merged(&self, other: &Self) -> Self {
        Range { start: min_i64(self.start, other.start), end: max_i64(self.end, other.end) }
    }

    fn merge(&self, other: &Self) -> (r: Self) {
        let start = if self.start <= other.start { self.start } else { other.start };
        let end = if self.end >= other.end { self.end } else { other.end };
        Range { start, end }
    }
}

} // verus!
