//! The grid coordinate type and the spec-level geometry the automaton's
//! contracts are written over.

use vstd::prelude::*;

verus! {

/// A grid position.  `z` exists for forward compatibility; every cell the
/// automaton stores lives in the `z == 0` plane.
#[allow(non_camel_case_types)]
#[derive(Clone, Copy, Debug, PartialEq, Eq, Structural)]
pub struct uVec3 {
    pub x: i32,
    pub y: i32,
    pub z: i32,
}

impl uVec3 {
    pub fn new(x: i32, y: i32, z: i32) -> (v: uVec3)
        ensures
            v.x == x,
            v.y == y,
            v.z == z,
    {
        uVec3 { x, y, z }
    }

    /// The mathematical point this coordinate stands for in the 2-D rule.
    pub open spec fn xy(self) -> (int, int) {
        (self.x as int, self.y as int)
    }
}

/// `a` lies within Chebyshev distance `r` of `b`.
pub open spec fn within(a: (int, int), b: (int, int), r: int) -> bool {
    -r <= a.0 - b.0 <= r && -r <= a.1 - b.1 <= r
}

/// `(x, y)` is far enough from the edge of the `i32` range that coordinates
/// up to Chebyshev distance `m` away can still be represented.
pub open spec fn in_margin(x: int, y: int, m: int) -> bool {
    i32::MIN + m <= x <= i32::MAX - m && i32::MIN + m <= y <= i32::MAX - m
}

/// Whether two coordinates lie within Chebyshev distance `r` of each other,
/// computed without overflow for any pair of `i32` points.
pub fn within_dist(a: uVec3, b: uVec3, r: i32) -> (res: bool)
    requires
        r >= 0,
    ensures
        res == within(a.xy(), b.xy(), r as int),
{
    let dx: i64 = a.x as i64 - b.x as i64;
    let dy: i64 = a.y as i64 - b.y as i64;
    -(r as i64) <= dx && dx <= r as i64 && -(r as i64) <= dy && dy <= r as i64
}

/// Some entry of `s` names the point `(x, y)`.
pub open spec fn seq_has_coord(s: Seq<uVec3>, x: int, y: int) -> bool {
    exists|k: int| 0 <= k < s.len() && (#[trigger] s[k]).xy() == (x, y)
}

/// No two entries of `s` name the same point.
pub open spec fn distinct_ucoords(s: Seq<uVec3>) -> bool {
    forall|a: int, b: int|
        0 <= a < b < s.len() ==> (#[trigger] s[a]).xy() != (#[trigger] s[b]).xy()
}

} // verus!
