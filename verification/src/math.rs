use vstd::prelude::*;

verus! {

/// A two-dimensional integer vector (chunk and region coordinates).
#[derive(Clone, Copy, Debug, PartialEq, Eq, Structural, Hash)]
pub struct IVec2 {
    pub x: i32,
    pub y: i32,
}

/// A three-dimensional integer vector (voxel coordinates).
#[derive(Clone, Copy, Debug, PartialEq, Eq, Structural, Hash)]
pub struct IVec3 {
    pub x: i32,
    pub y: i32,
    pub z: i32,
}

impl IVec2 {
    pub fn new(x: i32, y: i32) -> (v: IVec2)
        ensures
            v.x == x,
            v.y == y,
    {
        IVec2 { x, y }
    }
}

impl IVec3 {
    pub fn new(x: i32, y: i32, z: i32) -> (v: IVec3)
        ensures
            v.x == x,
            v.y == y,
            v.z == z,
    {
        IVec3 { x, y, z }
    }
}

/// Euclidean quotient: the `q` with `a == q * d + r` and `0 <= r < d`.
pub fn div_euclid(a: i32, d: i32) -> (q: i32)
    requires
        d > 0,
    ensures
        q == a / d,
{
    let r = a.checked_div_euclid(d);
    match r {
        Some(q) => q,
        None => {
            proof {
                assert(i32::MIN <= a / d <= i32::MAX) by (nonlinear_arith)
                    requires
                        d > 0,
                        i32::MIN <= a <= i32::MAX,
                ;
            }
            0
        },
    }
}

/// Euclidean remainder: always in `0..d`.
pub fn rem_euclid(a: i32, d: i32) -> (r: i32)
    requires
        d > 0,
    ensures
        r == a % d,
        0 <= r < d,
{
    let r = a.checked_rem_euclid(d);
    match r {
        Some(v) => v,
        None => 0,
    }
}

} // verus!
