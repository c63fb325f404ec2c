use vstd::prelude::*;
use crate::scalar::Scalar;

verus! {

/// A three-component vector of double-precision numbers.
#[derive(Clone, Copy, Debug)]
pub struct Vec3 {
    pub x: Scalar,
    pub y: Scalar,
    pub z: Scalar,
}

/// A point in space.
pub type Point3 = Vec3;

/// A linear RGB colour.
pub type Color = Vec3;

impl Vec3 {
    pub fn new(x: Scalar, y: Scalar, z: Scalar) -> (r: Vec3)
        ensures
            r.x == x,
            r.y == y,
            r.z == z,
    {
        Vec3 { x, y, z }
    }
}

} // verus!
