use vstd::prelude::*;
use crate::scalar::Scalar;
use crate::vec3::{Point3, Vec3};

verus! {

/// A ray: an origin, a direction, and the time at which it is cast.
#[derive(Clone, Copy, Debug)]
pub struct Ray {
    pub orig: Point3,
    pub dir: Vec3,
    pub tm: Scalar,
}

impl Ray {
    /// A ray cast at time zero.
    pub fn new(orig: Point3, dir: Vec3) -> (r: Ray)
        ensures
            r.orig == orig,
            r.dir == dir,
            r.tm.bits == 0,
    {
        Ray { orig, dir, tm: Scalar::zero() }
    }

    /// A ray cast at time `tm`.
    pub fn new_time(orig: Point3, dir: Vec3, tm: Scalar) -> (r: Ray)
        ensures
            r.orig == orig,
            r.dir == dir,
            r.tm == tm,
    {
        Ray { orig, dir, tm }
    }
}

} // verus!
