use vstd::prelude::*;
use crate::scalar::Scalar;
use crate::vec3::Color;

verus! {

/// The bit pattern of one.
pub open spec fn one_spec() -> Scalar {
    Scalar { bits: 0x3ff0_0000_0000_0000 }
}

/// A diffuse material that reflects a fixed share of each colour.
#[derive(Clone, Copy, Debug)]
pub struct Lambertian {
    pub albedo: Color,
}

impl Lambertian {
    pub fn new(col: Color) -> (r: Lambertian)
        ensures
            r.albedo == col,
    {
        Lambertian { albedo: col }
    }
}

/// A reflecting material; `fuzz` blurs the reflection and is at most one.
#[derive(Clone, Copy, Debug)]
pub struct Metal {
    pub albedo: Color,
    pub fuzz: Scalar,
}

impl Metal {
    /// A metal of colour `a` whose fuzz is `f` when `f < 1`, else one (also
    /// when `f` is NaN). So the fuzz is always a number no larger than one.
    pub fn new(a: Color, f: Scalar) -> (r: Metal)
        ensures
            r.albedo == a,
            r.fuzz == (if f.less_than(one_spec()) { f } else { one_spec() }),
            !r.fuzz.nan(),
            r.fuzz.key() <= one_spec().key(),
            !f.nan() && f.key() < 0x3ff0_0000_0000_0000 ==> r.fuzz == f,
            f.nan() || f.key() >= 0x3ff0_0000_0000_0000 ==> r.fuzz.bits == 0x3ff0_0000_0000_0000,
    {
        let one = Scalar::one();
        Metal { albedo: a, fuzz: if f.lt(one) { f } else { one } }
    }
}

/// A clear refracting material with refraction index `ir`.
#[derive(Clone, Copy, Debug)]
pub struct Dielectric {
    pub ir: Scalar,
}

impl Dielectric {
    pub fn new(index_of_refraction: Scalar) -> (r: Dielectric)
        ensures
            r.ir == index_of_refraction,
    {
        Dielectric { ir: index_of_refraction }
    }
}

} // verus!
