use vstd::prelude::*;
use crate::scalar::Scalar;
use crate::vec3::Point3;
use crate::interval::{
    Interval, hull, encloses, bounds_are_numbers, lemma_hull_encloses, lower, higher,
    lemma_hull_bounds,
};

verus! {

/// An axis-aligned bounding box: one interval per axis.
#[derive(Clone, Copy, Debug)]
pub struct Aabb {
    pub x: Interval,
    pub y: Interval,
    pub z: Interval,
}

/// The smallest box holding both boxes, axis by axis.
pub open spec fn box_hull(a: Aabb, b: Aabb) -> Aabb {
    Aabb { x: hull(a.x, b.x), y: hull(a.y, b.y), z: hull(a.z, b.z) }
}

/// `outer` holds `inner` on every axis.
pub open spec fn box_encloses(outer: Aabb, inner: Aabb) -> bool {
    encloses(outer.x, inner.x) && encloses(outer.y, inner.y) && encloses(outer.z, inner.z)
}

/// All six bounds are numbers.
pub open spec fn box_bounds_are_numbers(b: Aabb) -> bool {
    bounds_are_numbers(b.x) && bounds_are_numbers(b.y) && bounds_are_numbers(b.z)
}

/// Box enclosure is transitive.
pub proof fn lemma_box_encloses_transitive(a: Aabb, b: Aabb, c: Aabb)
    requires
        box_encloses(a, b),
        box_encloses(b, c),
    ensures
        box_encloses(a, c),
{
}

/// The axis with the largest size, ties going to the later axis, as decided
/// by IEEE 754 `>` on the three sizes.
pub open spec fn longest_axis_spec(x_size: Scalar, y_size: Scalar, z_size: Scalar) -> usize {
    if y_size.less_than(x_size) {
        if z_size.less_than(x_size) {
            0
        } else {
            2
        }
    } else if z_size.less_than(y_size) {
        1
    } else {
        2
    }
}

/// The box with corners `a` and `b`: on each axis, from the smaller to the
/// larger coordinate (NaN coordinates ignored).
pub open spec fn corner_box(a: Point3, b: Point3) -> Aabb {
    Aabb {
        x: Interval { min: a.x.min_of(b.x), max: a.x.max_of(b.x) },
        y: Interval { min: a.y.min_of(b.y), max: a.y.max_of(b.y) },
        z: Interval { min: a.z.min_of(b.z), max: a.z.max_of(b.z) },
    }
}

/// Some of the range is left: `!(max <= min)`.
pub open spec fn slab_open(t: Interval) -> bool {
    !t.max.at_most(t.min)
}

/// The ray-box test from axis `a` on: the range is cut down slab by slab,
/// stopping at the first slab after which nothing is left; the flag tells
/// whether all slabs were passed.
pub open spec fn planes_spec(
    ray_t: Interval,
    t0: Seq<Scalar>,
    t1: Seq<Scalar>,
    inv_d: Seq<Scalar>,
    a: int,
) -> (Interval, bool)
    decreases 3 - a,
{
    if a >= 3 {
        (ray_t, true)
    } else {
        let next = clip_spec(ray_t, t0[a], t1[a], inv_d[a]);
        if slab_open(next) {
            planes_spec(next, t0, t1, inv_d, a + 1)
        } else {
            (next, false)
        }
    }
}

/// The range `ray_t` cut down to one slab: `t0` and `t1` are where the ray
/// meets the slab's two planes, swapped when `inv_d` (the reciprocal of the
/// ray direction on that axis) is negative; a bound moves only when the
/// plane lies strictly inside.
pub open spec fn clip_spec(ray_t: Interval, t0: Scalar, t1: Scalar, inv_d: Scalar) -> Interval {
    let swap = inv_d.less_than(Scalar { bits: 0 });
    let near = if swap { t1 } else { t0 };
    let far = if swap { t0 } else { t1 };
    Interval {
        min: if ray_t.min.less_than(near) {
            near
        } else {
            ray_t.min
        },
        max: if far.less_than(ray_t.max) {
            far
        } else {
            ray_t.max
        },
    }
}

impl Aabb {
    /// The interval of axis `n`: 0 is x, 1 is y, any other is z.
    pub open spec fn axis_spec(self, n: int) -> Interval {
        if n == 0 {
            self.x
        } else if n == 1 {
            self.y
        } else {
            self.z
        }
    }

    pub open spec fn empty_spec() -> Aabb {
        Aabb { x: Interval::empty_spec(), y: Interval::empty_spec(), z: Interval::empty_spec() }
    }

    pub open spec fn universe_spec() -> Aabb {
        Aabb {
            x: Interval::universe_spec(),
            y: Interval::universe_spec(),
            z: Interval::universe_spec(),
        }
    }

    pub fn new(x: &Interval, y: &Interval, z: &Interval) -> (r: Aabb)
        ensures
            r.x == *x,
            r.y == *y,
            r.z == *z,
    {
        Aabb { x: *x, y: *y, z: *z }
    }

    /// The box with corners `a` and `b`, in whichever order they come, with
    /// no axis widened: two corners that agree on an axis give a box of size
    /// zero on it.
    pub fn from_corners(a: &Point3, b: &Point3) -> (r: Aabb)
        ensures
            r == corner_box(*a, *b),
    {
        Aabb {
            x: Interval::new(a.x.min(b.x), a.x.max(b.x)),
            y: Interval::new(a.y.min(b.y), a.y.max(b.y)),
            z: Interval::new(a.z.min(b.z), a.z.max(b.z)),
        }
    }

    /// The interval of axis `n`: 0 is x, 1 is y, any other is z.
    pub fn axis(&self, n: usize) -> (r: &Interval)
        ensures
            *r == self.axis_spec(n as int),
    {
        match n {
            0 => &self.x,
            1 => &self.y,
            _ => &self.z,
        }
    }

    /// The smallest box holding both boxes.
    pub fn new_box(box1: &Aabb, box2: &Aabb) -> (r: Aabb)
        ensures
            r == box_hull(*box1, *box2),
    {
        Aabb {
            x: Interval::new_interval(&box1.x, &box2.x),
            y: Interval::new_interval(&box1.y, &box2.y),
            z: Interval::new_interval(&box1.z, &box2.z),
        }
    }

    /// The axis whose size is largest, given the three sizes `max - min`.
    pub fn longest_axis(x_size: Scalar, y_size: Scalar, z_size: Scalar) -> (r: usize)
        ensures
            r == longest_axis_spec(x_size, y_size, z_size),
            r < 3,
    {
        if x_size.gt(y_size) {
            if x_size.gt(z_size) {
                0
            } else {
                2
            }
        } else if y_size.gt(z_size) {
            1
        } else {
            2
        }
    }

    /// One slab step of the ray-box test. `t0` and `t1` are where the ray
    /// meets the two planes of one axis and `inv_d` is the reciprocal of the
    /// ray direction on that axis; a negative `inv_d` swaps the planes. The
    /// range `ray_t` is cut down to the slab, and the result tells whether
    /// any of it is left (`!(max <= min)`).
    pub fn clip_to_slab(ray_t: &mut Interval, t0: Scalar, t1: Scalar, inv_d: Scalar) -> (open: bool)
        ensures
            *final(ray_t) == clip_spec(*old(ray_t), t0, t1, inv_d),
            open == slab_open(*final(ray_t)),
    {
        let mut near = t0;
        let mut far = t1;
        if inv_d.lt(Scalar::zero()) {
            near = t1;
            far = t0;
        }
        if near.gt(ray_t.min) {
            ray_t.min = near;
        }
        if far.lt(ray_t.max) {
            ray_t.max = far;
        }
        !ray_t.max.le(ray_t.min)
    }

    /// The ray-box test over all three axes, given for each axis `a` where
    /// the ray meets the two planes of the box (`t0[a]`, `t1[a]`) and the
    /// reciprocal `inv_d[a]` of the ray direction: `ray_t` is clipped slab by
    /// slab, and the test fails at the first slab that leaves nothing.
    pub fn hit_planes(
        ray_t: &mut Interval,
        t0: &[Scalar; 3],
        t1: &[Scalar; 3],
        inv_d: &[Scalar; 3],
    ) -> (hit: bool)
        ensures
            (*final(ray_t), hit) == planes_spec(*old(ray_t), t0@, t1@, inv_d@, 0),
    {
        let ghost first = *ray_t;
        if !Aabb::clip_to_slab(ray_t, t0[0], t1[0], inv_d[0]) {
            return false;
        }
        let ghost second = *ray_t;
        if !Aabb::clip_to_slab(ray_t, t0[1], t1[1], inv_d[1]) {
            assert(planes_spec(second, t0@, t1@, inv_d@, 1) == (*ray_t, false));
            return false;
        }
        let ghost third = *ray_t;
        let open = Aabb::clip_to_slab(ray_t, t0[2], t1[2], inv_d[2]);
        proof {
            assert(planes_spec(*ray_t, t0@, t1@, inv_d@, 3) == (*ray_t, true));
            assert(planes_spec(third, t0@, t1@, inv_d@, 2) == (*ray_t, open));
            assert(planes_spec(second, t0@, t1@, inv_d@, 1) == (*ray_t, open));
        }
        open
    }

    /// The empty box.
    pub fn empty() -> (r: Aabb)
        ensures
            r == Aabb::empty_spec(),
    {
        Aabb { x: Interval::empty(), y: Interval::empty(), z: Interval::empty() }
    }

    /// The box of all space.
    pub fn universe() -> (r: Aabb)
        ensures
            r == Aabb::universe_spec(),
    {
        Aabb { x: Interval::universe(), y: Interval::universe(), z: Interval::universe() }
    }
}

impl Default for Aabb {
    /// The default box is the empty one.
    fn default() -> (r: Aabb)
        ensures
            r == Aabb::empty_spec(),
    {
        Aabb::empty()
    }
}

/// The hull of two boxes holds each one whose bounds are numbers, whatever
/// the other one holds.
pub proof fn lemma_box_hull_encloses(a: Aabb, b: Aabb)
    requires
        box_bounds_are_numbers(a),
    ensures
        box_encloses(box_hull(a, b), a),
        box_encloses(box_hull(b, a), a),
        box_bounds_are_numbers(box_hull(a, b)),
        box_bounds_are_numbers(box_hull(b, a)),
{
    lemma_hull_encloses(a.x, b.x);
    lemma_hull_encloses(a.y, b.y);
    lemma_hull_encloses(a.z, b.z);
}

/// The empty box is the unit of the box hull.
pub proof fn lemma_box_hull_empty_identity(a: Aabb)
    requires
        box_bounds_are_numbers(a),
    ensures
        box_hull(Aabb::empty_spec(), a) == a,
        box_hull(a, Aabb::empty_spec()) == a,
{
    crate::interval::lemma_hull_empty_identity(a.x);
    crate::interval::lemma_hull_empty_identity(a.y);
    crate::interval::lemma_hull_empty_identity(a.z);
}

/// The hull of a box with itself is that box.
pub proof fn lemma_box_hull_idempotent(a: Aabb)
    ensures
        box_hull(a, a) == a,
{
}

/// A box made from two corners holds both corners on every axis.
pub proof fn lemma_corner_box_holds_corners(a: Point3, b: Point3)
    requires
        !a.x.nan() && !a.y.nan() && !a.z.nan(),
        !b.x.nan() && !b.y.nan() && !b.z.nan(),
    ensures
        ({
            let r = corner_box(a, b);
            &&& r.x.min.key() <= a.x.key() <= r.x.max.key()
            &&& r.x.min.key() <= b.x.key() <= r.x.max.key()
            &&& r.y.min.key() <= a.y.key() <= r.y.max.key()
            &&& r.y.min.key() <= b.y.key() <= r.y.max.key()
            &&& r.z.min.key() <= a.z.key() <= r.z.max.key()
            &&& r.z.min.key() <= b.z.key() <= r.z.max.key()
        }),
{
}

/// The longest axis has a size at least as large as the other two, when the
/// sizes are numbers.
pub proof fn lemma_longest_axis_is_longest(x_size: Scalar, y_size: Scalar, z_size: Scalar)
    requires
        !x_size.nan(),
        !y_size.nan(),
        !z_size.nan(),
    ensures
        ({
            let r = longest_axis_spec(x_size, y_size, z_size);
            let s = if r == 0 { x_size } else if r == 1 { y_size } else { z_size };
            &&& x_size.key() <= s.key()
            &&& y_size.key() <= s.key()
            &&& z_size.key() <= s.key()
        }),
{
}

/// `axis(n)` is the x interval for 0, the y interval for 1 and the z interval
/// for every other `n`.
pub proof fn lemma_axis_selects(b: Aabb, n: int)
    ensures
        n == 0 ==> b.axis_spec(n) == b.x,
        n == 1 ==> b.axis_spec(n) == b.y,
        n != 0 && n != 1 ==> b.axis_spec(n) == b.z,
{
}

/// Among the axes of largest size, `longest_axis` picks the last: no axis is
/// larger, and no later axis is as large.
pub proof fn lemma_longest_axis_last_of_largest(x_size: Scalar, y_size: Scalar, z_size: Scalar)
    requires
        !x_size.nan(),
        !y_size.nan(),
        !z_size.nan(),
    ensures
        ({
            let r = longest_axis_spec(x_size, y_size, z_size);
            let s = if r == 0 { x_size } else if r == 1 { y_size } else { z_size };
            &&& r < 3
            &&& x_size.key() <= s.key() && y_size.key() <= s.key() && z_size.key() <= s.key()
            &&& r < 1 ==> y_size.key() < s.key()
            &&& r < 2 ==> z_size.key() < s.key()
        }),
{
}

/// A slab step never widens the range: each bound stays or moves inwards.
pub proof fn lemma_clip_never_widens(ray_t: Interval, t0: Scalar, t1: Scalar, inv_d: Scalar)
    requires
        bounds_are_numbers(ray_t),
    ensures
        bounds_are_numbers(clip_spec(ray_t, t0, t1, inv_d)),
        ray_t.min.key() <= clip_spec(ray_t, t0, t1, inv_d).min.key(),
        clip_spec(ray_t, t0, t1, inv_d).max.key() <= ray_t.max.key(),
{
}

/// `new_box` is the smallest box around both boxes: on each axis, its lower
/// bound is one of the two boxes' lower bounds on that same axis and its
/// upper bound one of their upper bounds on that axis; with number bounds it
/// takes the lower of the lower bounds and the higher of the upper bounds.
pub proof fn lemma_box_hull_bounds(a: Aabb, b: Aabb)
    ensures
        box_hull(a, b).x.min == a.x.min || box_hull(a, b).x.min == b.x.min,
        box_hull(a, b).x.max == a.x.max || box_hull(a, b).x.max == b.x.max,
        box_hull(a, b).y.min == a.y.min || box_hull(a, b).y.min == b.y.min,
        box_hull(a, b).y.max == a.y.max || box_hull(a, b).y.max == b.y.max,
        box_hull(a, b).z.min == a.z.min || box_hull(a, b).z.min == b.z.min,
        box_hull(a, b).z.max == a.z.max || box_hull(a, b).z.max == b.z.max,
        box_bounds_are_numbers(a) && box_bounds_are_numbers(b) ==> {
            &&& box_hull(a, b).x.min.key() == lower(a.x.min.key(), b.x.min.key())
            &&& box_hull(a, b).x.max.key() == higher(a.x.max.key(), b.x.max.key())
            &&& box_hull(a, b).y.min.key() == lower(a.y.min.key(), b.y.min.key())
            &&& box_hull(a, b).y.max.key() == higher(a.y.max.key(), b.y.max.key())
            &&& box_hull(a, b).z.min.key() == lower(a.z.min.key(), b.z.min.key())
            &&& box_hull(a, b).z.max.key() == higher(a.z.max.key(), b.z.max.key())
        },
{
    lemma_hull_bounds(a.x, b.x);
    lemma_hull_bounds(a.y, b.y);
    lemma_hull_bounds(a.z, b.z);
}

/// The box from two corners is the tightest one around them: each bound on
/// an axis is one of the two corners' coordinates on that axis, the lower
/// one for the lower bound and the higher one for the upper bound when both
/// are numbers.
pub proof fn lemma_corner_box_is_tight(a: Point3, b: Point3)
    ensures
        corner_box(a, b).x.min == a.x || corner_box(a, b).x.min == b.x,
        corner_box(a, b).x.max == a.x || corner_box(a, b).x.max == b.x,
        corner_box(a, b).y.min == a.y || corner_box(a, b).y.min == b.y,
        corner_box(a, b).y.max == a.y || corner_box(a, b).y.max == b.y,
        corner_box(a, b).z.min == a.z || corner_box(a, b).z.min == b.z,
        corner_box(a, b).z.max == a.z || corner_box(a, b).z.max == b.z,
        !a.x.nan() && !b.x.nan() ==> corner_box(a, b).x.min.key() == lower(a.x.key(), b.x.key())
            && corner_box(a, b).x.max.key() == higher(a.x.key(), b.x.key()),
        !a.y.nan() && !b.y.nan() ==> corner_box(a, b).y.min.key() == lower(a.y.key(), b.y.key())
            && corner_box(a, b).y.max.key() == higher(a.y.key(), b.y.key()),
        !a.z.nan() && !b.z.nan() ==> corner_box(a, b).z.min.key() == lower(a.z.key(), b.z.key())
            && corner_box(a, b).z.max.key() == higher(a.z.key(), b.z.key()),
{
}

/// One slab step, with number bounds and planes: the lower bound becomes the
/// higher of the old lower bound and the near plane, the upper bound the lower
/// of the old upper bound and the far plane, where the near plane is `t1` when
/// `inv_d < 0` and `t0` otherwise; the step leaves something exactly when the
/// new lower bound is below the new upper bound.
pub proof fn lemma_clip_bounds(ray_t: Interval, t0: Scalar, t1: Scalar, inv_d: Scalar)
    requires
        bounds_are_numbers(ray_t),
        !t0.nan(),
        !t1.nan(),
    ensures
        ({
            let swap = !inv_d.nan() && inv_d.key() < 0;
            let near = if swap { t1 } else { t0 };
            let far = if swap { t0 } else { t1 };
            let c = clip_spec(ray_t, t0, t1, inv_d);
            &&& bounds_are_numbers(c)
            &&& c.min.key() == higher(ray_t.min.key(), near.key())
            &&& c.max.key() == lower(ray_t.max.key(), far.key())
            &&& slab_open(c) <==> c.min.key() < c.max.key()
        }),
{
}

/// A slab step moves each bound only to the matching plane: the lower bound
/// stays or becomes the near plane, the upper bound stays or becomes the far
/// plane, and a NaN plane moves nothing.
pub proof fn lemma_clip_choices(ray_t: Interval, t0: Scalar, t1: Scalar, inv_d: Scalar)
    ensures
        ({
            let swap = !inv_d.nan() && inv_d.key() < 0;
            let near = if swap { t1 } else { t0 };
            let far = if swap { t0 } else { t1 };
            let c = clip_spec(ray_t, t0, t1, inv_d);
            &&& c.min == ray_t.min || c.min == near
            &&& c.max == ray_t.max || c.max == far
            &&& near.nan() || ray_t.min.nan() ==> c.min == ray_t.min
            &&& far.nan() || ray_t.max.nan() ==> c.max == ray_t.max
            &&& slab_open(c) <==> !(!c.min.nan() && !c.max.nan() && c.max.key() <= c.min.key())
        }),
{
}

/// The ray-box test over the three axes, with number bounds and planes: for
/// each axis `a` the near plane is `t1[a]` when `inv_d[a] < 0` and `t0[a]`
/// otherwise, the far plane the other one. The test passes exactly when the
/// highest of the lower bound and the three near planes lies below the
/// lowest of the upper bound and the three far planes, and then the range
/// becomes exactly that span.
pub proof fn lemma_hit_planes_meets_all_slabs(
    ray_t: Interval,
    t0: Seq<Scalar>,
    t1: Seq<Scalar>,
    inv_d: Seq<Scalar>,
)
    requires
        t0.len() == 3,
        t1.len() == 3,
        inv_d.len() == 3,
        bounds_are_numbers(ray_t),
        forall|a: int| 0 <= a < 3 ==> !(#[trigger] t0[a]).nan() && !t1[a].nan(),
    ensures
        ({
            let s0 = !inv_d[0].nan() && inv_d[0].key() < 0;
            let s1 = !inv_d[1].nan() && inv_d[1].key() < 0;
            let s2 = !inv_d[2].nan() && inv_d[2].key() < 0;
            let n0 = if s0 { t1[0] } else { t0[0] };
            let n1 = if s1 { t1[1] } else { t0[1] };
            let n2 = if s2 { t1[2] } else { t0[2] };
            let f0 = if s0 { t0[0] } else { t1[0] };
            let f1 = if s1 { t0[1] } else { t1[1] };
            let f2 = if s2 { t0[2] } else { t1[2] };
            let lo = higher(higher(ray_t.min.key(), n0.key()), higher(n1.key(), n2.key()));
            let hi = lower(lower(ray_t.max.key(), f0.key()), lower(f1.key(), f2.key()));
            let r = planes_spec(ray_t, t0, t1, inv_d, 0);
            &&& r.1 <==> lo < hi
            &&& r.1 ==> r.0.min.key() == lo && r.0.max.key() == hi
        }),
{
    assert(!t0[0].nan() && !t1[0].nan());
    assert(!t0[1].nan() && !t1[1].nan());
    assert(!t0[2].nan() && !t1[2].nan());
    let c0 = clip_spec(ray_t, t0[0], t1[0], inv_d[0]);
    lemma_clip_bounds(ray_t, t0[0], t1[0], inv_d[0]);
    let c1 = clip_spec(c0, t0[1], t1[1], inv_d[1]);
    lemma_clip_bounds(c0, t0[1], t1[1], inv_d[1]);
    let c2 = clip_spec(c1, t0[2], t1[2], inv_d[2]);
    lemma_clip_bounds(c1, t0[2], t1[2], inv_d[2]);
    assert(planes_spec(c2, t0, t1, inv_d, 3) == (c2, true));
    assert(planes_spec(c1, t0, t1, inv_d, 2) == (if slab_open(c2) { (c2, true) } else { (c2, false) }));
    assert(planes_spec(c0, t0, t1, inv_d, 1) == (if slab_open(c1) {
        planes_spec(c1, t0, t1, inv_d, 2)
    } else {
        (c1, false)
    }));
    assert(planes_spec(ray_t, t0, t1, inv_d, 0) == (if slab_open(c0) {
        planes_spec(c0, t0, t1, inv_d, 1)
    } else {
        (c0, false)
    }));
}

} // verus!
