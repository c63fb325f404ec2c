use vstd::prelude::*;
use crate::scalar::{Scalar, SIGN_BIT, INFINITY_MAGNITUDE, lemma_min_of_bounds, lemma_max_of_bounds};

verus! {

/// A closed range `[min, max]` of double-precision numbers.
#[derive(Clone, Copy, Debug)]
pub struct Interval {
    pub min: Scalar,
    pub max: Scalar,
}

/// The smallest interval holding both arguments (NaN bounds are ignored).
pub open spec fn hull(a: Interval, b: Interval) -> Interval {
    Interval { min: a.min.min_of(b.min), max: a.max.max_of(b.max) }
}

/// `outer` holds `inner`: both have non-NaN bounds and `outer` reaches at
/// least as far in each direction.
pub open spec fn encloses(outer: Interval, inner: Interval) -> bool {
    &&& !outer.min.nan()
    &&& !outer.max.nan()
    &&& !inner.min.nan()
    &&& !inner.max.nan()
    &&& outer.min.key() <= inner.min.key()
    &&& inner.max.key() <= outer.max.key()
}

/// Both bounds are numbers.
pub open spec fn bounds_are_numbers(i: Interval) -> bool {
    !i.min.nan() && !i.max.nan()
}

impl Interval {
    /// The empty interval `[+inf, -inf]`.
    pub open spec fn empty_spec() -> Interval {
        Interval {
            min: Scalar { bits: INFINITY_MAGNITUDE },
            max: Scalar { bits: (SIGN_BIT + INFINITY_MAGNITUDE) as u64 },
        }
    }

    /// The whole line `[-inf, +inf]`.
    pub open spec fn universe_spec() -> Interval {
        Interval {
            min: Scalar { bits: (SIGN_BIT + INFINITY_MAGNITUDE) as u64 },
            max: Scalar { bits: INFINITY_MAGNITUDE },
        }
    }

    /// `min < x < max`.
    pub open spec fn surrounds_spec(self, x: Scalar) -> bool {
        self.min.less_than(x) && x.less_than(self.max)
    }

    /// `self` widened to take in `other`: a bound of `other` replaces the
    /// matching bound of `self` only when it lies strictly further out.
    pub open spec fn merge_spec(self, other: Interval) -> Interval {
        Interval {
            min: if other.min.less_than(self.min) {
                other.min
            } else {
                self.min
            },
            max: if self.max.less_than(other.max) {
                other.max
            } else {
                self.max
            },
        }
    }

    /// `x` moved into `[min, max]`: the bound it lies beyond, else `x`.
    pub open spec fn clamp_spec(self, x: Scalar) -> Scalar {
        if x.less_than(self.min) {
            self.min
        } else if self.max.less_than(x) {
            self.max
        } else {
            x
        }
    }

    pub fn new(min: Scalar, max: Scalar) -> (r: Interval)
        ensures
            r.min == min,
            r.max == max,
    {
        Interval { min, max }
    }

    /// The smallest interval that holds both `a` and `b`.
    pub fn new_interval(a: &Interval, b: &Interval) -> (r: Interval)
        ensures
            r == hull(*a, *b),
    {
        Interval { min: a.min.min(b.min), max: a.max.max(b.max) }
    }

    /// Whether `x` lies strictly inside the interval.
    pub fn surrounds(&self, x: Scalar) -> (r: bool)
        ensures
            r == self.surrounds_spec(x),
    {
        self.min.lt(x) && x.lt(self.max)
    }

    /// `x` limited to the interval.
    pub fn clamp(&self, x: Scalar) -> (r: Scalar)
        ensures
            r == self.clamp_spec(x),
    {
        if x.lt(self.min) {
            self.min
        } else if x.gt(self.max) {
            self.max
        } else {
            x
        }
    }

    /// Widens `self` to take in `other`: a bound of `other` replaces the
    /// matching bound of `self` only when it lies strictly further out.
    pub fn merge(&mut self, other: &Interval)
        ensures
            *final(self) == old(self).merge_spec(*other),
    {
        if other.min.lt(self.min) {
            self.min = other.min;
        }
        if other.max.gt(self.max) {
            self.max = other.max;
        }
    }

    /// The empty interval: it surrounds nothing.
    pub fn empty() -> (r: Interval)
        ensures
            r == Interval::empty_spec(),
    {
        Interval { min: Scalar::infinity(), max: Scalar::neg_infinity() }
    }

    /// The interval of all numbers.
    pub fn universe() -> (r: Interval)
        ensures
            r == Interval::universe_spec(),
    {
        Interval { min: Scalar::neg_infinity(), max: Scalar::infinity() }
    }
}

impl Default for Interval {
    /// The default interval is the empty one.
    fn default() -> (r: Interval)
        ensures
            r == Interval::empty_spec(),
    {
        Interval::empty()
    }
}

/// The hull of two intervals holds each one whose bounds are numbers,
/// whatever the other one holds.
pub proof fn lemma_hull_encloses(a: Interval, b: Interval)
    requires
        bounds_are_numbers(a),
    ensures
        encloses(hull(a, b), a),
        encloses(hull(b, a), a),
{
    lemma_min_of_bounds(a.min, b.min);
    lemma_max_of_bounds(a.max, b.max);
    lemma_min_of_bounds(b.min, a.min);
    lemma_max_of_bounds(b.max, a.max);
}

/// The empty interval is the unit of the hull: `new_interval(EMPTY, a) == a`
/// for every interval with number bounds.
pub proof fn lemma_hull_empty_identity(a: Interval)
    requires
        bounds_are_numbers(a),
    ensures
        hull(Interval::empty_spec(), a) == a,
        hull(a, Interval::empty_spec()) == a,
{
}

/// Merging into `a` gives the same interval as `new_interval(a, b)`, when all
/// bounds are numbers.
pub proof fn lemma_merge_is_hull(a: Interval, b: Interval)
    requires
        bounds_are_numbers(a),
        bounds_are_numbers(b),
    ensures
        a.merge_spec(b) == hull(a, b),
{
}

/// A clamped number lies in the interval when the interval is ordered and
/// everything is a number; a number the interval surrounds is left as it is.
pub proof fn lemma_clamp_within(i: Interval, x: Scalar)
    requires
        bounds_are_numbers(i),
        i.min.key() <= i.max.key(),
        !x.nan(),
    ensures
        !i.clamp_spec(x).nan(),
        i.min.key() <= i.clamp_spec(x).key() <= i.max.key(),
        i.surrounds_spec(x) ==> i.clamp_spec(x) == x,
        i.clamp_spec(i.clamp_spec(x)) == i.clamp_spec(x),
{
}

/// The empty interval surrounds nothing; the universe surrounds exactly the
/// finite numbers.
pub proof fn lemma_empty_and_universe(x: Scalar)
    ensures
        !Interval::empty_spec().surrounds_spec(x),
        Interval::universe_spec().surrounds_spec(x) <==> (!x.nan() && x.magnitude()
            < INFINITY_MAGNITUDE),
{
}

/// The lower of two integers.
pub open spec fn lower(a: int, b: int) -> int {
    if a <= b {
        a
    } else {
        b
    }
}

/// The higher of two integers.
pub open spec fn higher(a: int, b: int) -> int {
    if a <= b {
        b
    } else {
        a
    }
}

/// `new_interval(a, b)` is the smallest interval around both: its lower
/// bound is one of the two lower bounds, its upper bound one of the two upper
/// bounds; when both bounds are numbers it takes the lower of the lower
/// bounds and the higher of the upper bounds, and a NaN bound gives way to the
/// other one.
pub proof fn lemma_hull_bounds(a: Interval, b: Interval)
    ensures
        hull(a, b).min == a.min || hull(a, b).min == b.min,
        hull(a, b).max == a.max || hull(a, b).max == b.max,
        !a.min.nan() && !b.min.nan() ==> !hull(a, b).min.nan() && hull(a, b).min.key() == lower(
            a.min.key(),
            b.min.key(),
        ),
        !a.max.nan() && !b.max.nan() ==> !hull(a, b).max.nan() && hull(a, b).max.key() == higher(
            a.max.key(),
            b.max.key(),
        ),
        a.min.nan() ==> hull(a, b).min == b.min,
        b.min.nan() && !a.min.nan() ==> hull(a, b).min == a.min,
        a.max.nan() ==> hull(a, b).max == b.max,
        b.max.nan() && !a.max.nan() ==> hull(a, b).max == a.max,
{
}

/// Merging `b` into `a` keeps each bound of `a` unless the matching bound of
/// `b` lies strictly further out, in which case it takes that bound: so each
/// bound is one of the two, and with number bounds the lower bound is the
/// lower one and the upper bound the higher one.
pub proof fn lemma_merge_bounds(a: Interval, b: Interval)
    ensures
        a.merge_spec(b).min == a.min || a.merge_spec(b).min == b.min,
        a.merge_spec(b).max == a.max || a.merge_spec(b).max == b.max,
        bounds_are_numbers(a) && bounds_are_numbers(b) ==> a.merge_spec(b).min.key() == lower(
            a.min.key(),
            b.min.key(),
        ) && a.merge_spec(b).max.key() == higher(a.max.key(), b.max.key()),
        !(b.min.key() < a.min.key()) ==> a.merge_spec(b).min == a.min,
        !(a.max.key() < b.max.key()) ==> a.merge_spec(b).max == a.max,
        a.min.nan() || b.min.nan() ==> a.merge_spec(b).min == a.min,
        a.max.nan() || b.max.nan() ==> a.merge_spec(b).max == a.max,
{
}

/// An interval surrounds exactly the numbers strictly between its bounds:
/// `min < x < max` with all three numbers; a NaN anywhere means no.
pub proof fn lemma_surrounds_strictly_between(i: Interval, x: Scalar)
    ensures
        i.surrounds_spec(x) <==> (!i.min.nan() && !i.max.nan() && !x.nan() && i.min.key() < x.key()
            && x.key() < i.max.key()),
{
}

/// Clamping: a number below the lower bound becomes the lower bound, one above
/// the upper bound (and not below the lower) becomes the upper bound, and any
/// other number (or a NaN) stays as it is.
pub proof fn lemma_clamp_picks(i: Interval, x: Scalar)
    requires
        bounds_are_numbers(i),
    ensures
        !x.nan() && x.key() < i.min.key() ==> i.clamp_spec(x) == i.min,
        !x.nan() && i.min.key() <= x.key() && i.max.key() < x.key() ==> i.clamp_spec(x) == i.max,
        !x.nan() && i.min.key() <= x.key() && x.key() <= i.max.key() ==> i.clamp_spec(x) == x,
        x.nan() ==> i.clamp_spec(x) == x,
{
}

} // verus!
