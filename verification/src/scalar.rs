use vstd::prelude::*;

verus! {

/// The sign bit of a double-precision bit pattern.
pub const SIGN_BIT: u64 = 0x8000_0000_0000_0000;

/// The magnitude bits of an infinity; every larger magnitude is a NaN.
pub const INFINITY_MAGNITUDE: u64 = 0x7ff0_0000_0000_0000;

/// A double-precision number held by its IEEE 754 bit pattern.
///
/// The library only compares, orders and selects such numbers; every
/// arithmetic operation on them happens in the application.
#[derive(Clone, Copy, Debug)]
pub struct Scalar {
    pub bits: u64,
}

impl Scalar {
    /// The sign bit is set (negative numbers, -0, -infinity, some NaNs).
    pub open spec fn negative(self) -> bool {
        self.bits >= SIGN_BIT
    }

    /// All bits but the sign bit.
    pub open spec fn magnitude(self) -> int {
        if self.negative() {
            self.bits - SIGN_BIT
        } else {
            self.bits as int
        }
    }

    /// Not a number: an all-ones exponent with a non-zero fraction.
    pub open spec fn nan(self) -> bool {
        self.magnitude() > INFINITY_MAGNITUDE
    }

    /// The position of a non-NaN value on the extended real line: IEEE 754
    /// orders non-NaN values exactly as their sign-magnitude patterns, with
    /// +0 and -0 equal.
    pub open spec fn key(self) -> int {
        if self.negative() {
            -self.magnitude()
        } else {
            self.magnitude()
        }
    }

    /// IEEE 754 `<`: false whenever either side is NaN.
    pub open spec fn less_than(self, other: Scalar) -> bool {
        !self.nan() && !other.nan() && self.key() < other.key()
    }

    /// IEEE 754 `<=`: false whenever either side is NaN.
    pub open spec fn at_most(self, other: Scalar) -> bool {
        !self.nan() && !other.nan() && self.key() <= other.key()
    }

    /// The minimum that ignores NaN: a NaN side yields the other side; of
    /// two equal values the first is kept.
    pub open spec fn min_of(self, other: Scalar) -> Scalar {
        if self.nan() {
            other
        } else if other.nan() {
            self
        } else if other.key() < self.key() {
            other
        } else {
            self
        }
    }

    /// The maximum that ignores NaN: a NaN side yields the other side; of
    /// two equal values the first is kept.
    pub open spec fn max_of(self, other: Scalar) -> Scalar {
        if self.nan() {
            other
        } else if other.nan() {
            self
        } else if self.key() < other.key() {
            other
        } else {
            self
        }
    }

    pub fn from_bits(bits: u64) -> (r: Scalar)
        ensures
            r.bits == bits,
    {
        Scalar { bits }
    }

    pub fn to_bits(self) -> (r: u64)
        ensures
            r == self.bits,
    {
        self.bits
    }

    /// Positive zero.
    pub fn zero() -> (r: Scalar)
        ensures
            r.bits == 0,
            r.key() == 0,
            !r.nan(),
    {
        Scalar { bits: 0 }
    }

    /// One.
    pub fn one() -> (r: Scalar)
        ensures
            r.bits == 0x3ff0_0000_0000_0000,
            r.key() == 0x3ff0_0000_0000_0000,
            !r.nan(),
    {
        Scalar { bits: 0x3ff0_0000_0000_0000 }
    }

    /// Positive infinity: above every other non-NaN value.
    pub fn infinity() -> (r: Scalar)
        ensures
            r.bits == INFINITY_MAGNITUDE,
            r.key() == INFINITY_MAGNITUDE,
            !r.nan(),
    {
        Scalar { bits: INFINITY_MAGNITUDE }
    }

    /// Negative infinity: below every other non-NaN value.
    pub fn neg_infinity() -> (r: Scalar)
        ensures
            r.bits == SIGN_BIT + INFINITY_MAGNITUDE,
            r.key() == -INFINITY_MAGNITUDE,
            !r.nan(),
    {
        Scalar { bits: 0xfff0_0000_0000_0000 }
    }

    fn magnitude_bits(self) -> (m: u64)
        ensures
            m == self.magnitude(),
    {
        if self.bits >= SIGN_BIT {
            self.bits - SIGN_BIT
        } else {
            self.bits
        }
    }

    pub fn is_nan(self) -> (r: bool)
        ensures
            r == self.nan(),
    {
        self.magnitude_bits() > INFINITY_MAGNITUDE
    }

    /// `self < other` as IEEE 754 defines it.
    pub fn lt(self, other: Scalar) -> (r: bool)
        ensures
            r == self.less_than(other),
    {
        if self.is_nan() || other.is_nan() {
            return false;
        }
        let a = self.magnitude_bits();
        let b = other.magnitude_bits();
        let a_neg = self.bits >= SIGN_BIT;
        let b_neg = other.bits >= SIGN_BIT;
        if !a_neg && !b_neg {
            a < b
        } else if a_neg && b_neg {
            b < a
        } else if a_neg {
            a != 0 || b != 0
        } else {
            false
        }
    }

    /// `self <= other` as IEEE 754 defines it.
    pub fn le(self, other: Scalar) -> (r: bool)
        ensures
            r == self.at_most(other),
    {
        if self.is_nan() || other.is_nan() {
            return false;
        }
        !other.lt(self)
    }

    /// `self > other` as IEEE 754 defines it.
    pub fn gt(self, other: Scalar) -> (r: bool)
        ensures
            r == other.less_than(self),
    {
        other.lt(self)
    }

    /// The minimum of two numbers, ignoring NaN.
    pub fn min(self, other: Scalar) -> (r: Scalar)
        ensures
            r == self.min_of(other),
    {
        if self.is_nan() {
            other
        } else if other.is_nan() {
            self
        } else if other.lt(self) {
            other
        } else {
            self
        }
    }

    /// The maximum of two numbers, ignoring NaN.
    pub fn max(self, other: Scalar) -> (r: Scalar)
        ensures
            r == self.max_of(other),
    {
        if self.is_nan() {
            other
        } else if other.is_nan() {
            self
        } else if self.lt(other) {
            other
        } else {
            self
        }
    }
}

/// `min_of` is below both non-NaN sides, never NaN when a side is not, and
/// one of its two arguments.
pub proof fn lemma_min_of_bounds(a: Scalar, b: Scalar)
    ensures
        a.min_of(b) == a || a.min_of(b) == b,
        !a.nan() ==> !a.min_of(b).nan() && a.min_of(b).key() <= a.key(),
        !b.nan() ==> !a.min_of(b).nan() && a.min_of(b).key() <= b.key(),
        a.min_of(a) == a,
{
}

/// `max_of` is above both non-NaN sides, never NaN when a side is not, and
/// one of its two arguments.
pub proof fn lemma_max_of_bounds(a: Scalar, b: Scalar)
    ensures
        a.max_of(b) == a || a.max_of(b) == b,
        !a.nan() ==> !a.max_of(b).nan() && a.key() <= a.max_of(b).key(),
        !b.nan() ==> !a.max_of(b).nan() && b.key() <= a.max_of(b).key(),
        a.max_of(a) == a,
{
}

/// `less_than` is the IEEE 754 order read off the bit patterns: a NaN is
/// never below or above anything; two patterns without the sign bit are
/// ordered as their bits, two with it in reverse; a pattern with the sign bit
/// is below one without unless both are zeros; and none without the sign bit
/// is below one with it.
pub proof fn lemma_less_than_on_bits(a: Scalar, b: Scalar)
    ensures
        a.nan() || b.nan() ==> !a.less_than(b),
        !a.nan() && !b.nan() && a.bits < SIGN_BIT && b.bits < SIGN_BIT ==> (a.less_than(b)
            <==> a.bits < b.bits),
        !a.nan() && !b.nan() && a.bits >= SIGN_BIT && b.bits >= SIGN_BIT ==> (a.less_than(b)
            <==> b.bits < a.bits),
        !a.nan() && !b.nan() && a.bits >= SIGN_BIT && b.bits < SIGN_BIT ==> (a.less_than(b)
            <==> !(a.bits == SIGN_BIT && b.bits == 0)),
        a.bits < SIGN_BIT && b.bits >= SIGN_BIT ==> !a.less_than(b),
        a.nan() <==> (a.bits < SIGN_BIT && a.bits > INFINITY_MAGNITUDE) || (a.bits >= SIGN_BIT
            && a.bits - SIGN_BIT > INFINITY_MAGNITUDE),
        a.at_most(b) <==> (!a.nan() && !b.nan() && !b.less_than(a)),
{
}

} // verus!
