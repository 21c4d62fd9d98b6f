//! Doubles as ordered bit patterns.

use vstd::prelude::*;

verus! {

/// The sign bit of a double.
pub const SIGN_BIT: u64 = 0x8000_0000_0000_0000;

/// The magnitude of an infinity; every larger magnitude is not a number.
pub const INFINITY_BITS: u64 = 0x7FF0_0000_0000_0000;

/// The bit pattern of minus infinity.
pub const NEG_INFINITY_BITS: u64 = 0xFFF0_0000_0000_0000;

/// The bit pattern of `1.0`.
pub const ONE_BITS: u64 = 0x3FF0_0000_0000_0000;

/// A double-precision number, held by its bit pattern.
///
/// The 63 low bits are the magnitude and the top bit is the sign. On
/// magnitudes up to that of infinity the order of the doubles is the order
/// of the signed magnitudes, so comparisons need no arithmetic. Equality of
/// two `Scalar`s with `==` is equality of bit patterns: it tells `0.0` from
/// `-0.0`, which [`Scalar::eq_value`] does not.
#[derive(Clone, Copy, Debug, PartialEq, Eq, Structural)]
pub struct Scalar {
    pub bits: u64,
}

impl Scalar {
    /// The bits below the sign bit.
    pub open spec fn magnitude(self) -> int {
        if self.bits >= SIGN_BIT {
            self.bits - SIGN_BIT
        } else {
            self.bits as int
        }
    }

    /// Whether the sign bit is set.
    pub open spec fn negative(self) -> bool {
        self.bits >= SIGN_BIT
    }

    /// Whether the pattern is not a number.
    pub open spec fn nan(self) -> bool {
        self.magnitude() > INFINITY_BITS
    }

    /// The place of a number on the line: its magnitude, negated under a set
    /// sign bit. Both zeros have place 0. Meaningless for what is not a number.
    pub open spec fn value(self) -> int {
        if self.negative() {
            -self.magnitude()
        } else {
            self.magnitude()
        }
    }

    /// `self < other` as doubles compare: false when either is not a number.
    pub open spec fn less(self, other: Scalar) -> bool {
        !self.nan() && !other.nan() && self.value() < other.value()
    }

    /// `self <= other` as doubles compare: false when either is not a number.
    pub open spec fn at_most(self, other: Scalar) -> bool {
        !self.nan() && !other.nan() && self.value() <= other.value()
    }

    /// `self == other` as doubles compare: the zeros are equal, and what is
    /// not a number equals nothing.
    pub open spec fn same(self, other: Scalar) -> bool {
        !self.nan() && !other.nan() && self.value() == other.value()
    }

    /// A whole number to sort by: the place of a number on the line, and 0
    /// for what is not a number.
    pub open spec fn rank(self) -> int {
        if self.nan() {
            0
        } else {
            self.value()
        }
    }

    /// The pattern with the sign bit flipped.
    pub open spec fn negated(self) -> Scalar {
        if self.bits >= SIGN_BIT {
            Scalar { bits: (self.bits - SIGN_BIT) as u64 }
        } else {
            Scalar { bits: (self.bits + SIGN_BIT) as u64 }
        }
    }

    /// The pattern with the sign bit cleared.
    pub open spec fn absolute(self) -> Scalar {
        Scalar { bits: self.magnitude() as u64 }
    }

    /// The lesser of two, where one that is not a number gives way to the
    /// other; of two equal numbers, the first.
    pub open spec fn min_of(self, other: Scalar) -> Scalar {
        if other.less(self) || self.nan() {
            other
        } else {
            self
        }
    }

    /// The greater of two, where one that is not a number gives way to the
    /// other; of two equal numbers, the first.
    pub open spec fn max_of(self, other: Scalar) -> Scalar {
        if self.less(other) || self.nan() {
            other
        } else {
            self
        }
    }

    /// Numbers are in a line: of two, one is less or they are the same;
    /// less passes from number to number; and negation turns the line
    /// round.
    pub proof fn lemma_numbers_in_line(a: Scalar, b: Scalar, c: Scalar)
        requires
            !a.nan(),
            !b.nan(),
            !c.nan(),
        ensures
            a.less(b) || a.same(b) || b.less(a),
            !(a.less(b) && b.less(a)),
            !(a.less(b) && a.same(b)),
            a.at_most(b) <==> a.less(b) || a.same(b),
            a.less(b) && b.less(c) ==> a.less(c),
            a.less(b) <==> b.negated().less(a.negated()),
            a.min_of(b).at_most(a) && a.min_of(b).at_most(b),
            a.at_most(a.max_of(b)) && b.at_most(a.max_of(b)),
    {
    }

    pub fn from_bits(bits: u64) -> (s: Scalar)
        ensures
            s.bits == bits,
    {
        Scalar { bits }
    }

    pub fn to_bits(self) -> (bits: u64)
        ensures
            bits == self.bits,
    {
        self.bits
    }

    /// Positive zero.
    pub fn zero() -> (s: Scalar)
        ensures
            s.bits == 0,
            !s.nan(),
            s.value() == 0,
    {
        Scalar { bits: 0 }
    }

    /// The number one.
    pub fn one() -> (s: Scalar)
        ensures
            s.bits == ONE_BITS,
            !s.nan(),
            s.value() == ONE_BITS,
    {
        Scalar { bits: ONE_BITS }
    }

    /// Positive infinity.
    pub fn infinity() -> (s: Scalar)
        ensures
            s.bits == INFINITY_BITS,
            !s.nan(),
            forall|o: Scalar| !o.nan() ==> o.at_most(s),
    {
        Scalar { bits: INFINITY_BITS }
    }

    fn magnitude_bits(self) -> (m: u64)
        ensures
            m == self.magnitude(),
    {
        if self.bits >= SIGN_BIT {
            self.bits - SIGN_BIT
        } else {
            self.bits
        }
    }

    pub fn is_nan(self) -> (r: bool)
        ensures
            r == self.nan(),
    {
        self.magnitude_bits() > INFINITY_BITS
    }

    /// Whether `self` comes strictly before `other`, both being numbers,
    /// decided on the bit patterns.
    fn value_before(self, other: Scalar, or_equal: bool) -> (r: bool)
        requires
            !self.nan(),
            !other.nan(),
        ensures
            r == (self.value() < other.value() || (or_equal && self.value() == other.value())),
    {
        let a: u64 = self.magnitude_bits();
        let b: u64 = other.magnitude_bits();
        let a_neg: bool = self.bits >= SIGN_BIT;
        let b_neg: bool = other.bits >= SIGN_BIT;
        if a_neg && b_neg {
            b < a || (or_equal && a == b)
        } else if a_neg {
            a > 0 || b > 0 || or_equal
        } else if b_neg {
            or_equal && a == 0 && b == 0
        } else {
            a < b || (or_equal && a == b)
        }
    }

    pub fn lt(self, other: Scalar) -> (r: bool)
        ensures
            r == self.less(other),
    {
        !self.is_nan() && !other.is_nan() && self.value_before(other, false)
    }

    pub fn le(self, other: Scalar) -> (r: bool)
        ensures
            r == self.at_most(other),
    {
        !self.is_nan() && !other.is_nan() && self.value_before(other, true)
    }

    pub fn gt(self, other: Scalar) -> (r: bool)
        ensures
            r == other.less(self),
    {
        other.lt(self)
    }

    pub fn ge(self, other: Scalar) -> (r: bool)
        ensures
            r == other.at_most(self),
    {
        other.le(self)
    }

    pub fn eq_value(self, other: Scalar) -> (r: bool)
        ensures
            r == self.same(other),
    {
        self.le(other) && other.le(self)
    }

    pub fn sort_rank(self) -> (r: i64)
        ensures
            r == self.rank(),
    {
        let m: u64 = self.magnitude_bits();
        if m > INFINITY_BITS {
            0
        } else if self.bits >= SIGN_BIT {
            -(m as i64)
        } else {
            m as i64
        }
    }

    /// Negation, which on a double is a flip of the sign bit.
    pub fn neg(self) -> (r: Scalar)
        ensures
            r == self.negated(),
            r.nan() == self.nan(),
            r.value() == -self.value(),
    {
        if self.bits >= SIGN_BIT {
            Scalar { bits: self.bits - SIGN_BIT }
        } else {
            Scalar { bits: self.bits + SIGN_BIT }
        }
    }

    /// The absolute value, which on a double clears the sign bit.
    pub fn abs(self) -> (r: Scalar)
        ensures
            r == self.absolute(),
            r.nan() == self.nan(),
            r.value() == self.magnitude(),
    {
        Scalar { bits: self.magnitude_bits() }
    }

    pub fn min(self, other: Scalar) -> (r: Scalar)
        ensures
            r == self.min_of(other),
    {
        if other.lt(self) || self.is_nan() {
            other
        } else {
            self
        }
    }

    pub fn max(self, other: Scalar) -> (r: Scalar)
        ensures
            r == self.max_of(other),
    {
        if self.lt(other) || self.is_nan() {
            other
        } else {
            self
        }
    }
}

} // verus!
