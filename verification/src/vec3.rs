//! Triples of scalars, used as directions and as positions.

use vstd::prelude::*;
use crate::scalar::Scalar;

verus! {

/// The bit pattern of `0.00001`, the size under which a component counts
/// as zero.
pub const ZERO_TOLERANCE_BITS: u64 = 0x3EE4_F8B5_88E3_68F1;

#[derive(Clone, Copy, Debug, PartialEq, Eq, Structural)]
pub struct Vec3 {
    pub x: Scalar,
    pub y: Scalar,
    pub z: Scalar,
}

/// A position; no different from a direction in what it holds.
pub type Point3 = Vec3;

impl Vec3 {
    /// The component on an axis: 0 is x, 1 is y, anything else is z.
    pub open spec fn component(self, axis: int) -> Scalar {
        if axis == 0 {
            self.x
        } else if axis == 1 {
            self.y
        } else {
            self.z
        }
    }

    /// The vector with one component replaced.
    pub open spec fn with_component(self, axis: int, value: Scalar) -> Vec3 {
        if axis == 0 {
            Vec3 { x: value, ..self }
        } else if axis == 1 {
            Vec3 { y: value, ..self }
        } else {
            Vec3 { z: value, ..self }
        }
    }

    /// The vector with the sign of every component flipped.
    pub open spec fn negated(self) -> Vec3 {
        Vec3 { x: self.x.negated(), y: self.y.negated(), z: self.z.negated() }
    }

    /// Whether a scalar is, as a double, greater than the zero tolerance.
    pub open spec fn exceeds_tolerance(value: Scalar) -> bool {
        (Scalar { bits: ZERO_TOLERANCE_BITS }).less(value.absolute())
    }

    /// No component exceeds the zero tolerance in size. A component that is
    /// not a number exceeds nothing.
    pub open spec fn negligible(self) -> bool {
        !Self::exceeds_tolerance(self.x) && !Self::exceeds_tolerance(self.y)
            && !Self::exceeds_tolerance(self.z)
    }

    pub fn empty() -> (v: Vec3)
        ensures
            v == (Vec3 { x: Scalar { bits: 0 }, y: Scalar { bits: 0 }, z: Scalar { bits: 0 } }),
    {
        Vec3 { x: Scalar::zero(), y: Scalar::zero(), z: Scalar::zero() }
    }

    pub fn new(x: Scalar, y: Scalar, z: Scalar) -> (v: Vec3)
        ensures
            v == (Vec3 { x, y, z }),
    {
        Vec3 { x, y, z }
    }

    pub fn x(&self) -> (r: Scalar)
        ensures
            r == self.x,
    {
        self.x
    }

    pub fn y(&self) -> (r: Scalar)
        ensures
            r == self.y,
    {
        self.y
    }

    pub fn z(&self) -> (r: Scalar)
        ensures
            r == self.z,
    {
        self.z
    }

    pub fn of_scalar(x: Scalar) -> (v: Vec3)
        ensures
            v == (Vec3 { x, y: x, z: x }),
    {
        Vec3 { x, y: x, z: x }
    }

    /// The component on axis 0, 1 or 2.
    pub fn index(&self, axis: usize) -> (r: Scalar)
        requires
            axis < 3,
        ensures
            r == self.component(axis as int),
    {
        if axis == 0 {
            self.x
        } else if axis == 1 {
            self.y
        } else {
            self.z
        }
    }

    /// Replaces the component on axis 0, 1 or 2.
    pub fn set(&mut self, axis: usize, value: Scalar)
        requires
            axis < 3,
        ensures
            *final(self) == old(self).with_component(axis as int, value),
    {
        if axis == 0 {
            self.x = value;
        } else if axis == 1 {
            self.y = value;
        } else {
            self.z = value;
        }
    }

    pub fn neg(self) -> (v: Vec3)
        ensures
            v == self.negated(),
    {
        Vec3 { x: self.x.neg(), y: self.y.neg(), z: self.z.neg() }
    }

    pub fn is_zero(&self) -> (r: bool)
        ensures
            r == self.negligible(),
    {
        let eps = Scalar::from_bits(ZERO_TOLERANCE_BITS);
        let mut axis: usize = 0;
        while axis < 3
            invariant
                axis <= 3,
                eps.bits == ZERO_TOLERANCE_BITS,
                forall|k: int| 0 <= k < axis ==> !Self::exceeds_tolerance(self.component(k)),
            decreases 3 - axis,
        {
            if self.index(axis).abs().gt(eps) {
                return false;
            }
            axis += 1;
        }
        proof {
            assert(!Self::exceeds_tolerance(self.component(0)));
            assert(!Self::exceeds_tolerance(self.component(1)));
            assert(!Self::exceeds_tolerance(self.component(2)));
        }
        true
    }

    /// One round of sampling inside the unit ball: the candidate is taken
    /// when its length, computed by the caller, is below one.
    pub fn rand_in_unit_circle(candidate: Vec3, length: Scalar) -> (r: Option<Vec3>)
        ensures
            r == if length.less(Scalar { bits: crate::scalar::ONE_BITS }) {
                Some(candidate)
            } else {
                None::<Vec3>
            },
    {
        if length.lt(Scalar::one()) {
            Some(candidate)
        } else {
            None
        }
    }

    /// One round of sampling inside the unit disc of the xy plane: the
    /// candidate, with its z put to zero, is taken when the length of that
    /// flattened vector, computed by the caller, is below one.
    pub fn rand_in_unit_disc(candidate: Vec3, flat_length: Scalar) -> (r: Option<Vec3>)
        ensures
            r == if flat_length.less(Scalar { bits: crate::scalar::ONE_BITS }) {
                Some(Vec3 { z: Scalar { bits: 0 }, ..candidate })
            } else {
                None::<Vec3>
            },
    {
        if flat_length.lt(Scalar::one()) {
            Some(Vec3 { x: candidate.x, y: candidate.y, z: Scalar::zero() })
        } else {
            None
        }
    }

    /// Turns a sample into the hemisphere around a normal: the sample itself
    /// when `along`, its dot product with the normal, is above zero, and its
    /// negation otherwise.
    pub fn rand_in_hemisphere(sample: Vec3, along: Scalar) -> (v: Vec3)
        ensures
            v == if (Scalar { bits: 0 }).less(along) {
                sample
            } else {
                sample.negated()
            },
    {
        if along.gt(Scalar::zero()) {
            sample
        } else {
            sample.neg()
        }
    }
}

} // verus!
