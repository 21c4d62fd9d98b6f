//! Colours.

use vstd::prelude::*;
use crate::scalar::{Scalar, ONE_BITS};

verus! {

/// Linear red, green and blue.
#[derive(Clone, Copy, Debug, PartialEq, Eq, Structural)]
pub struct Color {
    pub r: Scalar,
    pub g: Scalar,
    pub b: Scalar,
}

impl Color {
    pub fn of_rgb(r: Scalar, g: Scalar, b: Scalar) -> (c: Color)
        ensures
            c == (Color { r, g, b }),
    {
        Color { r, g, b }
    }

    pub open spec fn black_spec() -> Color {
        Color { r: Scalar { bits: 0 }, g: Scalar { bits: 0 }, b: Scalar { bits: 0 } }
    }

    pub open spec fn white_spec() -> Color {
        Color {
            r: Scalar { bits: ONE_BITS },
            g: Scalar { bits: ONE_BITS },
            b: Scalar { bits: ONE_BITS },
        }
    }

    #[verifier::when_used_as_spec(black_spec)]
    pub fn black() -> (c: Color)
        ensures
            c == Self::black_spec(),
    {
        Color { r: Scalar::zero(), g: Scalar::zero(), b: Scalar::zero() }
    }

    #[verifier::when_used_as_spec(white_spec)]
    pub fn white() -> (c: Color)
        ensures
            c == Self::white_spec(),
    {
        Color { r: Scalar::one(), g: Scalar::one(), b: Scalar::one() }
    }
}

} // verus!
