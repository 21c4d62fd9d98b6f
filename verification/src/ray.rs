//! Rays.

use vstd::prelude::*;
use crate::vec3::Vec3;

verus! {

/// A half-line: where it starts and the unit direction in which it runs.
/// The caller that computes a direction also normalizes it.
#[derive(Clone, Copy, Debug, PartialEq, Eq, Structural)]
pub struct Ray {
    pub origin: Vec3,
    pub dir: Vec3,
}

} // verus!
