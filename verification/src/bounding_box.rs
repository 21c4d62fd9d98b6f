//! Axis-aligned bounding boxes: union, containment and the slab test.

use vstd::prelude::*;
use vstd::std_specs::cmp::PartialOrdSpecImpl;
use core::cmp::Ordering;
use crate::scalar::{Scalar, INFINITY_BITS, NEG_INFINITY_BITS};
use crate::vec3::Vec3;

verus! {

/// A box given by its least and greatest corner.
#[derive(Clone, Copy, Debug, PartialEq, Eq, Structural)]
pub struct AABB {
    pub start: Vec3,
    pub end: Vec3,
}

/// What the arithmetic gives for one ray and one pair of parallel planes of
/// a box: the reciprocal of the ray's direction on that axis, and the ray
/// parameters at which it meets the plane through the box's `start` and the
/// plane through its `end`. Any of them may be infinite or not a number.
#[derive(Clone, Copy, Debug, PartialEq, Eq, Structural)]
pub struct Slab {
    pub inv_d: Scalar,
    pub t0: Scalar,
    pub t1: Scalar,
}

/// The three slabs of a box for one ray.
#[derive(Clone, Copy, Debug, PartialEq, Eq, Structural)]
pub struct BoxProbe {
    pub x: Slab,
    pub y: Slab,
    pub z: Slab,
}

/// An interval of ray parameters, by its two ends.
#[derive(Clone, Copy, Debug, PartialEq, Eq, Structural)]
pub struct Window {
    pub t_min: Scalar,
    pub t_max: Scalar,
}

impl Slab {
    /// The parameter at which the ray enters the slab: the crossing of the
    /// `end` plane when the direction is negative, else that of `start`.
    pub open spec fn entry(self) -> Scalar {
        if self.inv_d.less(Scalar { bits: 0 }) {
            self.t1
        } else {
            self.t0
        }
    }

    /// The parameter at which the ray leaves the slab.
    pub open spec fn exit(self) -> Scalar {
        if self.inv_d.less(Scalar { bits: 0 }) {
            self.t0
        } else {
            self.t1
        }
    }
}

impl Slab {
    /// The ray never gets between the two planes: it would enter only at
    /// infinity, or has left since minus infinity. So it is for a ray that
    /// runs along the planes from a start outside them.
    pub open spec fn shut(self) -> bool {
        self.entry().same(Scalar { bits: INFINITY_BITS }) || self.exit().same(
            Scalar { bits: NEG_INFINITY_BITS },
        )
    }

    /// The two planes bound nothing: the ray is between them from minus
    /// infinity to infinity, a crossing that is not a number counting for
    /// either. So it is for a ray that runs along the planes from a start
    /// between them or on one of them.
    pub open spec fn wide_open(self) -> bool {
        (self.entry().nan() || self.entry().same(
            Scalar { bits: NEG_INFINITY_BITS },
        )) && (self.exit().nan() || self.exit().same(Scalar { bits: INFINITY_BITS }))
    }
}

/// Clipping the window by the four planes of two slabs leaves room.
pub open spec fn clip_of_two(a: Slab, b: Slab, t_min: Scalar, t_max: Scalar) -> bool {
    &&& leaves_room(t_min, t_max) && leaves_room(t_min, a.exit()) && leaves_room(t_min, b.exit())
    &&& leaves_room(a.entry(), t_max) && leaves_room(a.entry(), a.exit()) && leaves_room(
        a.entry(),
        b.exit(),
    )
    &&& leaves_room(b.entry(), t_max) && leaves_room(b.entry(), a.exit()) && leaves_room(
        b.entry(),
        b.exit(),
    )
}

impl Window {
    /// The window cut down to a slab: its lower end rises to an entry above
    /// it, its upper end falls to an exit below it.
    pub open spec fn narrowed(self, slab: Slab) -> Window {
        Window {
            t_min: if self.t_min.less(slab.entry()) {
                slab.entry()
            } else {
                self.t_min
            },
            t_max: if slab.exit().less(self.t_max) {
                slab.exit()
            } else {
                self.t_max
            },
        }
    }

    /// Nothing is left between the ends.
    pub open spec fn closed(self) -> bool {
        self.t_max.at_most(self.t_min)
    }

    fn narrow(self, slab: &Slab) -> (w: Window)
        ensures
            w == self.narrowed(*slab),
    {
        let mut t0 = slab.t0;
        let mut t1 = slab.t1;
        if slab.inv_d.lt(Scalar::zero()) {
            t0 = slab.t1;
            t1 = slab.t0;
        }
        Window {
            t_min: if t0.gt(self.t_min) {
                t0
            } else {
                self.t_min
            },
            t_max: if t1.lt(self.t_max) {
                t1
            } else {
                self.t_max
            },
        }
    }
}

/// A lower and an upper bound leave room: the lower one is strictly below
/// the upper one, or one of them is not a number and so bounds nothing.
pub open spec fn leaves_room(lower: Scalar, upper: Scalar) -> bool {
    lower.nan() || upper.nan() || lower.less(upper)
}

impl BoxProbe {
    /// A lower bound leaves room under the window's upper end and under
    /// every slab's exit.
    pub open spec fn room_above(self, lower: Scalar, t_max: Scalar) -> bool {
        leaves_room(lower, t_max) && leaves_room(lower, self.x.exit()) && leaves_room(
            lower,
            self.y.exit(),
        ) && leaves_room(lower, self.z.exit())
    }

    /// The ray's parameters between `t_min` and `t_max`, clipped by the six
    /// planes, are not used up: every lower bound leaves room under every
    /// upper bound.
    pub open spec fn clip_leaves_room(self, t_min: Scalar, t_max: Scalar) -> bool {
        self.room_above(t_min, t_max) && self.room_above(self.x.entry(), t_max)
            && self.room_above(self.y.entry(), t_max) && self.room_above(self.z.entry(), t_max)
    }

    /// The slab test: the window is narrowed by x, y and z in turn and must
    /// stay open after each.
    pub open spec fn passes(self, t_min: Scalar, t_max: Scalar) -> bool {
        let w0 = Window { t_min, t_max };
        let w1 = w0.narrowed(self.x);
        let w2 = w1.narrowed(self.y);
        let w3 = w2.narrowed(self.z);
        !w1.closed() && !w2.closed() && !w3.closed()
    }

    /// Of a ray that runs along the planes of a slab, with a window whose
    /// ends are numbers: from a start outside the slab the test fails, and
    /// from a start within it the slab has no say, and the test is the
    /// clipping by the planes of the other two.
    pub proof fn lemma_slabs_along_the_ray(self, t_min: Scalar, t_max: Scalar)
        requires
            !t_min.nan(),
            !t_max.nan(),
        ensures
            self.x.shut() || self.y.shut() || self.z.shut() ==> !self.passes(t_min, t_max),
            self.x.wide_open() ==> self.passes(t_min, t_max) == clip_of_two(
                self.y,
                self.z,
                t_min,
                t_max,
            ),
            self.y.wide_open() ==> self.passes(t_min, t_max) == clip_of_two(
                self.x,
                self.z,
                t_min,
                t_max,
            ),
            self.z.wide_open() ==> self.passes(t_min, t_max) == clip_of_two(
                self.x,
                self.y,
                t_min,
                t_max,
            ),
    {
        self.lemma_passes_iff_clip_leaves_room(t_min, t_max);
    }

    /// On a window whose ends are numbers, the slab test passes exactly when
    /// clipping the window by the six planes leaves room. A component of the
    /// direction that is zero makes crossings infinite or not a number, and
    /// the statement holds of those too.
    pub proof fn lemma_passes_iff_clip_leaves_room(self, t_min: Scalar, t_max: Scalar)
        requires
            !t_min.nan(),
            !t_max.nan(),
        ensures
            self.passes(t_min, t_max) == self.clip_leaves_room(t_min, t_max),
    {
    }
}

/// Boxes are ordered by where they start on the x axis, as doubles are
/// ordered: two that start at the same place are equal in this order, and
/// a start that is not a number has no place in it.
impl PartialOrd for AABB {
    fn partial_cmp(&self, other: &Self) -> (r: Option<Ordering>) {
        let a = self.start.x;
        let b = other.start.x;
        if a.lt(b) {
            Some(Ordering::Less)
        } else if a.gt(b) {
            Some(Ordering::Greater)
        } else if a.eq_value(b) {
            Some(Ordering::Equal)
        } else {
            None
        }
    }
}

impl PartialOrdSpecImpl for AABB {
    open spec fn obeys_partial_cmp_spec() -> bool {
        true
    }

    open spec fn partial_cmp_spec(&self, other: &Self) -> Option<Ordering> {
        if self.start.x.less(other.start.x) {
            Some(Ordering::Less)
        } else if other.start.x.less(self.start.x) {
            Some(Ordering::Greater)
        } else if self.start.x.same(other.start.x) {
            Some(Ordering::Equal)
        } else {
            None
        }
    }
}

impl AABB {
    pub fn new(start: Vec3, end: Vec3) -> (b: AABB)
        ensures
            b == (AABB { start, end }),
    {
        AABB { start, end }
    }

    /// On every axis the least corner is at most the greatest one; so no
    /// coordinate is not a number.
    pub open spec fn well_formed(self) -> bool {
        self.start.x.at_most(self.end.x) && self.start.y.at_most(self.end.y)
            && self.start.z.at_most(self.end.z)
    }

    /// The point lies between the corners on every axis, the corners
    /// included.
    pub open spec fn holds(self, point: Vec3) -> bool {
        &&& self.start.x.at_most(point.x) && point.x.at_most(self.end.x)
        &&& self.start.y.at_most(point.y) && point.y.at_most(self.end.y)
        &&& self.start.z.at_most(point.z) && point.z.at_most(self.end.z)
    }

    /// `inner` lies within `self` on every axis.
    pub open spec fn contains(self, inner: AABB) -> bool {
        &&& self.start.x.at_most(inner.start.x)
        &&& self.start.y.at_most(inner.start.y)
        &&& self.start.z.at_most(inner.start.z)
        &&& inner.end.x.at_most(self.end.x)
        &&& inner.end.y.at_most(self.end.y)
        &&& inner.end.z.at_most(self.end.z)
    }

    /// The box from the lesser of the two starts and the greater of the two
    /// ends, axis by axis.
    pub open spec fn combined(self, other: AABB) -> AABB {
        AABB {
            start: Vec3 {
                x: self.start.x.min_of(other.start.x),
                y: self.start.y.min_of(other.start.y),
                z: self.start.z.min_of(other.start.z),
            },
            end: Vec3 {
                x: self.end.x.max_of(other.end.x),
                y: self.end.y.max_of(other.end.y),
                z: self.end.z.max_of(other.end.z),
            },
        }
    }

    /// Whether the ray behind `probe` meets the box within `t_min..t_max`.
    /// `probe` holds the crossings of this box's planes.
    pub fn hit(&self, probe: &BoxProbe, t_min: Scalar, t_max: Scalar) -> (r: bool)
        ensures
            r == probe.passes(t_min, t_max),
            !t_min.nan() && !t_max.nan() ==> r == probe.clip_leaves_room(t_min, t_max),
    {
        let mut window = Window { t_min, t_max };
        let mut axis: usize = 0;
        while axis < 3
            invariant
                axis <= 3,
                axis == 0 ==> window == (Window { t_min, t_max }),
                axis >= 1 ==> !(Window { t_min, t_max }).narrowed(probe.x).closed(),
                axis == 1 ==> window == (Window { t_min, t_max }).narrowed(probe.x),
                axis >= 2 ==> !(Window { t_min, t_max }).narrowed(probe.x).narrowed(
                    probe.y,
                ).closed(),
                axis == 2 ==> window == (Window { t_min, t_max }).narrowed(probe.x).narrowed(
                    probe.y,
                ),
                axis == 3 ==> probe.passes(t_min, t_max),
            decreases 3 - axis,
        {
            let slab = if axis == 0 {
                &probe.x
            } else if axis == 1 {
                &probe.y
            } else {
                &probe.z
            };
            window = window.narrow(slab);
            if window.t_max.le(window.t_min) {
                return false;
            }
            axis += 1;
        }
        true
    }

    pub fn combine(&self, other: &AABB) -> (b: AABB)
        ensures
            b == self.combined(*other),
            self.well_formed() && other.well_formed() ==> b.well_formed() && b.contains(*self)
                && b.contains(*other),
    {
        let start = Vec3::new(
            self.start.x.min(other.start.x),
            self.start.y.min(other.start.y),
            self.start.z.min(other.start.z),
        );
        let end = Vec3::new(
            self.end.x.max(other.end.x),
            self.end.y.max(other.end.y),
            self.end.z.max(other.end.z),
        );
        AABB::new(start, end)
    }

    /// The union is the least box that holds both: it holds each, and every
    /// well-formed box that holds each holds it.
    pub proof fn lemma_combined_is_least(self, other: AABB, bound: AABB)
        requires
            self.well_formed(),
            other.well_formed(),
            bound.contains(self),
            bound.contains(other),
        ensures
            self.combined(other).well_formed(),
            self.combined(other).contains(self),
            self.combined(other).contains(other),
            bound.contains(self.combined(other)),
    {
    }

    /// Containment passes from box to box.
    pub proof fn lemma_contains_transitive(self, middle: AABB, inner: AABB)
        requires
            self.contains(middle),
            middle.contains(inner),
        ensures
            self.contains(inner),
    {
    }
}

} // verus!
