//! The things a ray can hit: spheres, axis-aligned rectangles, one-sided
//! wrappers and groups with a cached bounding box.
//!
//! Each `hit` takes a probe: the outcome of the arithmetic for one ray and
//! this object, computed by the caller. The probe is read only as far as the
//! decisions before it allow.

use vstd::prelude::*;
use crate::scalar::{Scalar, ONE_BITS};
use crate::vec3::{Vec3, Point3};
use crate::color::Color;
use crate::bounding_box::{AABB, BoxProbe};
use crate::material::Material;

verus! {

/// The bit pattern of `0.0001`, the least ray parameter at which a hit counts.
pub const T_MIN_BITS: u64 = 0x3F1A_36E2_EB1C_432D;

/// The bit pattern of `100000000.0`, the greatest ray parameter at which a
/// hit counts.
pub const T_MAX_BITS: u64 = 0x4197_D784_0000_0000;

pub open spec fn t_min_spec() -> Scalar {
    Scalar { bits: T_MIN_BITS }
}

pub open spec fn t_max_spec() -> Scalar {
    Scalar { bits: T_MAX_BITS }
}

/// The least ray parameter at which a hit counts.
#[verifier::when_used_as_spec(t_min_spec)]
pub fn t_min() -> (t: Scalar)
    ensures
        t == t_min_spec(),
{
    Scalar::from_bits(T_MIN_BITS)
}

/// The greatest ray parameter at which a hit counts.
#[verifier::when_used_as_spec(t_max_spec)]
pub fn t_max() -> (t: Scalar)
    ensures
        t == t_max_spec(),
{
    Scalar::from_bits(T_MAX_BITS)
}

/// A ray parameter at which a hit counts.
pub open spec fn in_window(t: Scalar) -> bool {
    t_min().at_most(t) && t.at_most(t_max())
}

fn valid_t(t: Scalar) -> (r: bool)
    ensures
        r == in_window(t),
{
    t_min().le(t) && t.le(t_max())
}

/// Where and how a ray met a surface.
#[derive(Clone, Copy, Debug, PartialEq, Eq, Structural)]
pub struct RayHit {
    pub col: Color,
    pub point: Point3,
    /// The ray parameter of the meeting point.
    pub t: Scalar,
    /// The surface normal, turned against the ray.
    pub normal: Vec3,
    /// Whether the surface's own outward normal was against the ray already
    /// and is `normal` unturned: the ray came from outside.
    pub front_face: bool,
    pub mat: Material,
}

/// Of an accumulated hit and a further one, the one to keep: the further
/// one where nothing was accumulated or where it is strictly closer.
pub open spec fn closer(acc: Option<RayHit>, hit: Option<RayHit>) -> Option<RayHit> {
    match hit {
        None => acc,
        Some(h) => match acc {
            None => hit,
            Some(a) => if h.t.less(a.t) {
                hit
            } else {
                acc
            },
        },
    }
}

/// Keeps the closer of an accumulated hit and a further one.
pub fn keep_closer(acc: Option<RayHit>, hit: Option<RayHit>) -> (r: Option<RayHit>)
    ensures
        r == closer(acc, hit),
{
    match hit {
        None => acc,
        Some(h) => match acc {
            None => hit,
            Some(a) => if h.t.lt(a.t) {
                hit
            } else {
                acc
            },
        },
    }
}

/// The hit kept after going through a list from its front.
pub open spec fn closest(hits: Seq<Option<RayHit>>) -> Option<RayHit>
    decreases hits.len(),
{
    if hits.len() == 0 {
        None
    } else {
        closer(closest(hits.drop_last()), hits.last())
    }
}

/// Every hit in the list has a ray parameter that is a number.
pub open spec fn all_numbers(hits: Seq<Option<RayHit>>) -> bool {
    forall|i: int| 0 <= i < hits.len() ==> (#[trigger] hits[i] matches Some(h) ==> !h.t.nan())
}

/// The list holds no hit.
pub open spec fn all_none(hits: Seq<Option<RayHit>>) -> bool {
    forall|i: int| 0 <= i < hits.len() ==> hits[i].is_none()
}

/// `best` is the first of the list's hits with the least ray parameter:
/// it is in the list, no hit of the list is closer, and every hit before it
/// is farther.
pub open spec fn first_least(hits: Seq<Option<RayHit>>, best: RayHit) -> bool {
    exists|i: int|
        {
            &&& 0 <= i < hits.len()
            &&& #[trigger] hits[i] == Some(best)
            &&& forall|j: int|
                0 <= j < hits.len() ==> (#[trigger] hits[j] matches Some(other)
                    ==> best.t.at_most(other.t))
            &&& forall|j: int|
                0 <= j < i ==> (#[trigger] hits[j] matches Some(other) ==> best.t.less(other.t))
        }
}

/// What `closest` keeps is the first of the hits with the least ray
/// parameter, and nothing exactly when the list holds no hit.
pub proof fn lemma_closest_is_first_least(hits: Seq<Option<RayHit>>)
    requires
        all_numbers(hits),
    ensures
        closest(hits).is_none() <==> all_none(hits),
        closest(hits) matches Some(best) ==> first_least(hits, best),
    decreases hits.len(),
{
    if hits.len() > 0 {
        let front = hits.drop_last();
        lemma_closest_is_first_least(front);
        assert(forall|i: int| 0 <= i < front.len() ==> front[i] == hits[i]);
        let last = hits.len() - 1;
        match closest(hits) {
            None => {},
            Some(best) => {
                if closest(front) == Some(best) {
                    let i = choose|i: int|
                        {
                            &&& 0 <= i < front.len()
                            &&& #[trigger] front[i] == Some(best)
                            &&& forall|j: int|
                                0 <= j < front.len() ==> (#[trigger] front[j] matches Some(other)
                                    ==> best.t.at_most(other.t))
                            &&& forall|j: int|
                                0 <= j < i ==> (#[trigger] front[j] matches Some(other)
                                    ==> best.t.less(other.t))
                        };
                    assert(hits[i] == Some(best));
                    assert forall|j: int| 0 <= j < hits.len() implies (
                    #[trigger] hits[j] matches Some(other) ==> best.t.at_most(other.t)) by {
                        if j < last {
                            assert(front[j] == hits[j]);
                        }
                    }
                    assert forall|j: int| 0 <= j < i implies (#[trigger] hits[j] matches Some(
                        other,
                    ) ==> best.t.less(other.t)) by {
                        assert(front[j] == hits[j]);
                    }
                } else {
                    assert(hits[last] == Some(best));
                    assert forall|j: int| 0 <= j < hits.len() implies (
                    #[trigger] hits[j] matches Some(other) ==> best.t.at_most(other.t)) by {
                        if j < last {
                            assert(front[j] == hits[j]);
                        }
                    }
                    assert forall|j: int| 0 <= j < last implies (#[trigger] hits[j] matches Some(
                        other,
                    ) ==> best.t.less(other.t)) by {
                        assert(front[j] == hits[j]);
                    }
                }
            },
        }
    }
}

/// Among hits whose ray parameters are numbers, keeping the closer may be
/// done in any grouping.
pub proof fn lemma_closer_associative(a: Option<RayHit>, b: Option<RayHit>, c: Option<RayHit>)
    requires
        a matches Some(h) ==> !h.t.nan(),
        b matches Some(h) ==> !h.t.nan(),
        c matches Some(h) ==> !h.t.nan(),
    ensures
        closer(closer(a, b), c) == closer(a, closer(b, c)),
{
}

/// The closest hit of two lists, one after the other, is the closer of
/// the closest hit of each.
pub proof fn lemma_closest_of_both(front: Seq<Option<RayHit>>, back: Seq<Option<RayHit>>)
    requires
        all_numbers(front),
        all_numbers(back),
    ensures
        all_numbers(front + back),
        closest(front + back) == closer(closest(front), closest(back)),
    decreases back.len(),
{
    let both = front + back;
    assert forall|i: int| 0 <= i < both.len() implies (#[trigger] both[i] matches Some(h)
        ==> !h.t.nan()) by {
        if i < front.len() {
            assert(both[i] == front[i]);
        } else {
            assert(both[i] == back[i - front.len()]);
        }
    }
    if back.len() == 0 {
        assert(both =~= front);
    } else {
        let rest = back.drop_last();
        assert forall|i: int| 0 <= i < rest.len() implies (#[trigger] rest[i] matches Some(h)
            ==> !h.t.nan()) by {
            assert(rest[i] == back[i]);
        }
        lemma_closest_of_both(front, rest);
        assert(both.drop_last() =~= front + rest);
        assert(both.last() == back.last());
        lemma_closest_is_first_least(front);
        lemma_closest_is_first_least(rest);
        assert(back[back.len() - 1] == back.last());
        lemma_closer_associative(closest(front), closest(rest), back.last());
    }
}

/// The plane an axis-aligned rectangle lies in.
#[derive(Clone, Copy, Debug, PartialEq, Eq, Structural)]
pub enum Axis {
    XY,
    XZ,
    YZ,
}

impl Axis {
    /// The axis the plane is perpendicular to, then the plane's two own
    /// axes, each as 0 for x, 1 for y, 2 for z.
    pub open spec fn axes(self) -> (int, int, int) {
        match self {
            Axis::XY => (2, 0, 1),
            Axis::XZ => (1, 0, 2),
            Axis::YZ => (0, 1, 2),
        }
    }
}

/// What the arithmetic gives at one root of a ray's meeting with a sphere.
#[derive(Clone, Copy, Debug, PartialEq, Eq, Structural)]
pub struct RootProbe {
    /// The root, a ray parameter.
    pub t: Scalar,
    /// The point of the ray at `t`.
    pub point: Point3,
    /// The unit vector from the sphere's center through `point`.
    pub outward: Vec3,
    /// The dot product of `outward` and the ray's direction.
    pub facing: Scalar,
}

/// What the arithmetic gives for one ray and one sphere.
#[derive(Clone, Copy, Debug, PartialEq, Eq, Structural)]
pub struct SphereProbe {
    /// The discriminant of the quadratic in the ray parameter.
    pub delta: Scalar,
    /// The lesser root.
    pub near: RootProbe,
    /// The greater root.
    pub far: RootProbe,
}

#[derive(Clone, Copy, Debug, PartialEq, Eq)]
pub struct Sphere {
    pub center: Point3,
    pub r: Scalar,
    pub color: Color,
    pub mat: Material,
    /// The box from `center - r` to `center + r` on every axis.
    pub bounds: AABB,
}

impl Sphere {
    pub fn new(center: Point3, r: Scalar, color: Color, mat: Material, bounds: AABB) -> (s: Sphere)
        ensures
            s == (Sphere { center, r, color, mat, bounds }),
    {
        Sphere { center, r, color, mat, bounds }
    }

    /// The hit at a root: its normal is the outward one, turned round where
    /// the ray runs along it, which is where the ray came from inside.
    pub open spec fn record(self, root: RootProbe) -> RayHit {
        let inside = (Scalar { bits: 0 }).less(root.facing);
        RayHit {
            col: self.color,
            point: root.point,
            t: root.t,
            normal: if inside {
                root.outward.negated()
            } else {
                root.outward
            },
            front_face: !inside,
            mat: self.mat,
        }
    }

    /// No hit where the discriminant is negative; else the hit at the
    /// lesser root where that root counts, else at the greater root where
    /// that one counts, else none.
    pub open spec fn hit_of(self, probe: SphereProbe) -> Option<RayHit> {
        if probe.delta.less(Scalar { bits: 0 }) {
            None
        } else if in_window(probe.near.t) {
            Some(self.record(probe.near))
        } else if in_window(probe.far.t) {
            Some(self.record(probe.far))
        } else {
            None
        }
    }

    pub fn hit(&self, probe: &SphereProbe) -> (r: Option<RayHit>)
        ensures
            r == self.hit_of(*probe),
            r matches Some(h) ==> in_window(h.t),
            r.is_none() <==> probe.delta.less(Scalar { bits: 0 }) || (!in_window(probe.near.t)
                && !in_window(probe.far.t)),
            r matches Some(h) ==> (h.front_face <==> h.normal == if in_window(probe.near.t) {
                probe.near.outward
            } else {
                probe.far.outward
            }),
    {
        if probe.delta.lt(Scalar::zero()) {
            return None;
        }
        let root = if valid_t(probe.near.t) {
            probe.near
        } else if valid_t(probe.far.t) {
            probe.far
        } else {
            return None;
        };
        let (normal, front_face) = if root.facing.gt(Scalar::zero()) {
            (root.outward.neg(), false)
        } else {
            (root.outward, true)
        };
        Some(RayHit { col: self.color, point: root.point, t: root.t, normal, front_face, mat: self.mat })
    }

    /// The box is around the sphere's center: well formed, with the center
    /// between its corners on every axis.
    pub open spec fn centered(self) -> bool {
        self.bounds.well_formed() && self.bounds.holds(self.center)
    }

    /// The box given for the sphere.
    pub fn bounding_box(&self) -> (b: Option<AABB>)
        ensures
            b == Some(self.bounds),
    {
        Some(self.bounds)
    }
}

/// The sides of a rectangle moved outward a little, so that its bounding
/// box has a thickness: each pair is the lower side lowered and the upper
/// side raised.
#[derive(Clone, Copy, Debug, PartialEq, Eq)]
pub struct RectPadding {
    /// Around `k`, on the perpendicular axis.
    pub k: (Scalar, Scalar),
    /// Around `p0`, on the first axis of the plane.
    pub a0: (Scalar, Scalar),
    /// Around `p1`, on the second axis of the plane.
    pub a1: (Scalar, Scalar),
}

/// What the arithmetic gives for one ray and one rectangle.
#[derive(Clone, Copy, Debug, PartialEq, Eq, Structural)]
pub struct RectProbe {
    /// The ray parameter at which the ray meets the rectangle's plane.
    pub t: Scalar,
    /// The meeting point's coordinate on the first axis of the plane.
    pub hit_0: Scalar,
    /// The meeting point's coordinate on the second axis of the plane.
    pub hit_1: Scalar,
    /// The dot product of the ray's direction and the unit vector along the
    /// perpendicular axis.
    pub along: Scalar,
    /// The point of the ray at `t`.
    pub point: Point3,
}

#[derive(Clone, Copy, Debug, PartialEq, Eq)]
pub struct Rect {
    /// The extent on the first axis of the plane, lower end first.
    pub p0: (Scalar, Scalar),
    /// The extent on the second axis of the plane, lower end first.
    pub p1: (Scalar, Scalar),
    /// The plane's coordinate on the perpendicular axis.
    pub k: Scalar,
    pub axis: Axis,
    pub mat: Material,
    pub padding: RectPadding,
}

impl Rect {
    pub fn new(
        p0: (Scalar, Scalar),
        p1: (Scalar, Scalar),
        k: Scalar,
        axis: Axis,
        mat: Material,
        padding: RectPadding,
    ) -> (r: Rect)
        ensures
            r == (Rect { p0, p1, k, axis, mat, padding }),
    {
        Rect { p0, p1, k, axis, mat, padding }
    }

    /// The perpendicular axis and the two axes of the plane.
    pub fn axis(axis: &Axis) -> (r: (usize, usize, usize))
        ensures
            (r.0 as int, r.1 as int, r.2 as int) == axis.axes(),
            r.0 < 3 && r.1 < 3 && r.2 < 3,
            r.0 != r.1 && r.0 != r.2 && r.1 != r.2,
    {
        match axis {
            Axis::XY => (2, 0, 1),
            Axis::XZ => (1, 0, 2),
            Axis::YZ => (0, 1, 2),
        }
    }

    /// The unit vector along the perpendicular axis.
    pub open spec fn plane_normal(self) -> Vec3 {
        (Vec3 { x: Scalar { bits: 0 }, y: Scalar { bits: 0 }, z: Scalar { bits: 0 } }).with_component(
            self.axis.axes().0,
            Scalar { bits: ONE_BITS },
        )
    }

    /// The meeting point lies on the rectangle: between its two ends on
    /// each axis of the plane, the ends included. A coordinate that is not
    /// a number lies nowhere.
    pub open spec fn covers(self, probe: RectProbe) -> bool {
        self.p0.0.at_most(probe.hit_0) && probe.hit_0.at_most(self.p0.1) && self.p1.0.at_most(
            probe.hit_1,
        ) && probe.hit_1.at_most(self.p1.1)
    }

    /// The meeting point does not lie on the rectangle.
    pub open spec fn misses(self, probe: RectProbe) -> bool {
        !self.covers(probe)
    }

    /// No hit unless the ray meets the plane at a ray parameter that
    /// counts, and on the rectangle. Else a hit whose normal is the plane's
    /// own where the ray comes against it, which is the front face, and the
    /// plane's turned round where the ray runs along it, which is the back.
    pub open spec fn hit_of(self, probe: RectProbe) -> Option<RayHit> {
        if !in_window(probe.t) {
            None
        } else if self.misses(probe) {
            None
        } else {
            let along = (Scalar { bits: 0 }).less(probe.along);
            Some(
                RayHit {
                    col: Color {
                        r: Scalar { bits: ONE_BITS },
                        g: Scalar { bits: 0 },
                        b: Scalar { bits: 0 },
                    },
                    point: probe.point,
                    t: probe.t,
                    normal: if along {
                        self.plane_normal().negated()
                    } else {
                        self.plane_normal()
                    },
                    front_face: !along,
                    mat: self.mat,
                },
            )
        }
    }

    pub fn hit(&self, probe: &RectProbe) -> (r: Option<RayHit>)
        ensures
            r == self.hit_of(*probe),
            r matches Some(h) ==> in_window(h.t),
            r matches Some(h) ==> (h.front_face <==> h.normal == self.plane_normal()),
    {
        let (perp, _a0, _a1) = Self::axis(&self.axis);
        let t = probe.t;
        if !valid_t(t) {
            return None;
        }
        let covered = self.p0.0.le(probe.hit_0) && probe.hit_0.le(self.p0.1) && self.p1.0.le(
            probe.hit_1,
        ) && probe.hit_1.le(self.p1.1);
        if !covered {
            return None;
        }
        let mut normal = Vec3::empty();
        normal.set(perp, Scalar::one());
        let (normal, front_face) = if probe.along.gt(Scalar::zero()) {
            (normal.neg(), false)
        } else {
            (normal, true)
        };
        Some(
            RayHit {
                col: Color::of_rgb(Scalar::one(), Scalar::zero(), Scalar::zero()),
                point: probe.point,
                t,
                normal,
                front_face,
                mat: self.mat,
            },
        )
    }

    /// The padding is around the rectangle: strictly below and above the
    /// plane on the perpendicular axis, and on each axis of the plane no
    /// further in than the rectangle's ends, which are in order.
    pub open spec fn padded(self) -> bool {
        &&& self.padding.k.0.less(self.k) && self.k.less(self.padding.k.1)
        &&& self.padding.a0.0.at_most(self.p0.0) && self.p0.0.at_most(self.p0.1)
            && self.p0.1.at_most(self.padding.a0.1)
        &&& self.padding.a1.0.at_most(self.p1.0) && self.p1.0.at_most(self.p1.1)
            && self.p1.1.at_most(self.padding.a1.1)
    }

    /// The padded sides, each put on its axis.
    pub open spec fn bounds(self) -> AABB {
        let (perp, a0, a1) = self.axis.axes();
        let origin = Vec3 { x: Scalar { bits: 0 }, y: Scalar { bits: 0 }, z: Scalar { bits: 0 } };
        AABB {
            start: origin.with_component(perp, self.padding.k.0).with_component(
                a0,
                self.padding.a0.0,
            ).with_component(a1, self.padding.a1.0),
            end: origin.with_component(perp, self.padding.k.1).with_component(
                a0,
                self.padding.a0.1,
            ).with_component(a1, self.padding.a1.1),
        }
    }

    /// The box of the padded sides. Around a rectangle that is padded it
    /// is well formed, has the plane strictly inside it, and reaches to the
    /// rectangle's ends or beyond.
    pub fn bounding_box(&self) -> (b: Option<AABB>)
        ensures
            b == Some(self.bounds()),
            self.padded() ==> {
                let (perp, a0, a1) = self.axis.axes();
                &&& self.bounds().well_formed()
                &&& self.bounds().start.component(perp).less(self.k)
                &&& self.k.less(self.bounds().end.component(perp))
                &&& self.bounds().start.component(a0).at_most(self.p0.0)
                &&& self.p0.1.at_most(self.bounds().end.component(a0))
                &&& self.bounds().start.component(a1).at_most(self.p1.0)
                &&& self.p1.1.at_most(self.bounds().end.component(a1))
            },
    {
        let (perp, a0, a1) = Self::axis(&self.axis);
        let mut small = Vec3::empty();
        small.set(perp, self.padding.k.0);
        small.set(a0, self.padding.a0.0);
        small.set(a1, self.padding.a1.0);
        let mut big = Vec3::empty();
        big.set(perp, self.padding.k.1);
        big.set(a0, self.padding.a0.1);
        big.set(a1, self.padding.a1.1);
        Some(AABB::new(small, big))
    }
}

/// An object seen from its front only.
#[derive(Debug, PartialEq, Eq)]
pub struct FlipFace {
    pub obj: Box<Object>,
}

impl FlipFace {
    /// A hit of the wrapped object, kept where it is on the front face.
    pub open spec fn filtered(inner: Option<RayHit>) -> Option<RayHit> {
        match inner {
            Some(h) => if h.front_face {
                inner
            } else {
                None
            },
            None => None,
        }
    }

    /// Passes on what the wrapped object's `hit` gave for the same ray,
    /// unless that hit is on the back face.
    pub fn hit(&self, inner: Option<RayHit>) -> (r: Option<RayHit>)
        ensures
            r == Self::filtered(inner),
    {
        Self::front_only(inner)
    }

    /// Keeps a hit that is on the front face.
    pub fn front_only(inner: Option<RayHit>) -> (r: Option<RayHit>)
        ensures
            r == Self::filtered(inner),
    {
        match inner {
            Some(h) => if h.front_face {
                Some(h)
            } else {
                None
            },
            None => None,
        }
    }

    pub fn bounding_box(&self) -> (b: Option<AABB>)
        ensures
            b == Some(self.obj.bounds()),
    {
        self.obj.bounding_box()
    }
}

/// One or two objects under the box that bounds them.
#[derive(Debug, PartialEq, Eq)]
pub struct ObjectGroup {
    pub first: Box<Object>,
    pub second: Option<Box<Object>>,
    /// The cached bounding box.
    pub bb: AABB,
}

#[derive(Debug, PartialEq, Eq)]
pub enum Object {
    Sphere(Sphere),
    Rect(Rect),
    FlipFace(FlipFace),
    Group(ObjectGroup),
}

impl Object {
    /// The bounding box of an object: computed for a rectangle, stored for
    /// a sphere and a group, the wrapped object's for a wrapper.
    pub open spec fn bounds(self) -> AABB
        decreases self,
    {
        match self {
            Object::Sphere(s) => s.bounds,
            Object::Rect(r) => r.bounds(),
            Object::FlipFace(f) => f.obj.bounds(),
            Object::Group(g) => g.bb,
        }
    }

    /// Every group in the object, itself included, has the union of its
    /// members' boxes as its cached box.
    pub open spec fn sound(self) -> bool
        decreases self,
    {
        match self {
            Object::Sphere(_) => true,
            Object::Rect(_) => true,
            Object::FlipFace(f) => f.obj.sound(),
            Object::Group(g) => g.well_formed() && g.first.sound() && (g.second matches Some(o)
                ==> o.sound()),
        }
    }

    /// Every sphere and rectangle in the object has a well-formed box.
    pub open spec fn boxed(self) -> bool
        decreases self,
    {
        match self {
            Object::Sphere(s) => s.bounds.well_formed(),
            Object::Rect(r) => r.bounds().well_formed(),
            Object::FlipFace(f) => f.obj.boxed(),
            Object::Group(g) => g.first.boxed() && (g.second matches Some(o) ==> o.boxed()),
        }
    }

    /// `other` is this object or lies somewhere within it.
    pub open spec fn holds(self, other: Object) -> bool
        decreases self,
    {
        self == other || match self {
            Object::Sphere(_) => false,
            Object::Rect(_) => false,
            Object::FlipFace(f) => f.obj.holds(other),
            Object::Group(g) => g.first.holds(other) || (g.second matches Some(o) && o.holds(
                other,
            )),
        }
    }

    /// The box of an object encloses the box of everything within it: of
    /// each member of a group, of their members in turn, and so on down.
    pub proof fn lemma_bounds_enclose(self, inner: Object)
        requires
            self.sound(),
            self.boxed(),
            self.holds(inner),
        ensures
            self.bounds().well_formed(),
            inner.bounds().well_formed(),
            self.bounds().contains(inner.bounds()),
        decreases self,
    {
        match self {
            Object::Sphere(_) => {},
            Object::Rect(_) => {},
            Object::FlipFace(f) => {
                f.obj.lemma_bounds_enclose(*f.obj);
                if self != inner {
                    f.obj.lemma_bounds_enclose(inner);
                }
            },
            Object::Group(g) => {
                let first = *g.first;
                first.lemma_bounds_enclose(first);
                match g.second {
                    None => {
                        if self != inner {
                            first.lemma_bounds_enclose(inner);
                        }
                    },
                    Some(second) => {
                        second.lemma_bounds_enclose(*second);
                        first.bounds().lemma_combined_is_least(second.bounds(), g.bb);
                        if self != inner {
                            if first.holds(inner) {
                                first.lemma_bounds_enclose(inner);
                                g.bb.lemma_contains_transitive(first.bounds(), inner.bounds());
                            } else {
                                second.lemma_bounds_enclose(inner);
                                g.bb.lemma_contains_transitive(second.bounds(), inner.bounds());
                            }
                        }
                    },
                }
            },
        }
    }

    pub fn bounding_box(&self) -> (b: Option<AABB>)
        ensures
            b == Some(self.bounds()),
        decreases self,
    {
        match self {
            Object::Sphere(s) => s.bounding_box(),
            Object::Rect(r) => r.bounding_box(),
            Object::FlipFace(f) => f.obj.bounding_box(),
            Object::Group(g) => g.bounding_box(),
        }
    }
}

impl ObjectGroup {
    /// The union of the members' bounding boxes.
    pub open spec fn union_of(first: Object, second: Option<Box<Object>>) -> AABB {
        match second {
            Some(other) => first.bounds().combined(other.bounds()),
            None => first.bounds(),
        }
    }

    /// The cached box is the union of the members' boxes.
    pub open spec fn well_formed(self) -> bool {
        self.bb == Self::union_of(*self.first, self.second)
    }

    /// No hit where the ray misses the cached box; else the closest of the
    /// members' hits, the earlier member's where two are equally close.
    pub open spec fn hit_of(probe: BoxProbe, member_hits: Seq<Option<RayHit>>) -> Option<RayHit> {
        if probe.passes(t_min(), t_max()) {
            closest(member_hits)
        } else {
            None
        }
    }

    /// The group of one object, under that object's box.
    pub open spec fn of_one(first: Object) -> ObjectGroup {
        ObjectGroup { first: Box::new(first), second: None, bb: first.bounds() }
    }

    /// The group of two objects, under the union of their boxes.
    pub open spec fn of_two(first: Object, second: Object) -> ObjectGroup {
        ObjectGroup {
            first: Box::new(first),
            second: Some(Box::new(second)),
            bb: first.bounds().combined(second.bounds()),
        }
    }

    /// A group of one.
    pub fn single(first: Object) -> (g: ObjectGroup)
        ensures
            g == Self::of_one(first),
            g.well_formed(),
    {
        let bb = first.bounding_box().unwrap();
        ObjectGroup { first: Box::new(first), second: None, bb }
    }

    /// A group of two.
    pub fn pair(first: Object, second: Object) -> (g: ObjectGroup)
        ensures
            g == Self::of_two(first, second),
            g.well_formed(),
    {
        let a = first.bounding_box().unwrap();
        let b = second.bounding_box().unwrap();
        ObjectGroup { first: Box::new(first), second: Some(Box::new(second)), bb: a.combine(&b) }
    }

    /// The hit of the group, from the slabs of its cached box and from the
    /// members' hits for the same ray, in member order.
    pub fn hit(&self, probe: &BoxProbe, member_hits: &Vec<Option<RayHit>>) -> (r: Option<RayHit>)
        ensures
            r == Self::hit_of(*probe, member_hits@),
            all_numbers(member_hits@) ==> (r.is_none() <==> !probe.passes(t_min(), t_max())
                || all_none(member_hits@)),
            all_numbers(member_hits@) ==> (r matches Some(best) ==> first_least(
                member_hits@,
                best,
            )),
    {
        proof {
            if all_numbers(member_hits@) {
                lemma_closest_is_first_least(member_hits@);
            }
        }
        if !self.bb.hit(probe, t_min(), t_max()) {
            return None;
        }
        let mut acc: Option<RayHit> = None;
        let mut i: usize = 0;
        while i < member_hits.len()
            invariant
                i <= member_hits.len(),
                acc == closest(member_hits@.take(i as int)),
            decreases member_hits.len() - i,
        {
            proof {
                assert(member_hits@.take(i + 1).drop_last() == member_hits@.take(i as int));
            }
            acc = keep_closer(acc, member_hits[i]);
            i += 1;
        }
        proof {
            assert(member_hits@.take(member_hits.len() as int) == member_hits@);
        }
        acc
    }

    /// The cached box.
    pub fn bounding_box(&self) -> (b: Option<AABB>)
        ensures
            b == Some(self.bb),
    {
        Some(self.bb)
    }
}

} // verus!
