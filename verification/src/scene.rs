//! The scene and the light transport along one path through it.
//!
//! A path starts with a ray from the camera. The ray is traced to its
//! closest hit; the material hit scatters it into a next ray or ends the
//! path; and so on until the path ends or has used up its depth. The caller
//! traces and scatters, which takes arithmetic and random draws; a [`Path`]
//! decides how the path goes on, and keeps the attenuations by which the
//! colour found at its end is to be multiplied.

use vstd::prelude::*;
use crate::scalar::{Scalar, INFINITY_BITS};
use crate::ray::Ray;
use crate::color::Color;
use crate::object::{all_numbers, closest, lemma_closest_is_first_least, Object, RayHit};

verus! {

/// The objects to render.
pub struct Scene {
    pub objects: Vec<Object>,
}

/// Of an accumulated hit and a further one, the one to keep over a whole
/// scene: the further one where it is strictly closer than the accumulated
/// one, or, with nothing accumulated, strictly closer than infinity.
pub open spec fn nearer(acc: Option<RayHit>, hit: Option<RayHit>) -> Option<RayHit> {
    match hit {
        None => acc,
        Some(h) => {
            let bound = match acc {
                Some(a) => a.t,
                None => Scalar { bits: INFINITY_BITS },
            };
            if h.t.less(bound) {
                hit
            } else {
                acc
            }
        },
    }
}

/// The hit kept after going through the hits of a scene's objects from the
/// front of the list.
pub open spec fn nearest(hits: Seq<Option<RayHit>>) -> Option<RayHit>
    decreases hits.len(),
{
    if hits.len() == 0 {
        None
    } else {
        nearer(nearest(hits.drop_last()), hits.last())
    }
}

/// A hit as a whole scene sees it: none unless its ray parameter is below
/// infinity.
pub open spec fn below_infinity(hit: Option<RayHit>) -> Option<RayHit> {
    match hit {
        Some(h) => if h.t.less(Scalar { bits: INFINITY_BITS }) {
            hit
        } else {
            None
        },
        None => None,
    }
}

/// The hits of a list as a whole scene sees them.
pub open spec fn all_below_infinity(hits: Seq<Option<RayHit>>) -> Seq<Option<RayHit>> {
    Seq::new(hits.len(), |i: int| below_infinity(hits[i]))
}

/// Over a whole scene the hit kept is the closest of those below infinity.
pub proof fn lemma_nearest_is_closest_below_infinity(hits: Seq<Option<RayHit>>)
    ensures
        nearest(hits) == closest(all_below_infinity(hits)),
        all_numbers(all_below_infinity(hits)),
    decreases hits.len(),
{
    if hits.len() > 0 {
        lemma_nearest_is_closest_below_infinity(hits.drop_last());
        assert(all_below_infinity(hits).drop_last() =~= all_below_infinity(hits.drop_last()));
    }
}

/// What `nearest` keeps is the first of the hits with the least ray
/// parameter among those below infinity, and nothing exactly when no hit is
/// below infinity.
pub proof fn lemma_nearest_is_first_least(hits: Seq<Option<RayHit>>)
    ensures
        nearest(hits).is_none() <==> forall|i: int|
            0 <= i < hits.len() ==> (#[trigger] hits[i] matches Some(h) ==> !h.t.less(
                Scalar { bits: INFINITY_BITS },
            )),
        nearest(hits) matches Some(best) ==> best.t.less(Scalar { bits: INFINITY_BITS })
            && exists|i: int|
            {
                &&& 0 <= i < hits.len()
                &&& #[trigger] hits[i] == Some(best)
                &&& forall|j: int|
                    0 <= j < hits.len() ==> (#[trigger] hits[j] matches Some(other)
                        ==> !other.t.less(best.t))
                &&& forall|j: int|
                    0 <= j < i ==> (#[trigger] hits[j] matches Some(other) ==> !other.t.at_most(
                        best.t,
                    ))
            },
{
    let seen = all_below_infinity(hits);
    lemma_nearest_is_closest_below_infinity(hits);
    lemma_closest_is_first_least(seen);
    assert forall|i: int| 0 <= i < hits.len() implies #[trigger] seen[i] == below_infinity(
        hits[i],
    ) by {}
    if nearest(hits).is_none() {
        assert forall|i: int| 0 <= i < hits.len() implies (#[trigger] hits[i] matches Some(h)
            ==> !h.t.less(Scalar { bits: INFINITY_BITS })) by {
            assert(seen[i].is_none());
        }
    }
    if let Some(best) = nearest(hits) {
        let i = choose|i: int|
            {
                &&& 0 <= i < seen.len()
                &&& #[trigger] seen[i] == Some(best)
                &&& forall|j: int|
                    0 <= j < seen.len() ==> (#[trigger] seen[j] matches Some(other)
                        ==> best.t.at_most(other.t))
                &&& forall|j: int|
                    0 <= j < i ==> (#[trigger] seen[j] matches Some(other) ==> best.t.less(
                        other.t,
                    ))
            };
        assert(seen[i] == below_infinity(hits[i]));
        assert(hits[i] == Some(best));
        assert forall|j: int| 0 <= j < hits.len() implies (#[trigger] hits[j] matches Some(other)
            ==> !other.t.less(best.t)) by {
            assert(seen[j] == below_infinity(hits[j]));
        }
        assert forall|j: int| 0 <= j < i implies (#[trigger] hits[j] matches Some(other)
            ==> !other.t.at_most(best.t)) by {
            assert(seen[j] == below_infinity(hits[j]));
        }
    } else {
        assert forall|i: int| 0 <= i < seen.len() implies seen[i].is_none() by {
            assert(seen[i] == below_infinity(hits[i]));
        }
    }
}

/// Where a path stands.
#[derive(Clone, Copy, Debug, PartialEq, Eq, Structural)]
pub enum PathState {
    /// The ray is to be traced; `depth` rays, this one included, may still
    /// be traced.
    Trace { ray: Ray, depth: i32 },
    /// The ray hit a surface, whose material is to scatter it.
    Scatter { ray: Ray, hit: RayHit, depth: i32 },
    /// The path has ended with this colour, not yet attenuated.
    Done { color: Color },
}

/// A path, as the contracts see it.
pub struct PathModel {
    pub state: PathState,
    pub background: Color,
    /// The attenuations met so far, the first bounce's first.
    pub attenuations: Seq<Color>,
}

impl PathModel {
    /// A path at its start: ended in black where no ray may be traced.
    pub open spec fn start(ray: Ray, max_depth: i32, background: Color) -> PathModel {
        PathModel {
            state: if max_depth <= 0 {
                PathState::Done { color: Color::black() }
            } else {
                PathState::Trace { ray, depth: max_depth }
            },
            background,
            attenuations: Seq::empty(),
        }
    }

    /// The path after its ray was traced: ended in the background colour
    /// where nothing was hit, else waiting for the hit's material. A path
    /// that was not waiting for a trace stays as it is.
    pub open spec fn traced(self, closest: Option<RayHit>) -> PathModel {
        match self.state {
            PathState::Trace { ray, depth } => PathModel {
                state: match closest {
                    None => PathState::Done { color: self.background },
                    Some(hit) => PathState::Scatter { ray, hit, depth },
                },
                ..self
            },
            _ => self,
        }
    }

    /// The path after the material scattered its ray: ended in what the
    /// material gives off where it did not scatter; else attenuated once
    /// more, and going on along the scattered ray with one ray fewer to
    /// trace, or ended in black where none is left. A path that was not
    /// waiting for a material stays as it is.
    pub open spec fn scattered(self, outcome: Option<(Color, Ray)>) -> PathModel {
        match self.state {
            PathState::Scatter { hit, depth, .. } => match outcome {
                None => PathModel { state: PathState::Done { color: hit.mat.emitted() }, ..self },
                Some((attenuation, bounce)) => PathModel {
                    state: if depth - 1 <= 0 {
                        PathState::Done { color: Color::black() }
                    } else {
                        PathState::Trace { ray: bounce, depth: (depth - 1) as i32 }
                    },
                    background: self.background,
                    attenuations: self.attenuations.push(attenuation),
                },
            },
            _ => self,
        }
    }

    /// A bound on the traces and scatterings the path can still take: two
    /// for each ray that it may still trace, less one where the ray at hand
    /// has been traced already.
    pub open spec fn steps_left(self) -> int {
        match self.state {
            PathState::Trace { depth, .. } => if depth >= 1 {
                2 * depth
            } else {
                2
            },
            PathState::Scatter { depth, .. } => if depth >= 1 {
                2 * depth - 1
            } else {
                1
            },
            PathState::Done { .. } => 0,
        }
    }

    /// Each trace and each scattering that a path was waiting for brings it
    /// nearer to its end; so a path ends.
    pub proof fn lemma_steps_fall(self, closest: Option<RayHit>, outcome: Option<(Color, Ray)>)
        ensures
            self.steps_left() >= 0,
            self.steps_left() == 0 <==> self.state is Done,
            self.state is Trace ==> self.traced(closest).steps_left() < self.steps_left(),
            self.state is Scatter ==> self.scattered(outcome).steps_left() < self.steps_left(),
    {
    }

    /// A path that may trace `max_depth` rays starts at most `2 * max_depth`
    /// steps from its end; one that may trace none starts at its end, in
    /// black.
    pub proof fn lemma_start_bounded(ray: Ray, max_depth: i32, background: Color)
        ensures
            max_depth >= 1 ==> Self::start(ray, max_depth, background).steps_left() == 2
                * max_depth,
            max_depth <= 0 ==> Self::start(ray, max_depth, background).factors() == seq![
                Color::black(),
            ],
    {
        assert(Seq::<Color>::empty().reverse() =~= Seq::<Color>::empty());
        assert(seq![Color::black()] + Seq::<Color>::empty() =~= seq![Color::black()]);
    }

    /// A first ray that hits nothing gives the background colour, and
    /// nothing to multiply it by.
    pub proof fn lemma_miss_gives_background(ray: Ray, max_depth: i32, background: Color)
        requires
            max_depth >= 1,
        ensures
            Self::start(ray, max_depth, background).traced(None).factors() == seq![background],
    {
        assert(Seq::<Color>::empty().reverse() =~= Seq::<Color>::empty());
        assert(seq![background] + Seq::<Color>::empty() =~= seq![background]);
    }

    /// A first ray that hits a surface which does not scatter gives what
    /// the surface's material gives off, and nothing to multiply it by.
    pub proof fn lemma_light_gives_emitted(
        ray: Ray,
        max_depth: i32,
        background: Color,
        hit: RayHit,
    )
        requires
            max_depth >= 1,
        ensures
            Self::start(ray, max_depth, background).traced(Some(hit)).scattered(None).factors()
                == seq![hit.mat.emitted()],
    {
        assert(Seq::<Color>::empty().reverse() =~= Seq::<Color>::empty());
        assert(seq![hit.mat.emitted()] + Seq::<Color>::empty() =~= seq![hit.mat.emitted()]);
    }

    /// The factors of the final colour, in the order in which they are to
    /// be multiplied: the colour at the path's end, then the attenuations
    /// from the last bounce back to the first. While the path has not ended
    /// there are none.
    pub open spec fn factors(self) -> Seq<Color> {
        match self.state {
            PathState::Done { color } => seq![color] + self.attenuations.reverse(),
            _ => Seq::empty(),
        }
    }
}

/// The light transport along one path.
pub struct Path {
    state: PathState,
    background: Color,
    attenuations: Vec<Color>,
}

impl View for Path {
    type V = PathModel;

    closed spec fn view(&self) -> PathModel {
        PathModel {
            state: self.state,
            background: self.background,
            attenuations: self.attenuations@,
        }
    }
}

impl Path {
    /// Where the path stands.
    pub fn state(&self) -> (s: PathState)
        ensures
            s == self@.state,
    {
        self.state
    }

    /// Takes what tracing the path's ray through the scene gave: the
    /// closest hit, if any.
    pub fn trace(&mut self, closest: Option<RayHit>)
        ensures
            final(self)@ == old(self)@.traced(closest),
            old(self)@.state is Trace ==> final(self)@.steps_left() < old(self)@.steps_left(),
    {
        if let PathState::Trace { ray, depth } = self.state {
            self.state = match closest {
                None => PathState::Done { color: self.background },
                Some(hit) => PathState::Scatter { ray, hit, depth },
            };
        }
    }

    /// Takes what the material of the hit made of the ray: an attenuation
    /// and a next ray, or nothing.
    pub fn scatter(&mut self, outcome: Option<(Color, Ray)>)
        ensures
            final(self)@ == old(self)@.scattered(outcome),
            old(self)@.state is Scatter ==> final(self)@.steps_left() < old(self)@.steps_left(),
    {
        if let PathState::Scatter { ray, hit, depth } = self.state {
            match outcome {
                None => {
                    self.state = PathState::Done { color: hit.mat.emit(&ray, &hit) };
                },
                Some((attenuation, bounce)) => {
                    self.attenuations.push(attenuation);
                    self.state = if depth <= 1 {
                        PathState::Done { color: Color::black() }
                    } else {
                        PathState::Trace { ray: bounce, depth: depth - 1 }
                    };
                },
            }
        }
    }

    /// The factors of the path's colour, in the order in which they are to
    /// be multiplied, channel by channel. Empty while the path has not
    /// ended.
    pub fn factors(&self) -> (f: Vec<Color>)
        ensures
            f@ == self@.factors(),
    {
        let mut out: Vec<Color> = Vec::new();
        if let PathState::Done { color } = self.state {
            out.push(color);
            let mut i: usize = self.attenuations.len();
            while i > 0
                invariant
                    i <= self.attenuations.len(),
                    out@ == seq![color] + self.attenuations@.reverse().take(
                        self.attenuations.len() - i,
                    ),
                decreases i,
            {
                i -= 1;
                out.push(self.attenuations[i]);
                proof {
                    let rev = self.attenuations@.reverse();
                    let k = self.attenuations.len() - i;
                    assert(rev.take(k) =~= rev.take(k - 1).push(self.attenuations@[i as int]));
                    assert(out@ =~= seq![color] + rev.take(k));
                }
            }
            proof {
                let rev = self.attenuations@.reverse();
                assert(rev.take(self.attenuations.len() as int) =~= rev);
            }
        }
        out
    }
}

impl Scene {
    /// The closest of the hits that the scene's objects gave for one ray,
    /// in the order of the objects; none where no hit is nearer than
    /// infinity.
    pub fn closest_hit(hits: &Vec<Option<RayHit>>) -> (r: Option<RayHit>)
        ensures
            r == nearest(hits@),
    {
        let mut acc: Option<RayHit> = None;
        let mut i: usize = 0;
        while i < hits.len()
            invariant
                i <= hits.len(),
                acc == nearest(hits@.take(i as int)),
            decreases hits.len() - i,
        {
            proof {
                assert(hits@.take(i + 1).drop_last() == hits@.take(i as int));
            }
            if let Some(hit) = hits[i] {
                let bound = match acc {
                    Some(a) => a.t,
                    None => Scalar::infinity(),
                };
                if hit.t.lt(bound) {
                    acc = Some(hit);
                }
            }
            i += 1;
        }
        proof {
            assert(hits@.take(hits.len() as int) == hits@);
        }
        acc
    }

    /// Begins the light transport along the path that starts with `ray`,
    /// tracing at most `max_depth` rays, where a ray that hits nothing sees
    /// `infinity_color`.
    pub fn color_of_ray(&self, ray: &Ray, max_depth: i32, infinity_color: Color) -> (p: Path)
        ensures
            p@ == PathModel::start(*ray, max_depth, infinity_color),
            max_depth >= 1 ==> p@.steps_left() == 2 * max_depth,
            max_depth <= 0 ==> p@.state == (PathState::Done { color: Color::black() }),
    {
        Path {
            state: if max_depth <= 0 {
                PathState::Done { color: Color::black() }
            } else {
                PathState::Trace { ray: *ray, depth: max_depth }
            },
            background: infinity_color,
            attenuations: Vec::new(),
        }
    }
}

} // verus!
