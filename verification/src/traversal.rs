//! Finding the hit of a ray in a tree of objects, one probe at a time.
//!
//! A [`Traversal`] walks the tree and asks, for each box, sphere and
//! rectangle it comes to, what the arithmetic gives for the ray at hand; it
//! never asks about what lies under a box that the ray misses. The caller
//! computes each answer and hands it back, until the traversal is done.

use vstd::prelude::*;
use crate::bounding_box::{AABB, BoxProbe};
use crate::object::{
    all_numbers, closer, closest, in_window, keep_closer, lemma_closest_of_both, t_max, t_min, FlipFace, Object, ObjectGroup, RayHit, Rect, RectProbe,
    Sphere, SphereProbe,
};

verus! {

/// What the arithmetic gives for one ray, of every box, sphere and
/// rectangle there is.
pub struct Oracle {
    pub bounds: spec_fn(AABB) -> BoxProbe,
    pub sphere: spec_fn(Sphere) -> SphereProbe,
    pub rect: spec_fn(Rect) -> RectProbe,
}

impl Object {
    /// The hit of an object for the ray behind an oracle.
    ///
    /// A sphere's and a rectangle's are their own. A wrapper's is that of
    /// what it wraps, if on the front face. A group's is none where the ray
    /// misses its cached box, and else the closer of its members' hits, the
    /// first member's where both are equally close.
    pub open spec fn hit_under(self, rho: Oracle) -> Option<RayHit>
        decreases self,
    {
        match self {
            Object::Sphere(s) => s.hit_of((rho.sphere)(s)),
            Object::Rect(r) => r.hit_of((rho.rect)(r)),
            Object::FlipFace(f) => FlipFace::filtered(f.obj.hit_under(rho)),
            Object::Group(g) => if (rho.bounds)(g.bb).passes(t_min(), t_max()) {
                match g.second {
                    None => closer(None, g.first.hit_under(rho)),
                    Some(second) => closer(
                        closer(None, g.first.hit_under(rho)),
                        second.hit_under(rho),
                    ),
                }
            } else {
                None
            },
        }
    }

    /// The number of boxes, spheres and rectangles in an object.
    pub open spec fn probes(self) -> nat
        decreases self,
    {
        match self {
            Object::Sphere(_) => 1,
            Object::Rect(_) => 1,
            Object::FlipFace(f) => f.obj.probes(),
            Object::Group(g) => 1 + g.first.probes() + match g.second {
                None => 0,
                Some(second) => second.probes(),
            },
        }
    }
}

impl ObjectGroup {
    /// The hits of a group's members for the ray behind an oracle, in
    /// member order.
    pub open spec fn member_hits(self, rho: Oracle) -> Seq<Option<RayHit>> {
        match self.second {
            None => seq![self.first.hit_under(rho)],
            Some(second) => seq![self.first.hit_under(rho), second.hit_under(rho)],
        }
    }

    /// The hit of a group is none where the ray misses the group's box, and
    /// else the closest of its members' hits, each found in the same way.
    pub proof fn lemma_hit_is_closest_of_members(self, rho: Oracle)
        ensures
            Object::Group(self).hit_under(rho) == Self::hit_of(
                (rho.bounds)(self.bb),
                self.member_hits(rho),
            ),
    {
        let hits = self.member_hits(rho);
        reveal_with_fuel(closest, 3);
        match self.second {
            None => {
                assert(hits.drop_last() =~= Seq::<Option<RayHit>>::empty());
            },
            Some(second) => {
                assert(hits.drop_last() =~= seq![self.first.hit_under(rho)]);
                assert(hits.drop_last().drop_last() =~= Seq::<Option<RayHit>>::empty());
            },
        }
    }
}

impl Object {
    /// The hits of everything that is not a group, from the first member
    /// of each group to the second, for the ray behind an oracle.
    pub open spec fn leaf_hits(self, rho: Oracle) -> Seq<Option<RayHit>>
        decreases self,
    {
        match self {
            Object::Group(g) => match g.second {
                None => g.first.leaf_hits(rho),
                Some(second) => g.first.leaf_hits(rho) + second.leaf_hits(rho),
            },
            _ => seq![self.hit_under(rho)],
        }
    }

    /// The boxes of the groups say nothing wrong of the ray behind the
    /// oracle: whenever the ray misses a group's box, it hits nothing in
    /// the group.
    pub open spec fn conservative(self, rho: Oracle) -> bool
        decreases self,
    {
        match self {
            Object::Group(g) => {
                &&& (rho.bounds)(g.bb).passes(t_min(), t_max()) || closest(self.leaf_hits(rho))
                    is None
                &&& g.first.conservative(rho)
                &&& g.second matches Some(second) ==> second.conservative(rho)
            },
            _ => true,
        }
    }

    /// Whatever the oracle gives, a hit has a ray parameter that counts:
    /// one within the window, and so a number.
    pub proof fn lemma_hit_in_window(self, rho: Oracle)
        ensures
            self.hit_under(rho) matches Some(h) ==> in_window(h.t),
        decreases self,
    {
        match self {
            Object::Sphere(_) => {},
            Object::Rect(_) => {},
            Object::FlipFace(f) => {
                f.obj.lemma_hit_in_window(rho);
            },
            Object::Group(g) => {
                g.first.lemma_hit_in_window(rho);
                match g.second {
                    None => {},
                    Some(second) => {
                        second.lemma_hit_in_window(rho);
                    },
                }
            },
        }
    }

    /// Every hit of what is in an object has a ray parameter that is a
    /// number.
    pub proof fn lemma_leaf_hits_are_numbers(self, rho: Oracle)
        ensures
            all_numbers(self.leaf_hits(rho)),
        decreases self,
    {
        let hits = self.leaf_hits(rho);
        match self {
            Object::Group(g) => {
                g.first.lemma_leaf_hits_are_numbers(rho);
                match g.second {
                    None => {},
                    Some(second) => {
                        second.lemma_leaf_hits_are_numbers(rho);
                        lemma_closest_of_both(g.first.leaf_hits(rho), second.leaf_hits(rho));
                    },
                }
            },
            _ => {
                self.lemma_hit_in_window(rho);
                assert(hits[0] == self.hit_under(rho));
            },
        }
    }

    /// Passing by what lies under a missed box loses nothing: where the
    /// boxes say nothing wrong of the ray, the hit of a tree is the closest
    /// of the hits of all that is in it.
    pub proof fn lemma_pruning_loses_nothing(self, rho: Oracle)
        requires
            self.conservative(rho),
        ensures
            self.hit_under(rho) == closest(self.leaf_hits(rho)),
        decreases self,
    {
        reveal_with_fuel(closest, 2);
        match self {
            Object::Group(g) => {
                let first = g.first.leaf_hits(rho);
                match g.second {
                    None => {
                        g.first.lemma_pruning_loses_nothing(rho);
                    },
                    Some(second) => {
                        let rest = second.leaf_hits(rho);
                        g.first.lemma_leaf_hits_are_numbers(rho);
                        second.lemma_leaf_hits_are_numbers(rho);
                        g.first.lemma_pruning_loses_nothing(rho);
                        second.lemma_pruning_loses_nothing(rho);
                        lemma_closest_of_both(first, rest);
                    },
                }
            },
            _ => {
                let hits = self.leaf_hits(rho);
                assert(hits.drop_last() =~= Seq::<Option<RayHit>>::empty());
            },
        }
    }
}

/// What a traversal has yet to do with the hit of the object it is at.
enum Frame<'a> {
    /// Drop it unless it is on the front face.
    Flip,
    /// It is the hit of a group's first member: go on to the second, if
    /// there is one.
    First { second: Option<&'a Object> },
    /// It is the hit of a group's second member: keep the closer of it and
    /// of the first member's.
    Second { acc: Option<RayHit> },
}

/// What a traversal asks for next.
pub enum Request<'a> {
    /// The slabs of this box.
    Bounds(&'a AABB),
    /// The probe of this sphere.
    Sphere(&'a Sphere),
    /// The probe of this rectangle.
    Rect(&'a Rect),
    /// Nothing: this is the hit of the tree.
    Done(Option<RayHit>),
}

/// What the caller computed.
pub enum Answer {
    Bounds(BoxProbe),
    Sphere(SphereProbe),
    Rect(RectProbe),
}

impl Oracle {
    /// The answer is what the oracle gives for the thing asked about.
    pub open spec fn gives(self, request: Request, answer: Answer) -> bool {
        match (request, answer) {
            (Request::Bounds(b), Answer::Bounds(p)) => (self.bounds)(*b) == p,
            (Request::Sphere(s), Answer::Sphere(p)) => (self.sphere)(*s) == p,
            (Request::Rect(r), Answer::Rect(p)) => (self.rect)(*r) == p,
            _ => false,
        }
    }
}

/// The answer is of the kind asked for.
pub open spec fn fits(request: Request, answer: Answer) -> bool {
    match (request, answer) {
        (Request::Bounds(_), Answer::Bounds(_)) => true,
        (Request::Sphere(_), Answer::Sphere(_)) => true,
        (Request::Rect(_), Answer::Rect(_)) => true,
        _ => false,
    }
}

/// The sphere, rectangle or group that a traversal is at.
enum Stop<'a> {
    Sphere(&'a Sphere),
    Rect(&'a Rect),
    Group(&'a ObjectGroup),
}

impl<'a> Stop<'a> {
    spec fn object(self) -> Object {
        match self {
            Stop::Sphere(s) => Object::Sphere(*s),
            Stop::Rect(r) => Object::Rect(*r),
            Stop::Group(g) => Object::Group(*g),
        }
    }

    spec fn request(self) -> Request<'a> {
        match self {
            Stop::Sphere(s) => Request::Sphere(s),
            Stop::Rect(r) => Request::Rect(r),
            Stop::Group(g) => Request::Bounds(&g.bb),
        }
    }
}

enum Walk<'a> {
    /// At something to probe, with what is yet to be done with its hit.
    At { stack: Vec<Frame<'a>>, stop: Stop<'a> },
    /// Through, with the hit of the tree.
    Through { hit: Option<RayHit> },
}

/// The hit of the tree, from the hit of the object that the traversal is
/// at and from what is yet to be done with it.
spec fn resume(stack: Seq<Frame>, hit: Option<RayHit>, rho: Oracle) -> Option<RayHit>
    decreases stack.len(),
{
    if stack.len() == 0 {
        hit
    } else {
        let rest = stack.drop_last();
        match stack.last() {
            Frame::Flip => resume(rest, FlipFace::filtered(hit), rho),
            Frame::First { second: None } => resume(rest, closer(None, hit), rho),
            Frame::First { second: Some(second) } => resume(
                rest,
                closer(closer(None, hit), second.hit_under(rho)),
                rho,
            ),
            Frame::Second { acc } => resume(rest, closer(acc, hit), rho),
        }
    }
}

/// The probes that the frames still call for.
spec fn owed(stack: Seq<Frame>) -> nat
    decreases stack.len(),
{
    if stack.len() == 0 {
        0
    } else {
        owed(stack.drop_last()) + match stack.last() {
            Frame::First { second: Some(second) } => second.probes(),
            _ => 0,
        }
    }
}

impl<'a> Walk<'a> {
    spec fn outcome(self, rho: Oracle) -> Option<RayHit> {
        match self {
            Walk::At { stack, stop } => resume(stack@, stop.object().hit_under(rho), rho),
            Walk::Through { hit } => hit,
        }
    }

    spec fn pending(self) -> nat {
        match self {
            Walk::At { stack, stop } => owed(stack@) + stop.object().probes(),
            Walk::Through { .. } => 0,
        }
    }

    spec fn asks(self) -> Request<'a> {
        match self {
            Walk::At { stop, .. } => stop.request(),
            Walk::Through { hit } => Request::Done(hit),
        }
    }
}

proof fn lemma_probes_positive(obj: Object)
    ensures
        obj.probes() >= 1,
    decreases obj,
{
    match obj {
        Object::FlipFace(f) => lemma_probes_positive(*f.obj),
        _ => {},
    }
}

/// What an object is to a traversal: something to stop at, or a wrapper
/// around something else.
enum Below<'a> {
    Stop(Stop<'a>),
    Wrapped(&'a Object),
}

fn below<'a>(obj: &'a Object) -> (b: Below<'a>)
    ensures
        match b {
            Below::Stop(stop) => stop.object() == *obj,
            Below::Wrapped(inner) => *obj matches Object::FlipFace(f) && *f.obj == *inner,
        },
{
    match obj {
        Object::Sphere(s) => Below::Stop(Stop::Sphere(s)),
        Object::Rect(r) => Below::Stop(Stop::Rect(r)),
        Object::Group(g) => Below::Stop(Stop::Group(g)),
        Object::FlipFace(f) => Below::Wrapped(&*f.obj),
    }
}

/// Goes down through the wrappers around an object to what they wrap.
fn descend<'a>(frames: Vec<Frame<'a>>, obj: &'a Object) -> (walk: Walk<'a>)
    ensures
        walk is At,
        forall|rho: Oracle| #[trigger]
            walk.outcome(rho) == resume(frames@, obj.hit_under(rho), rho),
        walk.pending() == owed(frames@) + obj.probes(),
{
    let ghost given = frames@;
    let mut stack = frames;
    let mut at: &'a Object = obj;
    loop
        invariant
            given == frames@,
            forall|rho: Oracle| #[trigger]
                resume(stack@, at.hit_under(rho), rho) == resume(given, obj.hit_under(rho), rho),
            owed(stack@) + at.probes() == owed(given) + obj.probes(),
        decreases at,
    {
        match below(at) {
            Below::Stop(stop) => {
                let walk = Walk::At { stack, stop };
                proof {
                    assert forall|rho: Oracle| #[trigger]
                        walk.outcome(rho) == resume(given, obj.hit_under(rho), rho) by {
                        assert(walk.outcome(rho) == resume(stack@, at.hit_under(rho), rho));
                    }
                }
                return walk;
            },
            Below::Wrapped(inner) => {
                let ghost before = stack@;
                stack.push(Frame::Flip);
                proof {
                    assert(stack@.drop_last() == before);
                    assert forall|rho: Oracle| #[trigger]
                        resume(stack@, inner.hit_under(rho), rho) == resume(
                            given,
                            obj.hit_under(rho),
                            rho,
                        ) by {
                        assert(resume(stack@, inner.hit_under(rho), rho) == resume(
                            before,
                            at.hit_under(rho),
                            rho,
                        ));
                    }
                }
                at = inner;
            },
        }
    }
}

/// Hands a hit up through the frames, until a second member wants probing
/// or no frame is left.
fn unwind<'a>(frames: Vec<Frame<'a>>, found: Option<RayHit>) -> (walk: Walk<'a>)
    ensures
        forall|rho: Oracle| #[trigger] walk.outcome(rho) == resume(frames@, found, rho),
        walk.pending() <= owed(frames@),
{
    let ghost given = frames@;
    let ghost given_hit = found;
    let mut stack = frames;
    let mut hit = found;
    loop
        invariant
            given == frames@,
            given_hit == found,
            forall|rho: Oracle| #[trigger]
                resume(stack@, hit, rho) == resume(given, given_hit, rho),
            owed(stack@) <= owed(given),
        decreases stack.len(),
    {
        let ghost before = stack@;
        let ghost hit_before = hit;
        match stack.pop() {
            None => {
                let walk = Walk::Through { hit };
                proof {
                    assert(before.len() == 0);
                    assert forall|rho: Oracle| #[trigger]
                        walk.outcome(rho) == resume(given, given_hit, rho) by {
                        assert(resume(before, hit_before, rho) == resume(given, given_hit, rho));
                    }
                }
                return walk;
            },
            Some(Frame::Flip) => {
                hit = FlipFace::front_only(hit);
            },
            Some(Frame::First { second: None }) => {
                hit = keep_closer(None, hit);
            },
            Some(Frame::First { second: Some(second) }) => {
                let acc = keep_closer(None, hit);
                stack.push(Frame::Second { acc });
                proof {
                    let pushed = stack@;
                    assert(pushed.drop_last() == before.drop_last());
                    assert forall|rho: Oracle| #[trigger]
                        resume(pushed, second.hit_under(rho), rho) == resume(
                            given,
                            given_hit,
                            rho,
                        ) by {
                        assert(resume(before, hit_before, rho) == resume(
                            given,
                            given_hit,
                            rho,
                        ));
                    }
                    assert(owed(pushed) == owed(before.drop_last()));
                }
                let ghost pushed = stack@;
                let walk = descend(stack, second);
                proof {
                    assert forall|rho: Oracle| #[trigger]
                        walk.outcome(rho) == resume(given, given_hit, rho) by {
                        assert(walk.outcome(rho) == resume(pushed, second.hit_under(rho), rho));
                    }
                }
                return walk;
            },
            Some(Frame::Second { acc }) => {
                hit = keep_closer(acc, hit);
            },
        }
        proof {
            assert(stack@ == before.drop_last());
            assert forall|rho: Oracle| #[trigger]
                resume(stack@, hit, rho) == resume(given, given_hit, rho) by {
                assert(resume(before, hit_before, rho) == resume(given, given_hit, rho));
            }
        }
    }
}

impl Object {
    /// Begins the search for the hit of a ray in this object.
    pub fn hit(&self) -> (t: Traversal<'_>)
        ensures
            forall|rho: Oracle| #[trigger] t.outcome(rho) == self.hit_under(rho),
            t.pending() == self.probes(),
    {
        Traversal::new(self)
    }
}

/// The search for the hit of one ray in a tree of objects.
pub struct Traversal<'a> {
    walk: Walk<'a>,
}

impl<'a> Traversal<'a> {
    /// The hit that the traversal ends with, if every answer it is given
    /// from now on is what the oracle gives.
    pub closed spec fn outcome(self, rho: Oracle) -> Option<RayHit> {
        self.walk.outcome(rho)
    }

    /// A bound on the number of answers the traversal can still take.
    pub closed spec fn pending(self) -> nat {
        self.walk.pending()
    }

    /// What the traversal asks for.
    pub closed spec fn asks(self) -> Request<'a> {
        self.walk.asks()
    }

    /// Starts the search in the tree under `root`. However the answers
    /// fall, it takes no more of them than the tree has boxes, spheres and
    /// rectangles.
    pub fn new(root: &'a Object) -> (t: Traversal<'a>)
        ensures
            forall|rho: Oracle| #[trigger] t.outcome(rho) == root.hit_under(rho),
            t.pending() == root.probes(),
    {
        Traversal { walk: descend(Vec::new(), root) }
    }

    /// What the traversal asks for: the probe of a box, of a sphere or of a
    /// rectangle, or, at its end, nothing.
    pub fn request(&self) -> (r: Request<'a>)
        ensures
            r == self.asks(),
            r matches Request::Done(hit) ==> forall|rho: Oracle| #[trigger]
                self.outcome(rho) == hit,
            r is Done <==> self.pending() == 0,
    {
        match &self.walk {
            Walk::At { stack: _, stop } => {
                proof {
                    lemma_probes_positive(stop.object());
                }
                match stop {
                    Stop::Sphere(s) => Request::Sphere(s),
                    Stop::Rect(r) => Request::Rect(r),
                    Stop::Group(g) => Request::Bounds(&g.bb),
                }
            },
            Walk::Through { hit } => Request::Done(*hit),
        }
    }

    /// Takes the answer to what was asked and moves on. An answer of
    /// another kind than was asked for, or any answer at the end, leaves
    /// the traversal as it is.
    pub fn answer(self, answer: Answer) -> (next: Traversal<'a>)
        ensures
            forall|rho: Oracle|
                rho.gives(self.asks(), answer) ==> #[trigger] next.outcome(rho) == self.outcome(
                    rho,
                ),
            fits(self.asks(), answer) ==> next.pending() < self.pending(),
            !fits(self.asks(), answer) ==> next == self,
    {
        match self.walk {
            Walk::Through { hit } => Traversal { walk: Walk::Through { hit } },
            Walk::At { stack, stop } => {
                match (stop, answer) {
                    (Stop::Sphere(s), Answer::Sphere(probe)) => {
                        let hit = s.hit(&probe);
                        Traversal { walk: unwind(stack, hit) }
                    },
                    (Stop::Rect(r), Answer::Rect(probe)) => {
                        let hit = r.hit(&probe);
                        Traversal { walk: unwind(stack, hit) }
                    },
                    (Stop::Group(g), Answer::Bounds(probe)) => {
                        if g.bb.hit(&probe, t_min(), t_max()) {
                            let second: Option<&'a Object> = match &g.second {
                                Some(b) => Some(&**b),
                                None => None,
                            };
                            let ghost before = stack@;
                            let mut stack = stack;
                            stack.push(Frame::First { second });
                            proof {
                                assert(stack@.drop_last() == before);
                                assert forall|rho: Oracle|
                                    rho.gives(self.asks(), answer) implies #[trigger] resume(
                                    stack@,
                                    g.first.hit_under(rho),
                                    rho,
                                ) == self.outcome(rho) by {}
                            }
                            Traversal { walk: descend(stack, &*g.first) }
                        } else {
                            Traversal { walk: unwind(stack, None) }
                        }
                    },
                    (stop, _) => Traversal { walk: Walk::At { stack, stop } },
                }
            },
        }
    }
}

} // verus!
