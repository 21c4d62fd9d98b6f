//! Building a bounding volume hierarchy over a list of objects.

use vstd::prelude::*;
use rand::rngs::ThreadRng;
use rand::Rng;
use crate::bounding_box::AABB;
use crate::object::{
    all_numbers, closest, lemma_closest_is_first_least, lemma_closest_of_both, Object, ObjectGroup,
    RayHit,
};
use crate::traversal::Oracle;

verus! {

/// `rand::rngs::ThreadRng`, the generator that each thread has for itself.
/// Nothing inside it is seen here.
#[verifier::external_type_specification]
#[verifier::external_body]
pub struct ExThreadRng(rand::rngs::ThreadRng);

/// `rand::thread_rng`: a handle to the calling thread's generator. Nothing
/// is claimed of it.
#[verifier::external_body]
fn thread_generator() -> ThreadRng {
    rand::thread_rng()
}

/// `Rng::gen_range` on `0..bound`: some value of the range, so one below
/// `bound`. Which one is not claimed, nor that two draws differ or agree. The
/// call panics on an empty range, which `requires` leaves out.
#[verifier::external_body]
fn draw_below(rng: &mut ThreadRng, bound: usize) -> (drawn: usize)
    requires
        bound > 0,
    ensures
        drawn < bound,
{
    rng.gen_range(0..bound)
}

/// The number of axes.
pub const AXES: usize = 3;

/// What an object is sorted by along an axis: the rank of the start of its
/// bounding box on that axis.
pub open spec fn key_of(obj: Object, axis: int) -> int {
    obj.bounds().start.component(axis).rank()
}

/// A sorted list with one more object put in: behind every object whose key
/// is not greater than its own.
pub open spec fn inserted(sorted: Seq<Object>, obj: Object, axis: int) -> Seq<Object>
    decreases sorted.len(),
{
    if sorted.len() == 0 || key_of(sorted.last(), axis) <= key_of(obj, axis) {
        sorted.push(obj)
    } else {
        inserted(sorted.drop_last(), obj, axis).push(sorted.last())
    }
}

/// The list in ascending order of key, objects of equal key in the order in
/// which they came.
pub open spec fn sorted_by_axis(objs: Seq<Object>, axis: int) -> Seq<Object>
    decreases objs.len(),
{
    if objs.len() == 0 {
        objs
    } else {
        inserted(sorted_by_axis(objs.drop_last(), axis), objs.last(), axis)
    }
}

/// The keys along the list never fall.
pub open spec fn ascending(objs: Seq<Object>, axis: int) -> bool {
    forall|i: int, j: int|
        0 <= i <= j < objs.len() ==> key_of(#[trigger] objs[i], axis) <= key_of(
            #[trigger] objs[j],
            axis,
        )
}

/// Whether an object has a given key.
pub open spec fn has_key(axis: int, key: int) -> spec_fn(Object) -> bool {
    |o: Object| key_of(o, axis) == key
}

/// The objects of one key, in their order in the list.
pub open spec fn of_key(objs: Seq<Object>, axis: int, key: int) -> Seq<Object> {
    objs.filter(has_key(axis, key))
}

proof fn lemma_inserted_at(sorted: Seq<Object>, obj: Object, axis: int, at: int)
    requires
        0 <= at <= sorted.len(),
        forall|k: int| at <= k < sorted.len() ==> key_of(#[trigger] sorted[k], axis) > key_of(obj, axis),
        at > 0 ==> key_of(sorted[at - 1], axis) <= key_of(obj, axis),
    ensures
        inserted(sorted, obj, axis) == sorted.insert(at, obj),
    decreases sorted.len(),
{
    if at == sorted.len() {
        assert(sorted.insert(at, obj) =~= sorted.push(obj));
    } else {
        let front = sorted.drop_last();
        assert(key_of(sorted[sorted.len() - 1], axis) > key_of(obj, axis));
        assert forall|k: int| at <= k < front.len() implies key_of(#[trigger] front[k], axis)
            > key_of(obj, axis) by {
            assert(front[k] == sorted[k]);
        }
        if at > 0 {
            assert(front[at - 1] == sorted[at - 1]);
        }
        lemma_inserted_at(front, obj, axis, at);
        assert(front.insert(at, obj).push(sorted.last()) =~= sorted.insert(at, obj));
    }
}

/// The place that `inserted` gives an object: behind the last object whose
/// key is not greater.
proof fn lemma_inserted_place(sorted: Seq<Object>, obj: Object, axis: int) -> (at: int)
    ensures
        0 <= at <= sorted.len(),
        inserted(sorted, obj, axis) == sorted.insert(at, obj),
        forall|k: int| at <= k < sorted.len() ==> key_of(#[trigger] sorted[k], axis) > key_of(obj, axis),
        at > 0 ==> key_of(sorted[at - 1], axis) <= key_of(obj, axis),
    decreases sorted.len(),
{
    if sorted.len() == 0 || key_of(sorted.last(), axis) <= key_of(obj, axis) {
        assert(sorted.insert(sorted.len() as int, obj) =~= sorted.push(obj));
        sorted.len() as int
    } else {
        let front = sorted.drop_last();
        let at = lemma_inserted_place(front, obj, axis);
        assert forall|k: int| at <= k < sorted.len() implies key_of(#[trigger] sorted[k], axis)
            > key_of(obj, axis) by {
            if k < front.len() {
                assert(front[k] == sorted[k]);
            }
        }
        if at > 0 {
            assert(front[at - 1] == sorted[at - 1]);
        }
        assert(front.insert(at, obj).push(sorted.last()) =~= sorted.insert(at, obj));
        at
    }
}

/// Sorting keeps every object, as often as it was there, puts the keys in
/// ascending order, and leaves the objects of each key in their order.
pub proof fn lemma_sorted_by_axis(objs: Seq<Object>, axis: int)
    ensures
        sorted_by_axis(objs, axis).len() == objs.len(),
        sorted_by_axis(objs, axis).to_multiset() == objs.to_multiset(),
        ascending(sorted_by_axis(objs, axis), axis),
        forall|key: int| of_key(sorted_by_axis(objs, axis), axis, key) == of_key(objs, axis, key),
    decreases objs.len(),
{
    broadcast use vstd::seq_lib::group_to_multiset_ensures;

    if objs.len() == 0 {
    } else {
        let front = objs.drop_last();
        let last = objs.last();
        let before = sorted_by_axis(front, axis);
        lemma_sorted_by_axis(front, axis);
        let at = lemma_inserted_place(before, last, axis);
        let after = before.insert(at, last);
        assert(objs =~= front.push(last));
        // every object, as often
        assert(after.remove(at) =~= before);
        assert(after.to_multiset() =~= before.to_multiset().insert(last));
        // ascending
        assert forall|i: int, j: int| 0 <= i <= j < after.len() implies key_of(
            #[trigger] after[i],
            axis,
        ) <= key_of(#[trigger] after[j], axis) by {
            let bi = if i < at {
                i
            } else {
                i - 1
            };
            let bj = if j < at {
                j
            } else {
                j - 1
            };
            if i != at {
                assert(after[i] == before[bi]);
            }
            if j != at {
                assert(after[j] == before[bj]);
            }
            if i < at && j == at {
                assert(key_of(before[bi], axis) <= key_of(before[at - 1], axis));
            }
        }
        // the objects of each key
        assert forall|key: int| of_key(after, axis, key) == of_key(objs, axis, key) by {
            let pred = has_key(axis, key);
            let head = before.take(at);
            let tail = before.skip(at);
            assert(of_key(before, axis, key) == of_key(front, axis, key));
            assert(before =~= head + tail);
            assert(after =~= head.push(last) + tail);
            Seq::filter_distributes_over_add(head, tail, pred);
            Seq::filter_distributes_over_add(head.push(last), tail, pred);
            lemma_filter_push(head, last, pred);
            lemma_filter_push(front, last, pred);
            if key_of(last, axis) == key {
                // nothing behind the place has this key
                assert forall|k: int| 0 <= k < tail.len() implies !pred(#[trigger] tail[k]) by {
                    assert(tail[k] == before[at + k]);
                }
                lemma_filter_none(tail, pred);
                assert(tail.filter(pred) =~= Seq::<Object>::empty());
                assert(after.filter(pred) =~= head.filter(pred).push(last));
                assert(before.filter(pred) =~= head.filter(pred));
            } else {
                assert(after.filter(pred) =~= before.filter(pred));
            }
        }
    }
}

proof fn lemma_filter_push(s: Seq<Object>, obj: Object, pred: spec_fn(Object) -> bool)
    ensures
        s.push(obj).filter(pred) == if pred(obj) {
            s.filter(pred).push(obj)
        } else {
            s.filter(pred)
        },
{
    reveal(Seq::filter);
    assert(s.push(obj).drop_last() =~= s);
}

proof fn lemma_filter_none(s: Seq<Object>, pred: spec_fn(Object) -> bool)
    requires
        forall|k: int| 0 <= k < s.len() ==> !pred(#[trigger] s[k]),
    ensures
        s.filter(pred) == Seq::<Object>::empty(),
    decreases s.len(),
{
    reveal(Seq::filter);
    if s.len() > 0 {
        let front = s.drop_last();
        assert forall|k: int| 0 <= k < front.len() implies !pred(#[trigger] front[k]) by {
            assert(front[k] == s[k]);
        }
        lemma_filter_none(front, pred);
    }
}

/// The sort key of an object along axis 0, 1 or 2.
pub fn sort_key(obj: &Object, axis: usize) -> (key: i64)
    requires
        axis < 3,
    ensures
        key == key_of(*obj, axis as int),
{
    obj.bounding_box().unwrap().start.index(axis).sort_rank()
}

/// Sorts the list by key along an axis, keeping the order of objects with
/// equal keys.
pub fn sort_by_axis(objs: &mut Vec<Object>, axis: usize)
    requires
        axis < 3,
    ensures
        final(objs)@ == sorted_by_axis(old(objs)@, axis as int),
{
    let ghost start = objs@;
    let n = objs.len();
    let mut i: usize = 0;
    while i < n
        invariant
            axis < 3,
            objs@.len() == n,
            start.len() == n,
            i <= n,
            objs@.take(i as int) == sorted_by_axis(start.take(i as int), axis as int),
            objs@.skip(i as int) == start.skip(i as int),
        decreases n - i,
    {
        let ghost before = objs@;
        let ghost prefix = objs@.take(i as int);
        let key = sort_key(&objs[i], axis);
        let mut at: usize = i;
        while at > 0 && sort_key(&objs[at - 1], axis) > key
            invariant
                axis < 3,
                at <= i < objs@.len(),
                key == key_of(objs@[i as int], axis as int),
                forall|k: int| at <= k < i ==> key_of(#[trigger] objs@[k], axis as int) > key,
            decreases at,
        {
            at -= 1;
        }
        let obj = objs.remove(i);
        objs.insert(at, obj);
        proof {
            assert(obj == start[i as int]) by {
                assert(before.skip(i as int)[0] == start.skip(i as int)[0]);
            }
            assert forall|k: int| at <= k < prefix.len() implies key_of(
                #[trigger] prefix[k],
                axis as int,
            ) > key_of(obj, axis as int) by {
                assert(prefix[k] == before[k]);
            }
            if at > 0 {
                assert(prefix[at - 1] == before[at - 1]);
            }
            lemma_inserted_at(prefix, obj, axis as int, at as int);
            assert(start.take(i + 1).drop_last() =~= start.take(i as int));
            assert(start.take(i + 1).last() == obj);
            assert(objs@.take(i + 1) =~= prefix.insert(at as int, obj));
            assert(objs@.skip(i + 1) =~= start.skip(i + 1)) by {
                assert forall|k: int| 0 <= k < n - i - 1 implies #[trigger] objs@.skip(i + 1)[k]
                    == start.skip(i + 1)[k] by {
                    assert(before.skip(i as int)[k + 1] == start.skip(i as int)[k + 1]);
                }
            }
        }
        i += 1;
    }
    proof {
        assert(objs@.take(n as int) =~= objs@);
        assert(start.take(n as int) =~= start);
    }
}

/// The number of times a build over `n` objects splits a list, which is the
/// number of axes it uses.
pub open spec fn splits(n: nat) -> nat
    decreases n,
{
    if n <= 2 {
        0
    } else {
        1 + splits(n / 2) + splits((n - n / 2) as nat)
    }
}

/// The axis a build takes from a list of draws at a place: the draw there
/// where it is 0, 1 or 2, and 0 where it is anything else or missing.
pub open spec fn axis_at(axes: Seq<usize>, at: int) -> int {
    if 0 <= at < axes.len() && axes[at] < 3 {
        axes[at] as int
    } else {
        0
    }
}

/// The hierarchy over a list of objects, with the axes of its splits taken
/// from `axes` at the place `at` onwards.
///
/// One or two objects make a group as they are. More are sorted along the
/// axis found at `at`, the lower half of the list (the smaller half where
/// there is one) is built with the axes that follow, the upper half with
/// those that follow the lower half's, and the two hierarchies are grouped.
pub open spec fn hierarchy(objs: Seq<Object>, axes: Seq<usize>, at: int) -> ObjectGroup
    decreases objs.len(),
{
    if objs.len() <= 1 {
        ObjectGroup::of_one(objs[0])
    } else if objs.len() == 2 {
        ObjectGroup::of_two(objs[0], objs[1])
    } else {
        let n = objs.len() as int;
        let sorted = sorted_by_axis(objs, axis_at(axes, at));
        proof {
            lemma_sorted_by_axis(objs, axis_at(axes, at));
        }
        let lower = hierarchy(sorted.subrange(0, n / 2), axes, at + 1);
        let upper = hierarchy(sorted.subrange(n / 2, n), axes, at + 1 + splits((n / 2) as nat));
        ObjectGroup::of_two(Object::Group(lower), Object::Group(upper))
    }
}

/// Every draw is an axis.
pub open spec fn all_axes(axes: Seq<usize>) -> bool {
    forall|i: int| 0 <= i < axes.len() ==> #[trigger] axes[i] < 3
}

/// A build uses fewer axes than it has objects.
pub proof fn lemma_splits_bound(n: nat)
    ensures
        splits(n) <= n,
        n >= 1 ==> splits(n) < n,
    decreases n,
{
    if n > 2 {
        lemma_splits_bound(n / 2);
        lemma_splits_bound((n - n / 2) as nat);
    }
}

proof fn lemma_same_members(a: Seq<Object>, b: Seq<Object>)
    requires
        a.to_multiset() == b.to_multiset(),
    ensures
        forall|i: int| 0 <= i < a.len() ==> b.contains(#[trigger] a[i]),
{
    a.to_multiset_ensures();
    b.to_multiset_ensures();
    assert forall|i: int| 0 <= i < a.len() implies b.contains(#[trigger] a[i]) by {
        assert(a.contains(a[i]));
        assert(a.to_multiset().count(a[i]) > 0);
    }
}

/// What holds of every object of a list holds of every object of each
/// half of the sorted list.
proof fn lemma_halves_inherit(objs: Seq<Object>, axis: int, holds: spec_fn(Object) -> bool)
    requires
        forall|i: int| 0 <= i < objs.len() ==> holds(#[trigger] objs[i]),
    ensures
        forall|i: int|
            0 <= i < objs.len() as int / 2 ==> holds(
                #[trigger] sorted_by_axis(objs, axis).subrange(0, objs.len() as int / 2)[i],
            ),
        forall|i: int|
            0 <= i < objs.len() - objs.len() as int / 2 ==> holds(
                #[trigger] sorted_by_axis(objs, axis).subrange(
                    objs.len() as int / 2,
                    objs.len() as int,
                )[i],
            ),
{
    let n = objs.len() as int;
    let sorted = sorted_by_axis(objs, axis);
    lemma_sorted_by_axis(objs, axis);
    lemma_same_members(sorted, objs);
    assert forall|i: int| 0 <= i < n / 2 implies holds(#[trigger] sorted.subrange(0, n / 2)[i]) by {
        assert(objs.contains(sorted[i]));
    }
    assert forall|i: int| 0 <= i < n - n / 2 implies holds(
        #[trigger] sorted.subrange(n / 2, n)[i],
    ) by {
        assert(objs.contains(sorted[n / 2 + i]));
    }
}

/// Every object of a list has a place in the sorted list, and so in one of
/// its halves.
proof fn lemma_place_in_halves(objs: Seq<Object>, axis: int, i: int) -> (place: int)
    requires
        0 <= i < objs.len(),
    ensures
        0 <= place < objs.len(),
        sorted_by_axis(objs, axis)[place] == objs[i],
        place < objs.len() as int / 2 ==> sorted_by_axis(objs, axis).subrange(
            0,
            objs.len() as int / 2,
        )[place] == objs[i],
        place >= objs.len() as int / 2 ==> sorted_by_axis(objs, axis).subrange(
            objs.len() as int / 2,
            objs.len() as int,
        )[place - objs.len() as int / 2] == objs[i],
{
    let sorted = sorted_by_axis(objs, axis);
    lemma_sorted_by_axis(objs, axis);
    lemma_same_members(objs, sorted);
    assert(sorted.contains(objs[i]));
    choose|j: int| 0 <= j < sorted.len() && sorted[j] == objs[i]
}

/// Every object of the list is sound and has well-formed boxes throughout.
pub open spec fn all_enclosable(objs: Seq<Object>) -> bool {
    forall|i: int| 0 <= i < objs.len() ==> (#[trigger] objs[i]).sound() && objs[i].boxed()
}

/// The hierarchy over sound objects with well-formed boxes is sound, holds
/// every one of the objects, and has a box that encloses the box of each.
pub proof fn lemma_hierarchy_encloses(objs: Seq<Object>, axes: Seq<usize>, at: int)
    requires
        objs.len() > 0,
        all_enclosable(objs),
    ensures
        Object::Group(hierarchy(objs, axes, at)).sound(),
        Object::Group(hierarchy(objs, axes, at)).boxed(),
        hierarchy(objs, axes, at).bb.well_formed(),
        forall|i: int|
            0 <= i < objs.len() ==> Object::Group(hierarchy(objs, axes, at)).holds(
                #[trigger] objs[i],
            ),
        forall|i: int|
            0 <= i < objs.len() ==> hierarchy(objs, axes, at).bb.contains(
                (#[trigger] objs[i]).bounds(),
            ),
    decreases objs.len(),
{
    let root = Object::Group(hierarchy(objs, axes, at));
    if objs.len() == 1 {
        assert(objs[0].sound() && objs[0].boxed());
        assert(objs[0].holds(objs[0]));
    } else if objs.len() == 2 {
        assert(objs[0].sound() && objs[0].boxed());
        assert(objs[1].sound() && objs[1].boxed());
        assert(objs[0].holds(objs[0]));
        assert(objs[1].holds(objs[1]));
    } else {
        let n = objs.len() as int;
        let half = n / 2;
        let axis = axis_at(axes, at);
        let sorted = sorted_by_axis(objs, axis);
        lemma_sorted_by_axis(objs, axis);
        let lower_objs = sorted.subrange(0, half);
        let upper_objs = sorted.subrange(half, n);
        let upper_at = at + 1 + splits(half as nat);
        lemma_halves_inherit(objs, axis, |o: Object| o.sound() && o.boxed());
        lemma_hierarchy_encloses(lower_objs, axes, at + 1);
        lemma_hierarchy_encloses(upper_objs, axes, upper_at);
        let lower = Object::Group(hierarchy(lower_objs, axes, at + 1));
        let upper = Object::Group(hierarchy(upper_objs, axes, upper_at));
        assert(hierarchy(objs, axes, at) == ObjectGroup::of_two(lower, upper));
        assert forall|i: int| 0 <= i < objs.len() implies root.holds(#[trigger] objs[i]) by {
            let j = lemma_place_in_halves(objs, axis, i);
            if j < half {
                assert(lower.holds(lower_objs[j]));
            } else {
                assert(upper.holds(upper_objs[j - half]));
            }
        }
    }
    assert forall|i: int| 0 <= i < objs.len() implies hierarchy(objs, axes, at).bb.contains(
        (#[trigger] objs[i]).bounds(),
    ) by {
        root.lemma_bounds_enclose(objs[i]);
    }
    root.lemma_bounds_enclose(root);
}

/// Every object of the list has a well-formed box.
pub open spec fn all_boxes_well_formed(objs: Seq<Object>) -> bool {
    forall|i: int| 0 <= i < objs.len() ==> (#[trigger] objs[i]).bounds().well_formed()
}

/// The box encloses the box of every object of the list.
pub open spec fn encloses_all(bound: AABB, objs: Seq<Object>) -> bool {
    forall|i: int| 0 <= i < objs.len() ==> bound.contains((#[trigger] objs[i]).bounds())
}

/// The box of a hierarchy over objects with well-formed boxes is the least
/// box around them all: it is well formed, it encloses the box of each, and
/// every box that encloses the box of each encloses it.
pub proof fn lemma_hierarchy_box_is_least(
    objs: Seq<Object>,
    axes: Seq<usize>,
    at: int,
    bound: AABB,
)
    requires
        objs.len() > 0,
        all_boxes_well_formed(objs),
    ensures
        hierarchy(objs, axes, at).bb.well_formed(),
        encloses_all(hierarchy(objs, axes, at).bb, objs),
        encloses_all(bound, objs) ==> bound.contains(hierarchy(objs, axes, at).bb),
    decreases objs.len(),
{
    let bb = hierarchy(objs, axes, at).bb;
    if objs.len() == 1 {
        assert(objs[0].bounds().well_formed());
    } else if objs.len() == 2 {
        assert(objs[0].bounds().well_formed());
        assert(objs[1].bounds().well_formed());
        if encloses_all(bound, objs) {
            assert(bound.contains(objs[0].bounds()));
            assert(bound.contains(objs[1].bounds()));
        }
    } else {
        let n = objs.len() as int;
        let half = n / 2;
        let axis = axis_at(axes, at);
        let sorted = sorted_by_axis(objs, axis);
        lemma_sorted_by_axis(objs, axis);
        let lower_objs = sorted.subrange(0, half);
        let upper_objs = sorted.subrange(half, n);
        let upper_at = at + 1 + splits(half as nat);
        lemma_halves_inherit(objs, axis, |o: Object| o.bounds().well_formed());
        if encloses_all(bound, objs) {
            lemma_halves_inherit(objs, axis, |o: Object| bound.contains(o.bounds()));
        }
        lemma_hierarchy_box_is_least(lower_objs, axes, at + 1, bound);
        lemma_hierarchy_box_is_least(upper_objs, axes, upper_at, bound);
        let lower = hierarchy(lower_objs, axes, at + 1).bb;
        let upper = hierarchy(upper_objs, axes, upper_at).bb;
        assert(bb == lower.combined(upper));
        lower.lemma_combined_is_least(upper, bb);
        if encloses_all(bound, objs) {
            lower.lemma_combined_is_least(upper, bound);
        }
        assert forall|i: int| 0 <= i < objs.len() implies bb.contains(
            (#[trigger] objs[i]).bounds(),
        ) by {
            let j = lemma_place_in_halves(objs, axis, i);
            if j < half {
                bb.lemma_contains_transitive(lower, lower_objs[j].bounds());
            } else {
                bb.lemma_contains_transitive(upper, upper_objs[j - half].bounds());
            }
        }
    }
}

/// The other member of a group of two.
pub open spec fn second_of(g: ObjectGroup) -> Object {
    match g.second {
        Some(o) => *o,
        None => *g.first,
    }
}

/// The group that an object is, where it is one.
pub open spec fn group_of(obj: Object) -> ObjectGroup {
    match obj {
        Object::Group(g) => g,
        _ => ObjectGroup::of_one(obj),
    }
}

/// The objects at the leaves of a hierarchy built over `n` objects, from
/// the lower end to the upper.
pub open spec fn leaves(g: ObjectGroup, n: nat) -> Seq<Object>
    decreases n,
{
    if n <= 1 {
        seq![*g.first]
    } else if n == 2 {
        seq![*g.first, second_of(g)]
    } else {
        leaves(group_of(*g.first), n / 2) + leaves(group_of(second_of(g)), (n - n / 2) as nat)
    }
}

/// The leaves of a hierarchy are the objects it was built over, each as
/// often as it was given.
pub proof fn lemma_hierarchy_keeps_objects(objs: Seq<Object>, axes: Seq<usize>, at: int)
    requires
        objs.len() > 0,
    ensures
        leaves(hierarchy(objs, axes, at), objs.len()).to_multiset() == objs.to_multiset(),
    decreases objs.len(),
{
    if objs.len() == 1 {
        assert(leaves(hierarchy(objs, axes, at), objs.len()) =~= objs);
    } else if objs.len() == 2 {
        assert(leaves(hierarchy(objs, axes, at), objs.len()) =~= objs);
    } else {
        let n = objs.len() as int;
        let half = n / 2;
        let sorted = sorted_by_axis(objs, axis_at(axes, at));
        lemma_sorted_by_axis(objs, axis_at(axes, at));
        let lower_objs = sorted.subrange(0, half);
        let upper_objs = sorted.subrange(half, n);
        let upper_at = at + 1 + splits(half as nat);
        lemma_hierarchy_keeps_objects(lower_objs, axes, at + 1);
        lemma_hierarchy_keeps_objects(upper_objs, axes, upper_at);
        let lower = leaves(hierarchy(lower_objs, axes, at + 1), half as nat);
        let upper = leaves(hierarchy(upper_objs, axes, upper_at), (n - half) as nat);
        assert(leaves(hierarchy(objs, axes, at), objs.len()) == lower + upper);
        vstd::seq_lib::lemma_multiset_commutative(lower, upper);
        vstd::seq_lib::lemma_multiset_commutative(lower_objs, upper_objs);
        assert(lower_objs + upper_objs =~= sorted);
    }
}

/// The hits of the objects of a list for the ray behind an oracle, each
/// object taken by itself.
pub open spec fn scan(objs: Seq<Object>, rho: Oracle) -> Seq<Option<RayHit>> {
    Seq::new(objs.len(), |i: int| objs[i].hit_under(rho))
}

proof fn lemma_scan_is_numbers(objs: Seq<Object>, rho: Oracle)
    ensures
        all_numbers(scan(objs, rho)),
{
    assert forall|i: int| 0 <= i < objs.len() implies (#[trigger] scan(objs, rho)[i] matches Some(
        h,
    ) ==> !h.t.nan()) by {
        objs[i].lemma_hit_in_window(rho);
    }
}

proof fn lemma_hierarchy_finds_closest_leaf(
    objs: Seq<Object>,
    axes: Seq<usize>,
    at: int,
    rho: Oracle,
)
    requires
        objs.len() > 0,
        Object::Group(hierarchy(objs, axes, at)).conservative(rho),
    ensures
        closest(Object::Group(hierarchy(objs, axes, at)).leaf_hits(rho)) == closest(
            scan(leaves(hierarchy(objs, axes, at), objs.len()), rho),
        ),
    decreases objs.len(),
{
    let tree = hierarchy(objs, axes, at);
    let found = scan(leaves(tree, objs.len()), rho);
    reveal_with_fuel(closest, 3);
    if objs.len() == 1 {
        objs[0].lemma_pruning_loses_nothing(rho);
        assert(found.drop_last() =~= Seq::<Option<RayHit>>::empty());
    } else if objs.len() == 2 {
        objs[0].lemma_pruning_loses_nothing(rho);
        objs[1].lemma_pruning_loses_nothing(rho);
        objs[0].lemma_leaf_hits_are_numbers(rho);
        objs[1].lemma_leaf_hits_are_numbers(rho);
        lemma_closest_of_both(objs[0].leaf_hits(rho), objs[1].leaf_hits(rho));
        assert(found.drop_last() =~= seq![objs[0].hit_under(rho)]);
        assert(found.drop_last().drop_last() =~= Seq::<Option<RayHit>>::empty());
    } else {
        let n = objs.len() as int;
        let half = n / 2;
        let sorted = sorted_by_axis(objs, axis_at(axes, at));
        lemma_sorted_by_axis(objs, axis_at(axes, at));
        let lower_objs = sorted.subrange(0, half);
        let upper_objs = sorted.subrange(half, n);
        let upper_at = at + 1 + splits(half as nat);
        let lower = hierarchy(lower_objs, axes, at + 1);
        let upper = hierarchy(upper_objs, axes, upper_at);
        assert(tree == ObjectGroup::of_two(Object::Group(lower), Object::Group(upper)));
        lemma_hierarchy_finds_closest_leaf(lower_objs, axes, at + 1, rho);
        lemma_hierarchy_finds_closest_leaf(upper_objs, axes, upper_at, rho);
        let lower_found = scan(leaves(lower, half as nat), rho);
        let upper_found = scan(leaves(upper, (n - half) as nat), rho);
        Object::Group(lower).lemma_leaf_hits_are_numbers(rho);
        Object::Group(upper).lemma_leaf_hits_are_numbers(rho);
        lemma_closest_of_both(
            Object::Group(lower).leaf_hits(rho),
            Object::Group(upper).leaf_hits(rho),
        );
        lemma_scan_is_numbers(leaves(lower, half as nat), rho);
        lemma_scan_is_numbers(leaves(upper, (n - half) as nat), rho);
        lemma_closest_of_both(lower_found, upper_found);
        assert(found =~= lower_found + upper_found);
    }
}

/// A hierarchy finds what a look at every object finds. Where the boxes of
/// its groups say nothing wrong of the ray, its hit is none exactly when no
/// object it was built over is hit, and else the hit of one of those
/// objects, than which none of them has a closer one.
pub proof fn lemma_hierarchy_hit_is_scan(
    objs: Seq<Object>,
    axes: Seq<usize>,
    at: int,
    rho: Oracle,
)
    requires
        objs.len() > 0,
        Object::Group(hierarchy(objs, axes, at)).conservative(rho),
    ensures
        Object::Group(hierarchy(objs, axes, at)).hit_under(rho).is_none() <==> forall|i: int|
            0 <= i < objs.len() ==> (#[trigger] objs[i]).hit_under(rho).is_none(),
        Object::Group(hierarchy(objs, axes, at)).hit_under(rho) matches Some(best) ==> exists|
            i: int,
        |
            {
                &&& 0 <= i < objs.len()
                &&& (#[trigger] objs[i]).hit_under(rho) == Some(best)
                &&& forall|j: int|
                    0 <= j < objs.len() ==> ((#[trigger] objs[j]).hit_under(rho) matches Some(
                        other,
                    ) ==> best.t.at_most(other.t))
            },
{
    let tree = Object::Group(hierarchy(objs, axes, at));
    let arranged = leaves(hierarchy(objs, axes, at), objs.len());
    let found = scan(arranged, rho);
    tree.lemma_pruning_loses_nothing(rho);
    lemma_hierarchy_finds_closest_leaf(objs, axes, at, rho);
    lemma_hierarchy_keeps_objects(objs, axes, at);
    lemma_same_members(arranged, objs);
    lemma_same_members(objs, arranged);
    lemma_scan_is_numbers(arranged, rho);
    lemma_closest_is_first_least(found);
    assert(tree.hit_under(rho) == closest(found));
    match closest(found) {
        None => {
            assert forall|i: int| 0 <= i < objs.len() implies (#[trigger] objs[i]).hit_under(
                rho,
            ).is_none() by {
                assert(arranged.contains(objs[i]));
                let k = choose|k: int| 0 <= k < arranged.len() && arranged[k] == objs[i];
                assert(found[k].is_none());
            }
        },
        Some(best) => {
            let k = choose|k: int|
                {
                    &&& 0 <= k < found.len()
                    &&& #[trigger] found[k] == Some(best)
                    &&& forall|j: int|
                        0 <= j < found.len() ==> (#[trigger] found[j] matches Some(other)
                            ==> best.t.at_most(other.t))
                    &&& forall|j: int|
                        0 <= j < k ==> (#[trigger] found[j] matches Some(other) ==> best.t.less(
                            other.t,
                        ))
                };
            assert(objs.contains(arranged[k]));
            let i = choose|i: int| 0 <= i < objs.len() && objs[i] == arranged[k];
            assert(objs[i].hit_under(rho) == Some(best));
            assert forall|j: int| 0 <= j < objs.len() implies ((#[trigger] objs[j]).hit_under(
                rho,
            ) matches Some(other) ==> best.t.at_most(other.t)) by {
                assert(arranged.contains(objs[j]));
                let m = choose|m: int| 0 <= m < arranged.len() && arranged[m] == objs[j];
                assert(found[m] == objs[j].hit_under(rho));
            }
            // one object at least is hit
            assert(!objs[i].hit_under(rho).is_none());
        },
    }
    if forall|i: int| 0 <= i < objs.len() ==> (#[trigger] objs[i]).hit_under(rho).is_none() {
        assert forall|k: int| 0 <= k < found.len() implies found[k].is_none() by {
            assert(objs.contains(arranged[k]));
            let i = choose|i: int| 0 <= i < objs.len() && objs[i] == arranged[k];
            assert(objs[i].hit_under(rho).is_none());
        }
    }
}

/// The axis of the `k`-th split of a build that takes its axes from `at` on.
pub open spec fn split_axis(axes: Seq<usize>, at: int, k: int) -> int {
    axis_at(axes, at + k)
}

/// A hierarchy is determined by its objects and by the axes of its own
/// splits: two builds over one list, from draws that give the same axis at
/// each split, give the same hierarchy, whatever else the draws hold.
pub proof fn lemma_hierarchy_determined(
    objs: Seq<Object>,
    axes_a: Seq<usize>,
    at_a: int,
    axes_b: Seq<usize>,
    at_b: int,
)
    requires
        forall|k: int|
            0 <= k < splits(objs.len()) ==> #[trigger] split_axis(axes_a, at_a, k) == split_axis(
                axes_b,
                at_b,
                k,
            ),
    ensures
        hierarchy(objs, axes_a, at_a) == hierarchy(objs, axes_b, at_b),
    decreases objs.len(),
{
    if objs.len() > 2 {
        let n = objs.len() as int;
        let half = n / 2;
        let used = splits(half as nat) as int;
        assert(split_axis(axes_a, at_a, 0) == split_axis(axes_b, at_b, 0));
        let sorted = sorted_by_axis(objs, axis_at(axes_a, at_a));
        lemma_sorted_by_axis(objs, axis_at(axes_a, at_a));
        assert forall|k: int| 0 <= k < splits(half as nat) implies #[trigger] split_axis(
            axes_a,
            at_a + 1,
            k,
        ) == split_axis(axes_b, at_b + 1, k) by {
            assert(split_axis(axes_a, at_a, 1 + k) == split_axis(axes_b, at_b, 1 + k));
        }
        assert forall|k: int| 0 <= k < splits((n - half) as nat) implies #[trigger] split_axis(
            axes_a,
            at_a + 1 + used,
            k,
        ) == split_axis(axes_b, at_b + 1 + used, k) by {
            assert(split_axis(axes_a, at_a, 1 + used + k) == split_axis(
                axes_b,
                at_b,
                1 + used + k,
            ));
        }
        lemma_hierarchy_determined(sorted.subrange(0, half), axes_a, at_a + 1, axes_b, at_b + 1);
        lemma_hierarchy_determined(
            sorted.subrange(half, n),
            axes_a,
            at_a + 1 + used,
            axes_b,
            at_b + 1 + used,
        );
    }
}

fn split_count(n: usize) -> (k: usize)
    ensures
        k == splits(n as nat),
    decreases n,
{
    if n <= 2 {
        0
    } else {
        proof {
            lemma_splits_bound((n / 2) as nat);
            lemma_splits_bound((n - n / 2) as nat);
        }
        1 + split_count(n / 2) + split_count(n - n / 2)
    }
}

fn build(objs: Vec<Object>, axes: &Vec<usize>, at: usize) -> (r: (ObjectGroup, usize))
    requires
        objs.len() > 0,
        at + objs.len() <= usize::MAX,
    ensures
        r.0 == hierarchy(objs@, axes@, at as int),
        r.1 == at + splits(objs.len() as nat),
    decreases objs.len(),
{
    let mut objs = objs;
    let ghost given = objs@;
    let n = objs.len();
    if n == 1 {
        let only = objs.pop().unwrap();
        return (ObjectGroup::single(only), at);
    }
    if n == 2 {
        let second = objs.pop().unwrap();
        let first = objs.pop().unwrap();
        return (ObjectGroup::pair(first, second), at);
    }
    let axis = if at < axes.len() && axes[at] < 3 {
        axes[at]
    } else {
        0
    };
    sort_by_axis(&mut objs, axis);
    proof {
        lemma_sorted_by_axis(given, axis as int);
        lemma_splits_bound((n / 2) as nat);
    }
    let upper_objs = objs.split_off(n / 2);
    let (lower, next) = build(objs, axes, at + 1);
    let (upper, end) = build(upper_objs, axes, next);
    (ObjectGroup::pair(Object::Group(lower), Object::Group(upper)), end)
}

impl ObjectGroup {
    /// Builds the hierarchy over a list of objects, splitting along the axes
    /// given: the first split along the first, and so on down the lower
    /// halves before the upper ones. A draw that is no axis, or is missing,
    /// counts as axis 0.
    pub fn create_hierarchy_with(objs: Vec<Object>, axes: &Vec<usize>) -> (g: ObjectGroup)
        requires
            objs.len() > 0,
        ensures
            g == hierarchy(objs@, axes@, 0),
            g.well_formed(),
            all_boxes_well_formed(objs@) ==> g.bb.well_formed() && encloses_all(g.bb, objs@),
            all_boxes_well_formed(objs@) ==> forall|bound: AABB| #[trigger]
                encloses_all(bound, objs@) ==> bound.contains(g.bb),
    {
        proof {
            if all_boxes_well_formed(objs@) {
                assert forall|bound: AABB| #[trigger]
                    encloses_all(bound, objs@) implies bound.contains(
                    hierarchy(objs@, axes@, 0).bb,
                ) by {
                    lemma_hierarchy_box_is_least(objs@, axes@, 0, bound);
                }
                lemma_hierarchy_box_is_least(objs@, axes@, 0, hierarchy(objs@, axes@, 0).bb);
            }
        }
        let (g, _used) = build(objs, axes, 0);
        g
    }

    /// Builds the hierarchy over a list of objects, with the axis of each
    /// split drawn at random.
    pub fn create_hierarchy(objs: Vec<Object>) -> (g: ObjectGroup)
        requires
            objs.len() > 0,
        ensures
            exists|axes: Seq<usize>|
                axes.len() == splits(objs.len() as nat) && all_axes(axes) && g == hierarchy(
                    objs@,
                    axes,
                    0,
                ),
            g.well_formed(),
            all_boxes_well_formed(objs@) ==> g.bb.well_formed() && encloses_all(g.bb, objs@),
            all_boxes_well_formed(objs@) ==> forall|bound: AABB| #[trigger]
                encloses_all(bound, objs@) ==> bound.contains(g.bb),
    {
        let mut rng = thread_generator();
        let count = split_count(objs.len());
        let mut axes: Vec<usize> = Vec::new();
        while axes.len() < count
            invariant
                axes.len() <= count,
                all_axes(axes@),
            decreases count - axes.len(),
        {
            let axis = draw_below(&mut rng, AXES);
            axes.push(axis);
        }
        Self::create_hierarchy_with(objs, &axes)
    }
}

} // verus!
