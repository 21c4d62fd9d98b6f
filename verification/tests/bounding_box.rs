#![allow(dead_code)]

use std::cmp::Ordering;

use pathtracer::bounding_box::{BoxProbe, Slab, AABB};
use pathtracer::{Scalar, Vec3};

fn s(x: f64) -> Scalar {
    Scalar::from_bits(x.to_bits())
}

fn f(x: Scalar) -> f64 {
    f64::from_bits(x.to_bits())
}

type V = [f64; 3];

fn vec3(a: V) -> Vec3 {
    Vec3::new(s(a[0]), s(a[1]), s(a[2]))
}

fn add(a: V, b: V) -> V {
    [a[0] + b[0], a[1] + b[1], a[2] + b[2]]
}

fn neg(a: V) -> V {
    [-a[0], -a[1], -a[2]]
}

fn sub(a: V, b: V) -> V {
    add(a, neg(b))
}

fn scale(a: V, k: f64) -> V {
    [a[0] * k, a[1] * k, a[2] * k]
}

fn dot(a: V, b: V) -> f64 {
    a.iter().zip(b.iter()).map(|(x, y)| x * y).sum()
}

fn mag(a: V) -> f64 {
    dot(a, a).sqrt()
}

fn unit(a: V) -> V {
    scale(a, 1. / mag(a))
}

fn at(origin: V, dir: V, t: f64) -> V {
    add(origin, scale(dir, t))
}

fn slab(lo: f64, hi: f64, origin: f64, dir: f64) -> Slab {
    let inv_d = 1. / dir;
    Slab { inv_d: s(inv_d), t0: s((lo - origin) * inv_d), t1: s((hi - origin) * inv_d) }
}

fn box_probe(lo: V, hi: V, origin: V, dir: V) -> BoxProbe {
    BoxProbe {
        x: slab(lo[0], hi[0], origin[0], dir[0]),
        y: slab(lo[1], hi[1], origin[1], dir[1]),
        z: slab(lo[2], hi[2], origin[2], dir[2]),
    }
}

fn aabb(lo: V, hi: V) -> AABB {
    AABB::new(vec3(lo), vec3(hi))
}

/// A small generator with a fixed seed, so that every run sees the same
/// rays and boxes.
struct Lcg(u64);

impl Lcg {
    fn next(&mut self) -> u64 {
        self.0 = self.0.wrapping_mul(6364136223846793005).wrapping_add(1442695040888963407);
        self.0 >> 11
    }

    fn unit(&mut self) -> f64 {
        (self.next() % (1u64 << 40)) as f64 / (1u64 << 40) as f64
    }

    fn between(&mut self, lo: f64, hi: f64) -> f64 {
        lo + (hi - lo) * self.unit()
    }

    /// A coordinate, now and then exactly on a whole number.
    fn coordinate(&mut self) -> f64 {
        if self.next() % 4 == 0 {
            (self.next() % 9) as f64 - 4.
        } else {
            self.between(-4., 4.)
        }
    }
}

/// The window clipped by the six planes of the box, one after the other.
fn clipped(lo: V, hi: V, origin: V, dir: V, t_min: f64, t_max: f64) -> bool {
    let mut from = t_min;
    let mut to = t_max;
    for a in 0..3 {
        let inv_d = 1. / dir[a];
        let at_lo = (lo[a] - origin[a]) * inv_d;
        let at_hi = (hi[a] - origin[a]) * inv_d;
        if dir[a] > 0. {
            // beyond the lower plane from at_lo on, within the upper one until at_hi
            from = from.max(at_lo);
            to = to.min(at_hi);
        } else if dir[a] < 0. {
            from = from.max(at_hi);
            to = to.min(at_lo);
        } else {
            // the ray runs along both planes: between them for ever or never
            if origin[a] < lo[a] || origin[a] > hi[a] {
                return false;
            }
        }
    }
    from < to
}

fn check(lo: V, hi: V, origin: V, dir: V, t_min: f64, t_max: f64) {
    let probe = box_probe(lo, hi, origin, dir);
    let got = aabb(lo, hi).hit(&probe, s(t_min), s(t_max));
    let want = clipped(lo, hi, origin, dir, t_min, t_max);
    assert_eq!(got, want, "box {:?}..{:?}, ray {:?} + t {:?}", lo, hi, origin, dir);
}

#[test]
fn hit_agrees_with_six_plane_clip() {
    let mut rng = Lcg(0x5eed);
    for _ in 0..20000 {
        let a = [rng.coordinate(), rng.coordinate(), rng.coordinate()];
        let b = [rng.coordinate(), rng.coordinate(), rng.coordinate()];
        let lo = [a[0].min(b[0]), a[1].min(b[1]), a[2].min(b[2])];
        let hi = [a[0].max(b[0]), a[1].max(b[1]), a[2].max(b[2])];
        let origin = [rng.coordinate(), rng.coordinate(), rng.coordinate()];
        let dir = [rng.between(-1., 1.), rng.between(-1., 1.), rng.between(-1., 1.)];
        check(lo, hi, origin, dir, 0.0001, 100000000.);
    }
}

#[test]
fn hit_agrees_with_six_plane_clip_on_zero_directions() {
    let mut rng = Lcg(0xface);
    for round in 0..20000 {
        let a = [rng.coordinate(), rng.coordinate(), rng.coordinate()];
        let b = [rng.coordinate(), rng.coordinate(), rng.coordinate()];
        let lo = [a[0].min(b[0]), a[1].min(b[1]), a[2].min(b[2])];
        let hi = [a[0].max(b[0]), a[1].max(b[1]), a[2].max(b[2])];
        let origin = [rng.coordinate(), rng.coordinate(), rng.coordinate()];
        let mut dir = [rng.between(-1., 1.), rng.between(-1., 1.), rng.between(-1., 1.)];
        // each axis by itself, then pairs, with zeros of either sign
        let pattern = round % 6;
        let zero = if round % 2 == 0 { 0.0 } else { -0.0 };
        if pattern < 3 {
            dir[pattern] = zero;
        } else {
            dir[pattern - 3] = zero;
            dir[(pattern - 2) % 3] = zero;
        }
        check(lo, hi, origin, dir, 0.0001, 100000000.);
    }
}

#[test]
fn hit_on_chosen_rays() {
    let lo = [-1., -1., -1.];
    let hi = [1., 1., 1.];
    // straight at the box
    check(lo, hi, [-5., 0., 0.], [1., 0., 0.], 0.0001, 100000000.);
    assert!(aabb(lo, hi).hit(&box_probe(lo, hi, [-5., 0., 0.], [1., 0., 0.]), s(0.0001), s(1e8)));
    // away from it
    assert!(!aabb(lo, hi).hit(&box_probe(lo, hi, [-5., 0., 0.], [-1., 0., 0.]), s(0.0001), s(1e8)));
    // past it
    assert!(!aabb(lo, hi).hit(&box_probe(lo, hi, [-5., 2., 0.], [1., 0., 0.]), s(0.0001), s(1e8)));
    // from inside
    assert!(aabb(lo, hi).hit(&box_probe(lo, hi, [0., 0., 0.], [0., 0., 1.]), s(0.0001), s(1e8)));
    // along a face: the crossing of that face is not a number and bounds nothing
    assert!(aabb(lo, hi).hit(&box_probe(lo, hi, [-5., 1., 0.], [1., 0., 0.]), s(0.0001), s(1e8)));
    // the window ends before the box begins
    assert!(!aabb(lo, hi).hit(&box_probe(lo, hi, [-5., 0., 0.], [1., 0., 0.]), s(0.0001), s(3.)));
    // the window ends exactly where the box begins: nothing is left
    assert!(!aabb(lo, hi).hit(&box_probe(lo, hi, [-5., 0., 0.], [1., 0., 0.]), s(0.0001), s(4.)));
    assert!(aabb(lo, hi).hit(&box_probe(lo, hi, [-5., 0., 0.], [1., 0., 0.]), s(0.0001), s(4.5)));
}

#[test]
fn combine_is_the_least_box_around_both() {
    let a = aabb([-1., 0., 2.], [1., 5., 3.]);
    let b = aabb([0., -2., 2.5], [4., 1., 2.75]);
    let both = a.combine(&b);
    assert_eq!(both, aabb([-1., -2., 2.], [4., 5., 3.]));
    assert_eq!(b.combine(&a), aabb([-1., -2., 2.], [4., 5., 3.]));
    assert_eq!(a.combine(&a), a);
}

#[test]
fn combine_ignores_what_is_not_a_number() {
    let a = aabb([f64::NAN, 0., 0.], [1., 1., 1.]);
    let b = aabb([-3., 0., 0.], [2., f64::NAN, 1.]);
    let both = a.combine(&b);
    assert_eq!(f(both.start.x()), -3.);
    assert_eq!(f(both.end.x()), 2.);
    assert_eq!(f(both.end.y()), 1.);
}

#[test]
fn new_keeps_the_corners() {
    let b = AABB::new(vec3([1., 2., 3.]), vec3([4., 5., 6.]));
    assert_eq!(b.start, vec3([1., 2., 3.]));
    assert_eq!(b.end, vec3([4., 5., 6.]));
}

#[test]
fn boxes_are_ordered_by_their_start_on_x() {
    let a = aabb([-1., 9., 9.], [1., 10., 10.]);
    let b = aabb([0., 0., 0.], [0.5, 1., 1.]);
    let c = aabb([0., -5., 2.], [7., 1., 3.]);
    assert!(a < b);
    assert!(b > a);
    assert!(!(b < c) && !(c < b));
    assert!(b <= c && b >= c);
    assert_eq!(a.partial_cmp(&b), Some(Ordering::Less));
    assert_eq!(b.partial_cmp(&a), Some(Ordering::Greater));
    assert_eq!(b.partial_cmp(&c), Some(Ordering::Equal));
    assert_eq!(aabb([-0., 0., 0.], [1., 1., 1.]).partial_cmp(&b), Some(Ordering::Equal));
    let nowhere = aabb([f64::NAN, 0., 0.], [1., 1., 1.]);
    assert_eq!(nowhere.partial_cmp(&a), None);
    assert_eq!(a.partial_cmp(&nowhere), None);
    assert!(!(nowhere < a) && !(nowhere > a) && !(nowhere <= nowhere));
}
