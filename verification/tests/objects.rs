#![allow(dead_code)]

use pathtracer::bounding_box::{BoxProbe, Slab, AABB};
use pathtracer::material::{DiffuseLight, Lambert, Material};
use pathtracer::object::{
    keep_closer, t_max, t_min, Axis, FlipFace, Object, ObjectGroup, RayHit, Rect, RectPadding,
    RectProbe, RootProbe, Sphere, SphereProbe, T_MAX_BITS, T_MIN_BITS,
};
use pathtracer::{Color, Scalar, Vec3};

fn s(x: f64) -> Scalar {
    Scalar::from_bits(x.to_bits())
}

fn f(x: Scalar) -> f64 {
    f64::from_bits(x.to_bits())
}

type V = [f64; 3];

fn vec3(a: V) -> Vec3 {
    Vec3::new(s(a[0]), s(a[1]), s(a[2]))
}

fn add(a: V, b: V) -> V {
    [a[0] + b[0], a[1] + b[1], a[2] + b[2]]
}

fn neg(a: V) -> V {
    [-a[0], -a[1], -a[2]]
}

fn sub(a: V, b: V) -> V {
    add(a, neg(b))
}

fn scale(a: V, k: f64) -> V {
    [a[0] * k, a[1] * k, a[2] * k]
}

fn dot(a: V, b: V) -> f64 {
    a.iter().zip(b.iter()).map(|(x, y)| x * y).sum()
}

fn mag(a: V) -> f64 {
    dot(a, a).sqrt()
}

fn unit(a: V) -> V {
    scale(a, 1. / mag(a))
}

fn at(origin: V, dir: V, t: f64) -> V {
    add(origin, scale(dir, t))
}

fn slab(lo: f64, hi: f64, origin: f64, dir: f64) -> Slab {
    let inv_d = 1. / dir;
    Slab { inv_d: s(inv_d), t0: s((lo - origin) * inv_d), t1: s((hi - origin) * inv_d) }
}

fn box_probe(lo: V, hi: V, origin: V, dir: V) -> BoxProbe {
    BoxProbe {
        x: slab(lo[0], hi[0], origin[0], dir[0]),
        y: slab(lo[1], hi[1], origin[1], dir[1]),
        z: slab(lo[2], hi[2], origin[2], dir[2]),
    }
}

fn aabb(lo: V, hi: V) -> AABB {
    AABB::new(vec3(lo), vec3(hi))
}
fn grey() -> Material {
    Material::Lambert(Lambert { albedo: Color::of_rgb(s(0.5), s(0.5), s(0.5)) })
}

fn sphere(center: V, r: f64, mat: Material) -> Sphere {
    let rv = [r, r, r];
    let lo = sub(center, rv);
    let hi = add(center, rv);
    Sphere::new(vec3(center), s(r), Color::of_rgb(s(1.), s(0.), s(1.)), mat, aabb(lo, hi))
}

fn root(center: V, origin: V, dir: V, t: f64) -> RootProbe {
    let point = at(origin, dir, t);
    let outward = unit(sub(point, center));
    RootProbe { t: s(t), point: vec3(point), outward: vec3(outward), facing: s(dot(outward, dir)) }
}

fn sphere_probe(center: V, r: f64, origin: V, dir: V) -> SphereProbe {
    let diff = sub(origin, center);
    let b = dot(dir, diff) * 2.;
    let c = dot(diff, diff) - r * r;
    let delta = b * b - c * 4.;
    let root_of_delta = delta.sqrt();
    let t1 = (-b - root_of_delta) / 2.;
    let t2 = (-b + root_of_delta) / 2.;
    SphereProbe {
        delta: s(delta),
        near: root(center, origin, dir, t1),
        far: root(center, origin, dir, t2),
    }
}

fn rect(p0: (f64, f64), p1: (f64, f64), k: f64, axis: Axis, mat: Material) -> Rect {
    Rect::new(
        (s(p0.0), s(p0.1)),
        (s(p1.0), s(p1.1)),
        s(k),
        axis,
        mat,
        RectPadding {
            k: (s(k - 0.0001), s(k + 0.0001)),
            a0: (s(p0.0 - 0.001), s(p0.1 + 0.001)),
            a1: (s(p1.0 - 0.001), s(p1.1 + 0.001)),
        },
    )
}

fn rect_probe(r: &Rect, origin: V, dir: V) -> RectProbe {
    let (perp, a0, a1) = Rect::axis(&r.axis);
    let t = (f(r.k) - origin[perp]) / dir[perp];
    let mut normal = [0., 0., 0.];
    normal[perp] = 1.;
    RectProbe {
        t: s(t),
        hit_0: s(t.mul_add(dir[a0], origin[a0])),
        hit_1: s(t.mul_add(dir[a1], origin[a1])),
        along: s(dot(normal, dir)),
        point: vec3(at(origin, dir, t)),
    }
}

fn hit_at(t: f64, front_face: bool) -> RayHit {
    RayHit {
        col: Color::black(),
        point: vec3([t, 0., 0.]),
        t: s(t),
        normal: vec3([1., 0., 0.]),
        front_face,
        mat: grey(),
    }
}

#[test]
fn the_window_of_ray_parameters() {
    assert_eq!(f(t_min()), 0.0001);
    assert_eq!(f(t_max()), 100000000.);
    assert_eq!(T_MIN_BITS, 0.0001f64.to_bits());
    assert_eq!(T_MAX_BITS, 100000000f64.to_bits());
}

#[test]
fn ray_at_the_center_hits_at_distance_less_radius() {
    for &(d, r) in [(5.0f64, 1.0f64), (10., 4.), (3., 2.5), (1000., 0.5), (2., 1.)].iter() {
        let center = [0., d, 0.];
        let sp = sphere(center, r, grey());
        let probe = sphere_probe(center, r, [0., 0., 0.], [0., 1., 0.]);
        assert_eq!(f(probe.near.t), d - r);
        assert_eq!(f(probe.far.t), d + r);
        let hit = sp.hit(&probe).unwrap();
        assert_eq!(f(hit.t), d - r);
        assert_eq!(hit.point, vec3([0., d - r, 0.]));
        assert_eq!(hit.normal, vec3([0., -1., 0.]));
        assert!(hit.front_face);
        assert_eq!(hit.col, sp.color);
        assert_eq!(hit.mat, grey());
    }
}

#[test]
fn ray_from_inside_leaves_at_the_far_root() {
    let center = [0., 0., 0.];
    let sp = sphere(center, 2., grey());
    let probe = sphere_probe(center, 2., [0., 0., 0.], [0., 0., 1.]);
    assert_eq!(f(probe.near.t), -2.);
    assert_eq!(f(probe.far.t), 2.);
    let hit = sp.hit(&probe).unwrap();
    assert_eq!(f(hit.t), 2.);
    assert_eq!(hit.point, vec3([0., 0., 2.]));
    // the outward normal runs along the ray, so it is turned round
    assert_eq!(hit.normal, vec3([-0., -0., -1.]));
    assert!(!hit.front_face);
}

#[test]
fn tangent_ray_hits_once() {
    let center = [0., 5., 1.];
    let sp = sphere(center, 1., grey());
    let probe = sphere_probe(center, 1., [0., 0., 0.], [0., 1., 0.]);
    assert_eq!(f(probe.delta), 0.);
    assert_eq!(f(probe.near.t), 5.);
    assert_eq!(f(probe.far.t), 5.);
    let hit = sp.hit(&probe).unwrap();
    assert_eq!(f(hit.t), 5.);
    assert_eq!(hit.point, vec3([0., 5., 0.]));
}

#[test]
fn ray_past_the_sphere_misses() {
    let center = [0., 5., 3.];
    let sp = sphere(center, 1., grey());
    let probe = sphere_probe(center, 1., [0., 0., 0.], [0., 1., 0.]);
    assert!(f(probe.delta) < 0.);
    assert_eq!(sp.hit(&probe), None);
}

#[test]
fn sphere_behind_the_ray_misses() {
    let center = [0., -5., 0.];
    let sp = sphere(center, 1., grey());
    let probe = sphere_probe(center, 1., [0., 0., 0.], [0., 1., 0.]);
    assert_eq!(sp.hit(&probe), None);
}

#[test]
fn sphere_hit_is_decided_in_order() {
    let sp = sphere([0., 0., 0.], 1., grey());
    let near = RootProbe { t: s(2.), point: vec3([1., 2., 3.]), outward: vec3([0., 1., 0.]), facing: s(-1.) };
    let far = RootProbe { t: s(3.), point: vec3([4., 5., 6.]), outward: vec3([0., 0., 1.]), facing: s(1.) };
    // a negative discriminant
    let probe = SphereProbe { delta: s(-1.), near, far };
    assert_eq!(sp.hit(&probe), None);
    // the lesser root counts
    let probe = SphereProbe { delta: s(1.), near, far };
    let hit = sp.hit(&probe).unwrap();
    assert_eq!((f(hit.t), hit.point, hit.normal, hit.front_face), (2., vec3([1., 2., 3.]), vec3([0., 1., 0.]), true));
    // the lesser root is too small: the greater one
    let early = RootProbe { t: s(0.00001), ..near };
    let probe = SphereProbe { delta: s(1.), near: early, far };
    let hit = sp.hit(&probe).unwrap();
    assert_eq!((f(hit.t), hit.point, hit.normal, hit.front_face), (3., vec3([4., 5., 6.]), vec3([-0., -0., -1.]), false));
    // neither counts
    let late = RootProbe { t: s(1e9), ..far };
    let probe = SphereProbe { delta: s(1.), near: early, far: late };
    assert_eq!(sp.hit(&probe), None);
    // the ends of the window count
    let first = RootProbe { t: s(0.0001), ..near };
    let probe = SphereProbe { delta: s(0.), near: first, far };
    assert_eq!(f(sp.hit(&probe).unwrap().t), 0.0001);
    let last = RootProbe { t: s(100000000.), ..far };
    let probe = SphereProbe { delta: s(0.), near: early, far: last };
    assert_eq!(f(sp.hit(&probe).unwrap().t), 100000000.);
    // roots that are not numbers do not count
    let none = RootProbe { t: s(f64::NAN), ..near };
    let probe = SphereProbe { delta: s(f64::NAN), near: none, far: none };
    assert_eq!(sp.hit(&probe), None);
}

#[test]
fn sphere_box_is_the_one_given() {
    let sp = sphere([1., 2., 3.], 0.5, grey());
    assert_eq!(sp.bounding_box(), Some(aabb([0.5, 1.5, 2.5], [1.5, 2.5, 3.5])));
    assert_eq!(Object::Sphere(sp).bounding_box(), Some(aabb([0.5, 1.5, 2.5], [1.5, 2.5, 3.5])));
}

#[test]
fn axes_of_each_plane() {
    assert_eq!(Rect::axis(&Axis::XY), (2, 0, 1));
    assert_eq!(Rect::axis(&Axis::XZ), (1, 0, 2));
    assert_eq!(Rect::axis(&Axis::YZ), (0, 1, 2));
}

#[test]
fn rect_is_hit_within_its_sides() {
    let floor = rect((-5., 5.), (-5., 5.), 0., Axis::XY, grey());
    // straight down onto the floor: against its normal, so onto its front
    let probe = rect_probe(&floor, [1., 2., 3.], [0., 0., -1.]);
    let hit = floor.hit(&probe).unwrap();
    assert_eq!(f(hit.t), 3.);
    assert_eq!(hit.point, vec3([1., 2., 0.]));
    assert_eq!(hit.normal, vec3([0., 0., 1.]));
    assert!(hit.front_face);
    assert_eq!(hit.col, Color::of_rgb(s(1.), s(0.), s(0.)));
    assert_eq!(hit.mat, grey());
    // straight up from below: along its normal, so onto its back, and the
    // normal is turned against the ray
    let probe = rect_probe(&floor, [1., 2., -3.], [0., 0., 1.]);
    let hit = floor.hit(&probe).unwrap();
    assert_eq!(f(hit.t), 3.);
    assert_eq!(hit.normal, vec3([-0., -0., -1.]));
    assert!(!hit.front_face);
    // on the very sides
    let probe = rect_probe(&floor, [5., -5., 3.], [0., 0., -1.]);
    assert!(floor.hit(&probe).is_some());
    // off each side
    for origin in [[5.5, 0., 3.], [-5.5, 0., 3.], [0., 5.5, 3.], [0., -5.5, 3.]].iter() {
        let probe = rect_probe(&floor, *origin, [0., 0., -1.]);
        assert_eq!(floor.hit(&probe), None);
    }
    // away from the plane, and too close to it
    assert_eq!(floor.hit(&rect_probe(&floor, [0., 0., 3.], [0., 0., 1.])), None);
    assert_eq!(floor.hit(&rect_probe(&floor, [0., 0., 0.00001], [0., 0., -1.])), None);
    assert_eq!(floor.hit(&rect_probe(&floor, [0., 0., 1e9], [0., 0., -1.])), None);
}

#[test]
fn rect_in_each_plane() {
    let wall = rect((-1., 1.), (0., 2.), 5., Axis::XZ, grey());
    let hit = wall.hit(&rect_probe(&wall, [0.5, 0., 1.], [0., 1., 0.])).unwrap();
    assert_eq!((f(hit.t), hit.point, hit.normal, hit.front_face), (5., vec3([0.5, 5., 1.]), vec3([-0., -1., -0.]), false));
    assert_eq!(wall.hit(&rect_probe(&wall, [0.5, 0., 3.], [0., 1., 0.])), None);
    let side = rect((-1., 1.), (0., 2.), -3., Axis::YZ, grey());
    let hit = side.hit(&rect_probe(&side, [0., 0.5, 1.], [-1., 0., 0.])).unwrap();
    assert_eq!((f(hit.t), hit.point, hit.normal, hit.front_face), (3., vec3([-3., 0.5, 1.]), vec3([1., 0., 0.]), true));
    assert_eq!(side.hit(&rect_probe(&side, [0., 1.5, 1.], [-1., 0., 0.])), None);
}

#[test]
fn rect_box_has_the_padded_sides_on_their_axes() {
    let floor = rect((-5., 5.), (-4., 4.), 1., Axis::XY, grey());
    assert_eq!(
        floor.bounding_box(),
        Some(aabb([-5. - 0.001, -4. - 0.001, 1. - 0.0001], [5. + 0.001, 4. + 0.001, 1. + 0.0001]))
    );
    let wall = rect((-5., 5.), (-4., 4.), 1., Axis::XZ, grey());
    assert_eq!(
        wall.bounding_box(),
        Some(aabb([-5. - 0.001, 1. - 0.0001, -4. - 0.001], [5. + 0.001, 1. + 0.0001, 4. + 0.001]))
    );
    let side = rect((-5., 5.), (-4., 4.), 1., Axis::YZ, grey());
    assert_eq!(
        side.bounding_box(),
        Some(aabb([1. - 0.0001, -5. - 0.001, -4. - 0.001], [1. + 0.0001, 5. + 0.001, 4. + 0.001]))
    );
    assert_eq!(Object::Rect(side).bounding_box(), side.bounding_box());
}

#[test]
fn flip_face_keeps_front_hits_only() {
    let lamp = FlipFace { obj: Box::new(Object::Rect(rect((-1., 1.), (-1., 1.), 3., Axis::XY, grey()))) };
    assert_eq!(lamp.hit(Some(hit_at(2., true))), Some(hit_at(2., true)));
    assert_eq!(lamp.hit(Some(hit_at(2., false))), None);
    assert_eq!(lamp.hit(None), None);
    assert_eq!(FlipFace::front_only(Some(hit_at(1., true))), Some(hit_at(1., true)));
    assert_eq!(lamp.bounding_box(), lamp.obj.bounding_box());
    assert_eq!(
        lamp.bounding_box(),
        Some(aabb([-1.001, -1.001, 2.9999], [1.001, 1.001, 3.0001]))
    );
}

#[test]
fn flip_face_shows_a_lamp_from_one_side() {
    let light = Material::DiffuseLight(DiffuseLight { col: Color::of_rgb(s(4.), s(4.), s(4.)) });
    let panel = rect((-1.5, 1.5), (0., 2.), 3.9, Axis::XY, light);
    let lamp = FlipFace { obj: Box::new(Object::Rect(panel)) };
    // from above, going down: the front
    let down = panel.hit(&rect_probe(&panel, [0., 1., 8.], [0., 0., -1.]));
    assert!(down.unwrap().front_face);
    assert_eq!(lamp.hit(down), down);
    // from below, going up: the back
    let up = panel.hit(&rect_probe(&panel, [0., 1., 0.], [0., 0., 1.]));
    assert!(!up.unwrap().front_face);
    assert_eq!(lamp.hit(up), None);
}

#[test]
fn closer_keeps_the_first_of_equals() {
    let a = hit_at(2., true);
    let b = hit_at(2., false);
    let c = hit_at(1., true);
    assert_eq!(keep_closer(None, None), None);
    assert_eq!(keep_closer(None, Some(a)), Some(a));
    assert_eq!(keep_closer(Some(a), None), Some(a));
    assert_eq!(keep_closer(Some(a), Some(b)), Some(a));
    assert_eq!(keep_closer(Some(a), Some(c)), Some(c));
    assert_eq!(keep_closer(Some(c), Some(a)), Some(c));
}

#[test]
fn group_hit_is_the_closest_of_its_members() {
    let one = sphere([0., 5., 0.], 1., grey());
    let two = sphere([0., 9., 0.], 1., grey());
    let group = ObjectGroup::pair(Object::Sphere(one), Object::Sphere(two));
    let origin = [0., 0., 0.];
    let dir = [0., 1., 0.];
    let bb = group.bb;
    let lo = [f(bb.start.x()), f(bb.start.y()), f(bb.start.z())];
    let hi = [f(bb.end.x()), f(bb.end.y()), f(bb.end.z())];
    let through = box_probe(lo, hi, origin, dir);
    let h1 = one.hit(&sphere_probe([0., 5., 0.], 1., origin, dir));
    let h2 = two.hit(&sphere_probe([0., 9., 0.], 1., origin, dir));
    assert_eq!(f(h1.unwrap().t), 4.);
    assert_eq!(f(h2.unwrap().t), 8.);
    assert_eq!(group.hit(&through, &vec![h1, h2]), h1);
    assert_eq!(group.hit(&through, &vec![h2, h1]), h1);
    assert_eq!(group.hit(&through, &vec![None, h2]), h2);
    assert_eq!(group.hit(&through, &vec![None, None]), None);
    assert_eq!(group.hit(&through, &vec![]), None);
    // equally close: the earlier member's
    let twin = Some(RayHit { front_face: false, ..h1.unwrap() });
    assert_eq!(group.hit(&through, &vec![h1, twin]), h1);
    assert_eq!(group.hit(&through, &vec![twin, h1]), twin);
    // a ray that misses the box sees none of the members' hits
    let past = box_probe(lo, hi, [5., 0., 0.], dir);
    assert_eq!(group.hit(&past, &vec![h1, h2]), None);
}

#[test]
fn group_box_is_the_union_of_its_members() {
    let one = sphere([0., 5., 0.], 1., grey());
    let two = sphere([3., 9., -1.], 2., grey());
    let alone = ObjectGroup::single(Object::Sphere(one));
    assert_eq!(alone.bounding_box(), one.bounding_box());
    assert_eq!(*alone.first, Object::Sphere(one));
    assert_eq!(alone.second, None);
    let both = ObjectGroup::pair(Object::Sphere(one), Object::Sphere(two));
    assert_eq!(both.bounding_box(), Some(aabb([-1., 4., -3.], [5., 11., 1.])));
    assert_eq!(*both.first, Object::Sphere(one));
    assert_eq!(both.second, Some(Box::new(Object::Sphere(two))));
    assert_eq!(Object::Group(both).bounding_box(), Some(aabb([-1., 4., -3.], [5., 11., 1.])));
}

#[test]
fn rect_front_is_where_its_own_normal_is_kept() {
    let planes = [(Axis::XY, [0., 0., 1.]), (Axis::XZ, [0., 1., 0.]), (Axis::YZ, [1., 0., 0.])];
    for (axis, normal) in planes.iter() {
        let r = rect((-1., 1.), (-1., 1.), 0., *axis, grey());
        for sign in [1., -1.].iter() {
            let dir = scale(*normal, *sign);
            let origin = scale(*normal, -3. * sign);
            let hit = r.hit(&rect_probe(&r, origin, dir)).unwrap();
            assert_eq!(f(hit.t), 3.);
            assert_eq!(hit.front_face, hit.normal == vec3(*normal));
            assert_eq!(hit.front_face, *sign < 0.);
            // the normal is against the ray either way
            let n = [f(hit.normal.x()), f(hit.normal.y()), f(hit.normal.z())];
            assert!(dot(n, dir) <= 0.);
        }
    }
}

#[test]
fn rect_hit_needs_numbers() {
    let floor = rect((-5., 5.), (-5., 5.), 0., Axis::XY, grey());
    let good = RectProbe { t: s(3.), hit_0: s(1.), hit_1: s(2.), along: s(-1.), point: vec3([1., 2., 0.]) };
    assert!(floor.hit(&good).is_some());
    let nan = s(f64::NAN);
    assert_eq!(floor.hit(&RectProbe { t: nan, ..good }), None);
    assert_eq!(floor.hit(&RectProbe { hit_0: nan, ..good }), None);
    assert_eq!(floor.hit(&RectProbe { hit_1: nan, ..good }), None);
    assert_eq!(floor.hit(&RectProbe { t: nan, hit_0: nan, hit_1: nan, ..good }), None);
    assert_eq!(floor.hit(&RectProbe { t: s(f64::INFINITY), ..good }), None);
    // the ends of the window and the sides of the rectangle count
    assert!(floor.hit(&RectProbe { t: s(0.0001), ..good }).is_some());
    assert!(floor.hit(&RectProbe { t: s(100000000.), ..good }).is_some());
    assert!(floor.hit(&RectProbe { hit_0: s(-5.), hit_1: s(5.), ..good }).is_some());
    // where the direction along the normal is not a number, the normal is kept
    let odd = floor.hit(&RectProbe { along: nan, ..good }).unwrap();
    assert!(odd.front_face);
    assert_eq!(odd.normal, vec3([0., 0., 1.]));
}

#[test]
fn sphere_hit_at_the_end_of_the_window() {
    // the lesser root is the greatest ray parameter that counts; every step
    // of the arithmetic is exact
    let center = [100000256., 0., 0.];
    let sp = sphere(center, 256., grey());
    let probe = sphere_probe(center, 256., [0., 0., 0.], [1., 0., 0.]);
    assert_eq!(f(probe.delta), 262144.);
    assert_eq!(f(probe.near.t), 100000000.);
    assert_eq!(f(probe.far.t), 100000512.);
    let hit = sp.hit(&probe).unwrap();
    assert_eq!(f(hit.t), 100000000.);
    assert_eq!(hit.point, vec3([100000000., 0., 0.]));
    assert_eq!(hit.normal, vec3([-1., 0., 0.]));
    assert!(hit.front_face);
    // one step further the greater root is left, and it does not count
    let center = [100000257., 0., 0.];
    let probe = sphere_probe(center, 256., [0., 0., 0.], [1., 0., 0.]);
    assert_eq!(f(probe.near.t), 100000001.);
    assert_eq!(sphere(center, 256., grey()).hit(&probe), None);
}

#[test]
fn a_tiny_sphere_is_hit() {
    // so small that its box has no thickness in doubles
    let r = 2f64.powi(-60);
    let center = [10., 0., 0.];
    let sp = sphere(center, r, grey());
    assert_eq!(sp.bounding_box(), Some(aabb([10., -r, -r], [10., r, r])));
    let probe = sphere_probe(center, r, [0., 0., 0.], [1., 0., 0.]);
    assert_eq!(f(sp.hit(&probe).unwrap().t), 10.);
}
