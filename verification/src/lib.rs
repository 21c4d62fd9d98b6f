//! The number-free core of an offline Monte-Carlo path tracer.
//!
//! Every coordinate, ray parameter and colour channel is a [`Scalar`]: the
//! bit pattern of an IEEE-754 double, read as a sign and a magnitude. The
//! library compares, selects and arranges such values and never computes
//! with them; a caller performs the arithmetic and hands the outcomes in.

pub mod scalar;
pub mod vec3;
pub mod ray;
pub mod color;
pub mod image;
pub mod bounding_box;
pub mod material;
pub mod object;
pub mod hierarchy;
pub mod scene;
pub mod traversal;

pub use scalar::Scalar;
pub use vec3::{Vec3, Point3};
pub use ray::Ray;
pub use color::Color;
pub use bounding_box::{AABB, BoxProbe, Slab, Window};
pub use material::{
    DiffuseLight, Glass, GlassSample, Lambert, LambertSample, Material, Metal, Sample,
};
pub use object::{
    Axis, FlipFace, Object, ObjectGroup, RayHit, Rect, RectPadding, RectProbe, RootProbe, Sphere,
    SphereProbe,
};
pub use scene::{Path, PathModel, PathState, Scene};
pub use traversal::{Answer, Oracle, Request, Traversal};
pub use image::Image;
