//! Surface materials: which way a path goes on after a hit, and with what
//! attenuation.
//!
//! The directions among which a material chooses are computed by the
//! caller, normalized, from the hit and from its random draws; a material
//! here decides between them and puts the outgoing ray together.

use vstd::prelude::*;
use crate::scalar::{Scalar, ONE_BITS};
use crate::vec3::Vec3;
use crate::ray::Ray;
use crate::color::Color;
use crate::object::RayHit;

verus! {

/// A diffuse surface.
#[derive(Clone, Copy, Debug, PartialEq, Eq, Structural)]
pub struct Lambert {
    pub albedo: Color,
}

/// A mirror, blurred by `fuzz` between 0 and 1.
#[derive(Clone, Copy, Debug, PartialEq, Eq, Structural)]
pub struct Metal {
    pub albedo: Color,
    pub fuzz: Scalar,
}

/// A clear dielectric.
#[derive(Clone, Copy, Debug, PartialEq, Eq, Structural)]
pub struct Glass {
    pub refraction_index: Scalar,
}

/// A surface that gives off light and ends every path that reaches it.
#[derive(Clone, Copy, Debug, PartialEq, Eq, Structural)]
pub struct DiffuseLight {
    pub col: Color,
}

#[derive(Clone, Copy, Debug, PartialEq, Eq, Structural)]
pub enum Material {
    Lambert(Lambert),
    Metal(Metal),
    Glass(Glass),
    DiffuseLight(DiffuseLight),
}

/// What a diffuse bounce is chosen from.
#[derive(Clone, Copy, Debug, PartialEq, Eq, Structural)]
pub struct LambertSample {
    /// A random vector in the hemisphere around the surface normal.
    pub sampled: Vec3,
    /// `sampled`, normalized.
    pub sampled_dir: Vec3,
    /// The surface normal, normalized.
    pub normal_dir: Vec3,
}

/// What a dielectric bounce is chosen from.
#[derive(Clone, Copy, Debug, PartialEq, Eq, Structural)]
pub struct GlassSample {
    /// The ratio of the refractive indices times the sine of the angle of
    /// incidence; above one, no refracted ray exists.
    pub bend: Scalar,
    /// The share of light reflected at this angle.
    pub reflectance: Scalar,
    /// A uniform draw from 0 to 1.
    pub draw: Scalar,
    /// The mirrored direction, normalized.
    pub reflected_dir: Vec3,
    /// The refracted direction, normalized.
    pub refracted_dir: Vec3,
}

/// What the caller computed for the scattering at one hit: the sample of
/// the kind that the material hit takes.
#[derive(Clone, Copy, Debug, PartialEq, Eq, Structural)]
pub enum Sample {
    Lambert(LambertSample),
    /// The mirrored direction plus the fuzz, normalized.
    Metal(Vec3),
    Glass(GlassSample),
    /// For a material that does not scatter.
    Nothing,
}

impl Lambert {
    /// The direction a diffuse bounce takes: the sampled one, or the normal
    /// where the sample is too close to zero to have a direction.
    pub open spec fn bounce_dir(sample: LambertSample) -> Vec3 {
        if sample.sampled.negligible() {
            sample.normal_dir
        } else {
            sample.sampled_dir
        }
    }

    /// Always bounces, from the point hit, attenuated by the albedo.
    pub fn scatter(&self, hit: &RayHit, sample: &LambertSample) -> (r: Option<(Color, Ray)>)
        ensures
            r == Some((self.albedo, Ray { origin: hit.point, dir: Self::bounce_dir(*sample) })),
    {
        let dir = if sample.sampled.is_zero() {
            sample.normal_dir
        } else {
            sample.sampled_dir
        };
        Some((self.albedo, Ray { origin: hit.point, dir }))
    }
}

impl Metal {
    /// Always bounces, from the point hit into `scattered_dir` (the mirrored
    /// direction plus the fuzz, normalized), attenuated by the albedo; also
    /// where that direction points below the surface.
    pub fn scatter(&self, hit: &RayHit, scattered_dir: Vec3) -> (r: Option<(Color, Ray)>)
        ensures
            r == Some((self.albedo, Ray { origin: hit.point, dir: scattered_dir })),
    {
        Some((self.albedo, Ray { origin: hit.point, dir: scattered_dir }))
    }
}

impl Glass {
    /// The refractive indices on the two sides of the surface, the side the
    /// ray goes into first: the material's index and then 1 for a ray that
    /// comes from outside, and the other way round for one from inside.
    pub open spec fn indices(self, front_face: bool) -> (Scalar, Scalar) {
        if front_face {
            (self.refraction_index, Scalar { bits: ONE_BITS })
        } else {
            (Scalar { bits: ONE_BITS }, self.refraction_index)
        }
    }

    /// The ray is mirrored: it cannot be refracted at this angle, or the
    /// draw fell under the reflectance.
    pub open spec fn reflects(sample: GlassSample) -> bool {
        (Scalar { bits: ONE_BITS }).less(sample.bend) || sample.draw.less(sample.reflectance)
    }

    pub fn ref_indexes(&self, front_face: bool) -> (r: (Scalar, Scalar))
        ensures
            r == self.indices(front_face),
    {
        if front_face {
            (self.refraction_index, Scalar::one())
        } else {
            (Scalar::one(), self.refraction_index)
        }
    }

    /// Always bounces, from the point hit, mirrored or refracted, and never
    /// attenuated.
    pub fn scatter(&self, hit: &RayHit, sample: &GlassSample) -> (r: Option<(Color, Ray)>)
        ensures
            r == Some(
                (
                    Color::white(),
                    Ray {
                        origin: hit.point,
                        dir: if Self::reflects(*sample) {
                            sample.reflected_dir
                        } else {
                            sample.refracted_dir
                        },
                    },
                ),
            ),
    {
        let dir = if sample.bend.gt(Scalar::one()) || sample.reflectance.gt(sample.draw) {
            sample.reflected_dir
        } else {
            sample.refracted_dir
        };
        Some((Color::white(), Ray { origin: hit.point, dir }))
    }
}

impl DiffuseLight {
    /// Never bounces.
    pub fn scatter(&self) -> (r: Option<(Color, Ray)>)
        ensures
            r.is_none(),
    {
        None
    }
}

impl Material {
    /// What a material makes of a ray at a hit: an attenuation and the ray
    /// that goes on, or nothing, which ends the path. A light gives nothing
    /// whatever the sample; the others scatter from a sample of their own
    /// kind, and give nothing from one of another kind.
    pub open spec fn scattered(self, hit: RayHit, sample: Sample) -> Option<(Color, Ray)> {
        match (self, sample) {
            (Material::Lambert(m), Sample::Lambert(s)) => Some(
                (m.albedo, Ray { origin: hit.point, dir: Lambert::bounce_dir(s) }),
            ),
            (Material::Metal(m), Sample::Metal(dir)) => Some(
                (m.albedo, Ray { origin: hit.point, dir }),
            ),
            (Material::Glass(_), Sample::Glass(s)) => Some(
                (
                    Color::white(),
                    Ray {
                        origin: hit.point,
                        dir: if Glass::reflects(s) {
                            s.reflected_dir
                        } else {
                            s.refracted_dir
                        },
                    },
                ),
            ),
            _ => None,
        }
    }

    pub fn scatter(&self, hit: &RayHit, sample: &Sample) -> (r: Option<(Color, Ray)>)
        ensures
            r == self.scattered(*hit, *sample),
    {
        match (self, sample) {
            (Material::Lambert(m), Sample::Lambert(s)) => m.scatter(hit, s),
            (Material::Metal(m), Sample::Metal(dir)) => m.scatter(hit, *dir),
            (Material::Glass(g), Sample::Glass(s)) => g.scatter(hit, s),
            _ => None,
        }
    }

    /// The light a surface of this material gives off by itself.
    pub open spec fn emitted(self) -> Color {
        match self {
            Material::DiffuseLight(light) => light.col,
            _ => Color::black(),
        }
    }

    /// The light given off at a hit, whatever the ray that hit and
    /// wherever it did.
    pub fn emit(&self, ray: &Ray, hit: &RayHit) -> (c: Color)
        ensures
            c == self.emitted(),
    {
        match self {
            Material::DiffuseLight(light) => light.col,
            _ => Color::black(),
        }
    }
}

} // verus!
