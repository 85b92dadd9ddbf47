use vstd::prelude::*;

use crate::aabb::Coords;
use crate::scalar::is_nan_bits;
use crate::scalar::key_of_bits;
use crate::scalar::Scalar;
use crate::scalar::ONE_BITS;
use crate::textures::ConstantTexture;
use crate::textures::Texture;

verus! {

/// Diffuse surface whose color comes from a texture.
pub struct Lambertian {
    pub albedo: Texture,
}

impl Lambertian {
    pub fn new(albedo: Texture) -> (r: Lambertian)
        ensures
            r.albedo == albedo,
    {
        Lambertian { albedo }
    }

    pub fn color(r: Scalar, g: Scalar, b: Scalar) -> (m: Lambertian)
        ensures
            m.albedo matches Texture::ConstantTexture(c) && c.color == (Coords { x: r, y: g, z: b }),
    {
        Lambertian { albedo: Texture::ConstantTexture(ConstantTexture::from(r, g, b)) }
    }

    pub fn from_vec3(color: Coords) -> (m: Lambertian)
        ensures
            m.albedo matches Texture::ConstantTexture(c) && c.color == color,
    {
        Lambertian { albedo: Texture::ConstantTexture(ConstantTexture::new(color)) }
    }
}

/// The fuzz of a metal: the given value where it is below 1.0, else 1.0
/// (a NaN is not below 1.0).
pub open spec fn clamped_fuzz(fuzz: Scalar) -> Scalar {
    if !is_nan_bits(fuzz.spec_bits()) && fuzz.key < key_of_bits(ONE_BITS) {
        fuzz
    } else {
        Scalar { key: key_of_bits(ONE_BITS) }
    }
}

/// Specular surface with a constant color and a roughness at most 1.0.
pub struct Metal {
    pub albedo: Coords,
    pub fuzz: Scalar,
}

impl Metal {
    pub fn new(albedo: Coords, fuzz: Scalar) -> (r: Metal)
        ensures
            r.albedo == albedo,
            r.fuzz == clamped_fuzz(fuzz),
    {
        let one = Scalar::one();
        Metal { albedo, fuzz: if !fuzz.is_nan() && fuzz.lt(one) { fuzz } else { one } }
    }

    pub fn from(x: Scalar, y: Scalar, z: Scalar, fuzz: Scalar) -> (r: Metal)
        ensures
            r.albedo == (Coords { x, y, z }),
            r.fuzz == clamped_fuzz(fuzz),
    {
        Metal::new(Coords::new(x, y, z), fuzz)
    }
}

/// Transparent surface that refracts with the given index.
pub struct Dielectric {
    pub refractive_index: Scalar,
}

impl Dielectric {
    pub fn from(refractive_index: Scalar) -> (r: Dielectric)
        ensures
            r.refractive_index == refractive_index,
    {
        Dielectric { refractive_index }
    }
}

/// Light source whose emitted radiance comes from a texture.
pub struct DiffuseLight {
    pub emit: Texture,
}

impl DiffuseLight {
    pub fn new(emit: Texture) -> (r: DiffuseLight)
        ensures
            r.emit == emit,
    {
        DiffuseLight { emit }
    }

    pub fn color(r: Scalar, g: Scalar, b: Scalar) -> (l: DiffuseLight)
        ensures
            l.emit matches Texture::ConstantTexture(c) && c.color == (Coords { x: r, y: g, z: b }),
    {
        DiffuseLight { emit: Texture::ConstantTexture(ConstantTexture::from(r, g, b)) }
    }

    pub fn from_vec3(color: Coords) -> (l: DiffuseLight)
        ensures
            l.emit matches Texture::ConstantTexture(c) && c.color == color,
    {
        DiffuseLight { emit: Texture::ConstantTexture(ConstantTexture::new(color)) }
    }
}

pub enum Material {
    Lambertian(Lambertian),
    Metal(Metal),
    Dielectric(Dielectric),
    DiffuseLight(DiffuseLight),
}

impl Material {
    /// The texture of the light this material emits; `None` for the
    /// materials that emit nothing.
    pub fn emission(&self) -> (r: Option<&Texture>)
        ensures
            match self {
                Material::DiffuseLight(l) => r == Some(&l.emit),
                _ => r is None,
            },
    {
        match self {
            Material::DiffuseLight(l) => Some(&l.emit),
            _ => None,
        }
    }

    /// Whether a hit on this material may continue the path: every material
    /// but a light source scatters.
    pub fn scatters(&self) -> (r: bool)
        ensures
            r == !(self is DiffuseLight),
    {
        match self {
            Material::DiffuseLight(_) => false,
            _ => true,
        }
    }
}

} // verus!
