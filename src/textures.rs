use vstd::prelude::*;

use crate::aabb::Coords;
use crate::perlin::Perlin;
use crate::perlin::TABLE_SIZE;
use crate::scalar::Scalar;

verus! {

/// A texture that has the same color everywhere.
pub struct ConstantTexture {
    pub color: Coords,
}

impl ConstantTexture {
    pub fn new(color: Coords) -> (r: ConstantTexture)
        ensures
            r.color == color,
    {
        ConstantTexture { color }
    }

    pub fn from(r: Scalar, g: Scalar, b: Scalar) -> (t: ConstantTexture)
        ensures
            t.color == (Coords { x: r, y: g, z: b }),
    {
        ConstantTexture { color: Coords::new(r, g, b) }
    }
}

/// A 3D checker pattern that alternates between two textures.
pub struct CheckedTexture {
    pub odd: Box<Texture>,
    pub even: Box<Texture>,
}

impl CheckedTexture {
    pub fn new(odd: Texture, even: Texture) -> (r: CheckedTexture)
        ensures
            *r.odd == odd,
            *r.even == even,
    {
        CheckedTexture { odd: Box::new(odd), even: Box::new(even) }
    }
}

/// Marble-like texture made of turbulent Perlin noise.
pub struct NoiseTexture {
    pub noise: Perlin,
    pub scale: Scalar,
}

impl NoiseTexture {
    /// Noise of the given frequency scale over lattice tables with the given
    /// gradient vectors.
    pub fn new(scale: Scalar, gradients: Vec<Coords>) -> (r: NoiseTexture)
        requires
            gradients.len() == TABLE_SIZE,
        ensures
            r.scale == scale,
            r.noise.wf(),
            r.noise.ranvec@ == gradients@,
    {
        NoiseTexture { noise: Perlin::new(gradients), scale }
    }
}

pub enum Texture {
    ConstantTexture(ConstantTexture),
    CheckedTexture(CheckedTexture),
    NoiseTexture(NoiseTexture),
}

/// The texture that shades a point on the `odd` (or else the even) side of
/// the checker pattern: checkers are followed down to a texture that is not
/// a checker. The side is the same at every level, since every checker
/// decides it from the point alone.
pub open spec fn resolved(t: &Texture, odd: bool) -> &Texture
    decreases t,
{
    match t {
        Texture::CheckedTexture(c) => if odd {
            resolved(&*c.odd, odd)
        } else {
            resolved(&*c.even, odd)
        },
        _ => t,
    }
}

impl Texture {
    /// See [`resolved`].
    pub fn resolve(&self, odd: bool) -> (r: &Texture)
        ensures
            r == resolved(self, odd),
            !(r is CheckedTexture),
        decreases self,
    {
        match self {
            Texture::CheckedTexture(c) => if odd {
                c.odd.resolve(odd)
            } else {
                c.even.resolve(odd)
            },
            _ => self,
        }
    }
}

} // verus!
