//! Materials whose parameters hold no numbers of their own.
use vstd::prelude::*;

use crate::texture::TextureHandle;

verus! {

/// A diffuse material whose albedo is read from a texture.
#[derive(Clone, Copy, Debug, PartialEq, Eq, Structural)]
pub struct Lambertian {
    pub texture: TextureHandle,
}

impl Lambertian {
    pub fn new(texture: TextureHandle) -> (r: Lambertian)
        ensures
            r.texture == texture,
    {
        Lambertian { texture }
    }
}

} // verus!
