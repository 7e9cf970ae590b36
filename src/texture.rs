//! A store of textures, addressed by the handles it gives out.
use vstd::prelude::*;

verus! {

/// Names one texture of a [`TextureStore`].
#[derive(Clone, Copy, Debug, PartialEq, Eq, Structural)]
pub struct TextureHandle(usize);

impl TextureHandle {
    /// Position of the texture in its store.
    pub closed spec fn id(self) -> nat {
        self.0 as nat
    }

    /// Position of the texture in its store.
    pub fn index(&self) -> (r: usize)
        ensures
            r == self.id(),
    {
        self.0
    }
}

/// Textures in the order they were added; a handle is a position.
#[derive(Debug)]
pub struct TextureStore<T> {
    textures: Vec<T>,
}

impl<T> View for TextureStore<T> {
    type V = Seq<T>;

    closed spec fn view(&self) -> Seq<T> {
        self.textures@
    }
}

impl<T> TextureStore<T> {
    pub fn new() -> (r: TextureStore<T>)
        ensures
            r@ == Seq::<T>::empty(),
    {
        TextureStore { textures: Vec::new() }
    }

    pub fn len(&self) -> (r: usize)
        ensures
            r == self@.len(),
    {
        self.textures.len()
    }

    /// Stores a texture and returns the handle that names it.
    pub fn add(&mut self, texture: T) -> (r: TextureHandle)
        ensures
            final(self)@ == old(self)@.push(texture),
            r.id() == old(self)@.len(),
    {
        let handle = self.textures.len();
        self.textures.push(texture);
        TextureHandle(handle)
    }

    /// The texture that a handle of this store names.
    pub fn get(&self, handle: TextureHandle) -> (r: &T)
        requires
            handle.id() < self@.len(),
        ensures
            *r == self@[handle.id() as int],
    {
        &self.textures[handle.0]
    }
}

} // verus!
