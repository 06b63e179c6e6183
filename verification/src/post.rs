//! Ping-pong of the two post-processing textures: each post pass reads one
//! texture and writes the other, and the next pass swaps them.

use vstd::prelude::*;

verus! {

/// One of the two post-processing textures.
#[derive(Clone, Copy, PartialEq, Eq, Structural, Debug)]
pub enum PostTexture {
    Main,
    Alt,
}

/// The direction of a post pass: which texture it reads and which it writes.
#[derive(Clone, Copy, PartialEq, Eq, Structural, Debug)]
pub struct PostTextureState {
    pub input: PostTexture,
    pub output: PostTexture,
    pub swapped: bool,
}

impl PostTextureState {
    /// Name of the direction: "main_to_alt" or "alt_to_main".
    pub fn state(&self) -> (name: &'static str)
        ensures
            name == (if !self.swapped { "main_to_alt" } else { "alt_to_main" }),
    {
        if !self.swapped {
            "main_to_alt"
        } else {
            "alt_to_main"
        }
    }
}

/// Which post texture holds the current image: unswapped, passes read the
/// main texture and write the alternate one.
pub struct PostTextures {
    pub swapped: bool,
}

impl PostTextures {
    pub fn new() -> (t: Self)
        ensures
            !t.swapped,
    {
        PostTextures { swapped: false }
    }

    /// The texture the next pass reads.
    pub fn current_input(&self) -> (t: PostTexture)
        ensures
            t == (if !self.swapped { PostTexture::Main } else { PostTexture::Alt }),
    {
        if !self.swapped {
            PostTexture::Main
        } else {
            PostTexture::Alt
        }
    }

    /// The texture the next pass writes.
    pub fn current_output(&self) -> (t: PostTexture)
        ensures
            t == (if !self.swapped { PostTexture::Alt } else { PostTexture::Main }),
    {
        if !self.swapped {
            PostTexture::Alt
        } else {
            PostTexture::Main
        }
    }

    /// Starts a pass: returns its direction and swaps the textures for the next one.
    pub fn write(&mut self) -> (state: PostTextureState)
        ensures
            final(self).swapped == !old(self).swapped,
            state.input == (if !old(self).swapped { PostTexture::Main } else { PostTexture::Alt }),
            state.output == (if !old(self).swapped { PostTexture::Alt } else { PostTexture::Main }),
            state.swapped == old(self).swapped,
            state.input != state.output,
            (if !final(self).swapped { PostTexture::Main } else { PostTexture::Alt }) == state.output,
            (if !final(self).swapped { PostTexture::Alt } else { PostTexture::Main }) == state.input,
    {
        if !self.swapped {
            self.swapped = !self.swapped;
            PostTextureState { input: PostTexture::Main, output: PostTexture::Alt, swapped: !self.swapped }
        } else {
            self.swapped = !self.swapped;
            PostTextureState { input: PostTexture::Alt, output: PostTexture::Main, swapped: !self.swapped }
        }
    }
}

} // verus!
