use vstd::prelude::*;

verus! {

/// One RGBA colour, eight bits per channel.
#[derive(Clone, Copy, Debug, PartialEq, Eq, Structural)]
pub struct Pixel {
    pub r: u8,
    pub g: u8,
    pub b: u8,
    pub a: u8,
}

impl Pixel {
    /// The colour channels, without alpha.
    pub fn to_rgb(&self) -> (r: (u8, u8, u8))
        ensures
            r == (self.r, self.g, self.b),
    {
        (self.r, self.g, self.b)
    }
}

} // verus!
