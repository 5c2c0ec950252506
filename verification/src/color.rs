use vstd::prelude::*;

verus! {

/// A solid RGBA color, one byte per channel.
#[derive(Clone, PartialEq, Eq, Structural, Debug)]
pub struct Color(pub u8, pub u8, pub u8, pub u8);

impl Color {
    pub fn new(color: [u8; 4]) -> (c: Color)
        ensures
            c.0 == color[0],
            c.1 == color[1],
            c.2 == color[2],
            c.3 == color[3],
    {
        Self(color[0], color[1], color[2], color[3])
    }

    pub fn r(&self) -> (r: u8)
        ensures
            r == self.0,
    {
        self.0
    }

    pub fn g(&self) -> (r: u8)
        ensures
            r == self.1,
    {
        self.1
    }

    pub fn b(&self) -> (r: u8)
        ensures
            r == self.2,
    {
        self.2
    }

    pub fn set_rgb(&mut self, r: u8, g: u8, b: u8)
        ensures
            final(self).0 == r,
            final(self).1 == g,
            final(self).2 == b,
            final(self).3 == old(self).3,
    {
        self.0 = r;
        self.1 = g;
        self.2 = b;
    }

    pub fn a(&self) -> (r: u8)
        ensures
            r == self.3,
    {
        self.3
    }

    /// Number of channels.
    pub fn len(&self) -> (n: usize)
        ensures
            n == 4,
    {
        4
    }

    pub fn to_array(&self) -> (arr: [u8; 4])
        ensures
            arr[0] == self.0,
            arr[1] == self.1,
            arr[2] == self.2,
            arr[3] == self.3,
    {
        [self.0, self.1, self.2, self.3]
    }
}

} // verus!
