use vstd::prelude::*;

verus! {

/// An RGBA colour with 8-bit channels.
#[derive(Clone, Copy, Debug, PartialEq, Eq, Structural)]
pub struct ColorRgba {
    pub r: u8,
    pub g: u8,
    pub b: u8,
    pub a: u8,
}

impl ColorRgba {
    /// Builds a colour from `[r, g, b, a]`.
    pub fn from_array(value: [u8; 4]) -> (c: ColorRgba)
        ensures
            c.r == value@[0],
            c.g == value@[1],
            c.b == value@[2],
            c.a == value@[3],
    {
        ColorRgba { r: value[0], g: value[1], b: value[2], a: value[3] }
    }

    /// The channels in `[r, g, b, a]` order.
    pub fn as_array(self) -> (out: [u8; 4])
        ensures
            out@ == seq![self.r, self.g, self.b, self.a],
    {
        [self.r, self.g, self.b, self.a]
    }
}

impl From<[u8; 4]> for ColorRgba {
    /// Builds a colour from `[r, g, b, a]`.
    fn from(value: [u8; 4]) -> (c: ColorRgba) {
        ColorRgba::from_array(value)
    }
}

impl vstd::std_specs::convert::FromSpecImpl<[u8; 4]> for ColorRgba {
    open spec fn obeys_from_spec() -> bool {
        true
    }

    open spec fn from_spec(v: [u8; 4]) -> ColorRgba {
        ColorRgba { r: v@[0], g: v@[1], b: v@[2], a: v@[3] }
    }
}

/// Reading the channels back gives the array the colour was built from.
pub proof fn lemma_color_array_roundtrip(value: [u8; 4])
    ensures
        seq![value@[0], value@[1], value@[2], value@[3]] == value@,
{
    assert(value@.len() == 4);
    assert(seq![value@[0], value@[1], value@[2], value@[3]] =~= value@);
}

} // verus!
