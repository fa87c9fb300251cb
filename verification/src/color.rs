//! The 8-bit sRGB pixel representation.

use vstd::prelude::*;

verus! {

/// An 8-bit-per-channel sRGB color, the external pixel representation.
#[derive(Clone, Copy, PartialEq, Eq, Structural, Debug)]
pub struct Srgb8 {
    pub r: u8,
    pub g: u8,
    pub b: u8,
}

impl Srgb8 {
    pub fn new(r: u8, g: u8, b: u8) -> (c: Srgb8)
        ensures
            c == (Srgb8 { r, g, b }),
    {
        Srgb8 { r, g, b }
    }

    /// The channels packed into one integer, red in the highest byte.
    pub open spec fn key_spec(self) -> int {
        (self.r as u32) * 0x10000 + (self.g as u32) * 0x100 + (self.b as u32)
    }

    /// Packs the three channels into one integer, usable as a map key.
    pub fn key(self) -> (k: u32)
        ensures
            k == self.key_spec(),
    {
        let r = self.r;
        let g = self.g;
        let b = self.b;
        proof {
            assert(((r as u32) << 16) | ((g as u32) << 8) | (b as u32)
                == (r as u32) * 0x10000 + (g as u32) * 0x100 + (b as u32)) by (bit_vector);
        }
        ((r as u32) << 16) | ((g as u32) << 8) | (b as u32)
    }

    /// Unpacks a color from its packed key.
    pub fn from_key(k: u32) -> (c: Srgb8)
        requires
            k < 0x1000000,
        ensures
            c.key_spec() == k,
    {
        proof {
            assert(k < 0x1000000 ==>
                (((k >> 16) as u8) as u32) * 0x10000
                + ((((k >> 8) & 0xff) as u8) as u32) * 0x100
                + (((k & 0xff) as u8) as u32) == k) by (bit_vector);
        }
        Srgb8 { r: (k >> 16) as u8, g: ((k >> 8) & 0xff) as u8, b: (k & 0xff) as u8 }
    }
}

/// Distinct colors pack to distinct keys, so a map keyed by the packed
/// integer is a map keyed by the color.
pub proof fn lemma_key_injective(c1: Srgb8, c2: Srgb8)
    ensures
        c1.key_spec() == c2.key_spec() ==> c1 == c2,
{
    let r1 = c1.r;
    let g1 = c1.g;
    let b1 = c1.b;
    let r2 = c2.r;
    let g2 = c2.g;
    let b2 = c2.b;
    assert((r1 as u32) * 0x10000 + (g1 as u32) * 0x100 + (b1 as u32)
            == (r2 as u32) * 0x10000 + (g2 as u32) * 0x100 + (b2 as u32)
        ==> r1 == r2 && g1 == g2 && b1 == b2) by (bit_vector);
}

} // verus!
