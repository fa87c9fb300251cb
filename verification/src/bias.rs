//! The integer kernel of the Bayer ordered-dither bias pattern.
//!
//! A Bayer matrix cell is the bit-reversed interleave of the pixel
//! coordinates: even positions take `x xor y`, odd positions take `x`, and
//! the result is reversed within twice the pattern's bit width.  The host
//! turns the cell value `m` into the bias `(0.5 + m) / n^2`.

use vstd::prelude::*;

verus! {

/// Bit `i` of a 16-bit value.
pub open spec fn bit16(v: u16, i: u16) -> bool {
    (v >> i) & 1 == 1
}

/// Bit `i` of an 8-bit value.
pub open spec fn bit8(v: u8, i: u8) -> bool {
    (v >> i) & 1 == 1
}

/// Bit `i` of a 32-bit value.
pub open spec fn bit32(v: u32, i: u32) -> bool {
    (v >> i) & 1 == 1
}

/// The shift-and-mask cascade that spreads the bits of `x` to the even
/// positions of a 16-bit value.  What the cascade means, bit by bit, is
/// stated by `lemma_spread_bits` and by `spread`'s contract; the closed
/// form exists so that the Bayer kernel's bit-level proof can consume it
/// without quantifiers.
pub open spec fn spread_spec(x: u8) -> u16 {
    let r0 = x as u16;
    let r1 = (r0 ^ (r0 << 4u16)) & 0x0f0f;
    let r2 = (r1 ^ (r1 << 2u16)) & 0x3333;
    (r2 ^ (r2 << 1u16)) & 0x5555
}

/// Bit `i` of `x` lands on bit `2 * i` of the spread value, and the odd
/// positions stay clear.
pub proof fn lemma_spread_bits(x: u8, i: u16)
    by (bit_vector)
    requires
        i < 8,
    ensures
        bit16(spread_spec(x), (2 * i) as u16) == bit8(x, i as u8),
        !bit16(spread_spec(x), (2 * i + 1) as u16),
{
}

/// Spreads the bits of `x` to the even positions of the result: bit `i` of
/// `x` becomes bit `2 * i`, and every odd position is zero.
pub fn spread(x: u8) -> (r: u16)
    ensures
        r == spread_spec(x),
        forall|i: u16| i < 8 ==> #[trigger] bit16(r, (2 * i) as u16) == bit8(x, i as u8),
        forall|i: u16| i < 8 ==> !(#[trigger] bit16(r, (2 * i + 1) as u16)),
{
    let r0 = x as u16;
    let r1 = (r0 ^ (r0 << 4u16)) & 0x0f0f;
    let r2 = (r1 ^ (r1 << 2u16)) & 0x3333;
    let r3 = (r2 ^ (r2 << 1u16)) & 0x5555;
    proof {
        assert forall|i: u16| i < 8 implies #[trigger] bit16(r3, (2 * i) as u16)
            == bit8(x, i as u8) by {
            lemma_spread_bits(x, i);
        }
        assert forall|i: u16| i < 8 implies !(#[trigger] bit16(r3, (2 * i + 1) as u16)) by {
            lemma_spread_bits(x, i);
        }
    }
    r3
}

/// A 16-bit value with the bit order reversed by a cascade of
/// shift-and-mask steps.
pub open spec fn reverse16_spec(v: u16) -> u16 {
    let v1 = (v >> 8u16) | (v << 8u16);
    let v2 = ((v1 & 0xf0f0) >> 4u16) | ((v1 & 0x0f0f) << 4u16);
    let v3 = ((v2 & 0xcccc) >> 2u16) | ((v2 & 0x3333) << 2u16);
    ((v3 & 0xaaaa) >> 1u16) | ((v3 & 0x5555) << 1u16)
}

/// Reverses the bit order of a 16-bit value.
fn reverse16(v: u16) -> (r: u16)
    ensures
        r == reverse16_spec(v),
{
    let v1 = (v >> 8u16) | (v << 8u16);
    let v2 = ((v1 & 0xf0f0) >> 4u16) | ((v1 & 0x0f0f) << 4u16);
    let v3 = ((v2 & 0xcccc) >> 2u16) | ((v2 & 0x3333) << 2u16);
    ((v3 & 0xaaaa) >> 1u16) | ((v3 & 0x5555) << 1u16)
}

/// The Bayer matrix cell at `(x, y)` for a pattern of side `1 << bits`:
/// within the cell value, reading from the top bit down, bit pairs hold
/// `x xor y` then `x`, for coordinate bits from the lowest up.  The value
/// is below the squared pattern side.
pub fn bayer_index(bits: u32, x: u32, y: u32) -> (m: u16)
    requires
        1 <= bits <= 8,
    ensures
        (m as u32) < (1u32 << (2 * bits) as u32),
        forall|i: u32| i < bits ==> #[trigger] bit16(m, (2 * bits - 1 - 2 * i) as u16)
            == (bit32(x, i) != bit32(y, i)),
        forall|i: u32| i < bits ==> #[trigger] bit16(m, (2 * bits - 2 - 2 * i) as u16)
            == bit32(x, i),
{
    let size = 1u32 << bits;
    proof {
        assert(2 <= (1u32 << bits) <= 256) by (bit_vector)
            requires
                1 <= bits <= 8,
        ;
    }
    let sx = (x % size) as u8;
    let sy = (y % size) as u8;
    let gx = spread(sx);
    let gy = spread(sy);
    let mixed = gx ^ (gx << 1u16) ^ gy;
    let rev = reverse16(mixed);
    let sh = (16 - 2 * bits) as u16;
    let m = rev >> sh;
    proof {
        assert((m as u32) < (1u32 << (2 * bits) as u32)
            && (forall|i: u32| i < bits ==> #[trigger] bit16(m, (2 * bits - 1 - 2 * i) as u16)
                == (bit32(x, i) != bit32(y, i)))
            && (forall|i: u32| i < bits ==> #[trigger] bit16(m, (2 * bits - 2 - 2 * i) as u16)
                == bit32(x, i))) by (bit_vector)
            requires
                1 <= bits <= 8,
                sx == (x % (1u32 << bits)) as u8,
                sy == (y % (1u32 << bits)) as u8,
                m == reverse16_spec(spread_spec(sx) ^ (spread_spec(sx) << 1u16) ^ spread_spec(sy))
                    >> ((16 - 2 * bits) as u16),
        ;
    }
    m
}

/// Bits at or above a pattern's width are ignored: only `x mod (1 << bits)`
/// and `y mod (1 << bits)` reach the cell value, so the pattern tiles the
/// plane.
pub proof fn lemma_bayer_tiles(bits: u32, x: u32, y: u32, i: u32)
    by (bit_vector)
    requires
        1 <= bits <= 8,
        i < bits,
    ensures
        bit32(x, i) == bit32(x % (1u32 << bits), i),
        bit32(y, i) == bit32(y % (1u32 << bits), i),
{
}

} // verus!
