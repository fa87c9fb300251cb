//! Hue binning and the seed simplices of the simplex-cut palette builder.
//!
//! Six simplices tile the RGB cube, all sharing black and white and each
//! taking two neighbouring cube corners on the hue circle
//! red, yellow, green, cyan, blue, magenta.  A pixel belongs to the sector
//! given by the sign ordering of its channels.

use vstd::prelude::*;

use crate::color::Srgb8;

verus! {

/// The hue sector of a color, decided by the sign ordering of its channels:
/// 0 yellow-red, 1 yellow-green, 2 cyan-green, 3 cyan-blue, 4 magenta-blue,
/// 5 magenta-red.
pub open spec fn hue_sector_spec(c: Srgb8) -> int {
    if c.r < c.g {
        if c.g < c.b {
            3
        } else if c.b < c.r {
            1
        } else {
            2
        }
    } else {
        if c.r < c.b {
            4
        } else if c.b < c.g {
            0
        } else {
            5
        }
    }
}

pub fn hue_sector(c: Srgb8) -> (s: usize)
    ensures
        s == hue_sector_spec(c),
        s < 6,
{
    if c.r < c.g {
        if c.g < c.b {
            3
        } else if c.b < c.r {
            1
        } else {
            2
        }
    } else {
        if c.r < c.b {
            4
        } else if c.b < c.g {
            0
        } else {
            5
        }
    }
}

/// The corner of the RGB cube at position `i` on the hue circle, with the
/// circle closed by `cube_corner(6) == cube_corner(0)`.
pub open spec fn cube_corner(i: int) -> Srgb8 {
    if i == 0 {
        Srgb8 { r: 255, g: 0, b: 0 }
    } else if i == 1 {
        Srgb8 { r: 255, g: 255, b: 0 }
    } else if i == 2 {
        Srgb8 { r: 0, g: 255, b: 0 }
    } else if i == 3 {
        Srgb8 { r: 0, g: 255, b: 255 }
    } else if i == 4 {
        Srgb8 { r: 0, g: 0, b: 255 }
    } else if i == 5 {
        Srgb8 { r: 255, g: 0, b: 255 }
    } else {
        Srgb8 { r: 255, g: 0, b: 0 }
    }
}

/// The four seed vertices of hue sector `sector`: black, white, and the two
/// neighbouring hue corners.
pub fn seed_simplex(sector: usize) -> (v: [Srgb8; 4])
    requires
        sector < 6,
    ensures
        v@[0] == (Srgb8 { r: 0, g: 0, b: 0 }),
        v@[1] == (Srgb8 { r: 255, g: 255, b: 255 }),
        v@[2] == cube_corner(sector as int),
        v@[3] == cube_corner(sector as int + 1),
{
    let black = Srgb8 { r: 0, g: 0, b: 0 };
    let white = Srgb8 { r: 255, g: 255, b: 255 };
    let prev: Srgb8 = match sector {
        0 => Srgb8 { r: 255, g: 0, b: 0 },
        1 => Srgb8 { r: 255, g: 255, b: 0 },
        2 => Srgb8 { r: 0, g: 255, b: 0 },
        3 => Srgb8 { r: 0, g: 255, b: 255 },
        4 => Srgb8 { r: 0, g: 0, b: 255 },
        _ => Srgb8 { r: 255, g: 0, b: 255 },
    };
    let next: Srgb8 = match sector {
        0 => Srgb8 { r: 255, g: 255, b: 0 },
        1 => Srgb8 { r: 0, g: 255, b: 0 },
        2 => Srgb8 { r: 0, g: 255, b: 255 },
        3 => Srgb8 { r: 0, g: 0, b: 255 },
        4 => Srgb8 { r: 255, g: 0, b: 255 },
        _ => Srgb8 { r: 255, g: 0, b: 0 },
    };
    [black, white, prev, next]
}

/// `s.push(x)` filters to `s.filter(p)` plus `x` when `p` accepts `x`.
pub(crate) proof fn lemma_filter_push(s: Seq<Srgb8>, p: spec_fn(Srgb8) -> bool, x: Srgb8)
    ensures
        s.push(x).filter(p) == if p(x) { s.filter(p).push(x) } else { s.filter(p) },
{
    reveal(Seq::filter);
    assert(s.push(x).drop_last() =~= s);
    assert(s.push(x).last() == x);
}

/// Every pixel falls in exactly one hue sector, so the six bins of
/// `bin_by_hue` partition the input.
pub proof fn lemma_hue_bins_partition(pixels: Seq<Srgb8>)
    ensures
        pixels.filter(|c: Srgb8| hue_sector_spec(c) == 0).len()
            + pixels.filter(|c: Srgb8| hue_sector_spec(c) == 1).len()
            + pixels.filter(|c: Srgb8| hue_sector_spec(c) == 2).len()
            + pixels.filter(|c: Srgb8| hue_sector_spec(c) == 3).len()
            + pixels.filter(|c: Srgb8| hue_sector_spec(c) == 4).len()
            + pixels.filter(|c: Srgb8| hue_sector_spec(c) == 5).len()
            == pixels.len(),
    decreases pixels.len(),
{
    reveal(Seq::filter);
    if pixels.len() > 0 {
        lemma_hue_bins_partition(pixels.drop_last());
        assert(0 <= hue_sector_spec(pixels.last()) < 6);
    }
}

/// Bins pixels by hue sector, keeping their relative order inside each bin.
pub fn bin_by_hue(pixels: &Vec<Srgb8>) -> (bins: Vec<Vec<Srgb8>>)
    ensures
        bins@.len() == 6,
        forall|s: int| 0 <= s < 6 ==> (#[trigger] bins@[s])@
            == pixels@.filter(|c: Srgb8| hue_sector_spec(c) == s),
{
    let mut bins: Vec<Vec<Srgb8>> = Vec::new();
    let mut s: usize = 0;
    while s < 6
        invariant
            s <= 6,
            bins@.len() == s,
            forall|j: int| 0 <= j < s ==> (#[trigger] bins@[j])@ == Seq::<Srgb8>::empty(),
        decreases 6 - s,
    {
        bins.push(Vec::new());
        s = s + 1;
    }
    proof {
        assert forall|s2: int| 0 <= s2 < 6 implies (#[trigger] bins@[s2])@
            == pixels@.take(0).filter(|c: Srgb8| hue_sector_spec(c) == s2) by {
            reveal(Seq::filter);
            assert(pixels@.take(0) =~= Seq::<Srgb8>::empty());
        }
    }
    let n = pixels.len();
    let mut i: usize = 0;
    while i < n
        invariant
            i <= n,
            n == pixels@.len(),
            bins@.len() == 6,
            forall|s2: int| 0 <= s2 < 6 ==> (#[trigger] bins@[s2])@
                == pixels@.take(i as int).filter(|c: Srgb8| hue_sector_spec(c) == s2),
        decreases n - i,
    {
        let c = pixels[i];
        let sector = hue_sector(c);
        let ghost bins0 = bins@;
        bins[sector].push(c);
        proof {
            assert(pixels@.take(i + 1) =~= pixels@.take(i as int).push(c));
            assert forall|s2: int| 0 <= s2 < 6 implies (#[trigger] bins@[s2])@
                == pixels@.take(i + 1).filter(|c2: Srgb8| hue_sector_spec(c2) == s2) by {
                lemma_filter_push(
                    pixels@.take(i as int),
                    |c2: Srgb8| hue_sector_spec(c2) == s2,
                    c,
                );
                if s2 != sector as int {
                    assert(bins@[s2] == bins0[s2]);
                }
            }
        }
        i = i + 1;
    }
    proof {
        assert(pixels@.take(n as int) =~= pixels@);
    }
    bins
}

} // verus!
