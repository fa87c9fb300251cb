//! Fixed grid palettes and the split strategies of the box palette builder.

use vstd::prelude::*;

use crate::color::Srgb8;

verus! {

/// How a box is divided along its longest axis: at the half range, at the
/// in-box median, or at the gamma-corrected mean of its pixels.
#[derive(Clone, Copy, PartialEq, Eq, Structural, Debug)]
pub enum Split {
    Half,
    Median,
    Mean,
}

/// The channel value of grid step `idx` out of `levels` evenly spaced
/// levels: `idx * 255 / (levels - 1)`, rounded to nearest.
pub open spec fn grid_level(idx: int, levels: int) -> int {
    (idx * 255 + (levels - 1) / 2) / (levels - 1)
}

proof fn lemma_grid_level_bound(idx: int, levels: int)
    by (nonlinear_arith)
    requires
        2 <= levels,
        0 <= idx < levels,
    ensures
        0 <= grid_level(idx, levels) <= 255,
{
}

/// Lexicographically earlier grid positions have smaller flattened indices.
proof fn lemma_flat_lt(g: int, b: int, r2: int, g2: int, b2: int, ri: int, gi: int, bi: int)
    by (nonlinear_arith)
    requires
        0 < g,
        0 < b,
        0 <= r2,
        0 <= g2 < g,
        0 <= b2 < b,
        0 <= ri,
        0 <= gi,
        0 <= bi,
        r2 < ri || (r2 == ri && g2 < gi) || (r2 == ri && g2 == gi && b2 < bi),
    ensures
        (r2 * g + g2) * b + b2 < (ri * g + gi) * b + bi,
{
}

/// The color at grid position `(ri, gi, bi)`.
pub open spec fn grid_color(
    ri: int,
    gi: int,
    bi: int,
    r_levels: int,
    g_levels: int,
    b_levels: int,
) -> Srgb8 {
    Srgb8 {
        r: grid_level(ri, r_levels) as u8,
        g: grid_level(gi, g_levels) as u8,
        b: grid_level(bi, b_levels) as u8,
    }
}

/// A palette of all combinations of `r_levels` evenly spaced red levels,
/// `g_levels` green levels and `b_levels` blue levels, in lexicographic
/// order of grid position.
pub fn grid(r_levels: usize, g_levels: usize, b_levels: usize) -> (palette: Vec<Srgb8>)
    requires
        2 <= r_levels <= 256,
        2 <= g_levels <= 256,
        2 <= b_levels <= 256,
    ensures
        palette@.len() == r_levels * g_levels * b_levels,
        forall|ri: int, gi: int, bi: int|
            0 <= ri < r_levels && 0 <= gi < g_levels && 0 <= bi < b_levels
                ==> palette@[(ri * g_levels + gi) * b_levels + bi]
                    == grid_color(ri, gi, bi, r_levels as int, g_levels as int, b_levels as int),
        forall|idx: int| 0 <= idx < palette@.len()
            ==> #[trigger] palette@[idx] == grid_color(
                idx / (g_levels * b_levels),
                (idx / (b_levels as int)) % (g_levels as int),
                idx % (b_levels as int),
                r_levels as int,
                g_levels as int,
                b_levels as int,
            ),
    {
    let ghost rl = r_levels as int;
    let ghost gl = g_levels as int;
    let ghost bl = b_levels as int;
    let mut palette: Vec<Srgb8> = Vec::new();
    let mut ri: usize = 0;
    while ri < r_levels
        invariant
            2 <= r_levels <= 256,
            2 <= g_levels <= 256,
            2 <= b_levels <= 256,
            rl == r_levels as int,
            gl == g_levels as int,
            bl == b_levels as int,
            ri <= r_levels,
            palette@.len() == ri * gl * bl,
            forall|r2: int, g2: int, b2: int|
                0 <= r2 < ri && 0 <= g2 < gl && 0 <= b2 < bl
                    ==> palette@[(r2 * gl + g2) * bl + b2] == grid_color(r2, g2, b2, rl, gl, bl),
        decreases r_levels - ri,
    {
        let r_value = (ri * 255 + (r_levels - 1) / 2) / (r_levels - 1);
        proof {
            lemma_grid_level_bound(ri as int, rl);
        }
        let mut gi: usize = 0;
        while gi < g_levels
            invariant
                2 <= r_levels <= 256,
                2 <= g_levels <= 256,
                2 <= b_levels <= 256,
                rl == r_levels as int,
                gl == g_levels as int,
                bl == b_levels as int,
                ri < r_levels,
                gi <= g_levels,
                r_value == grid_level(ri as int, rl),
                0 <= r_value <= 255,
                palette@.len() == (ri * gl + gi) * bl,
                forall|r2: int, g2: int, b2: int|
                    #![trigger palette@[(r2 * gl + g2) * bl + b2]]
                    0 <= r2 < rl && 0 <= g2 < gl && 0 <= b2 < bl
                        && (r2 < ri || (r2 == ri && g2 < gi))
                        ==> palette@[(r2 * gl + g2) * bl + b2]
                            == grid_color(r2, g2, b2, rl, gl, bl),
            decreases g_levels - gi,
        {
            let g_value = (gi * 255 + (g_levels - 1) / 2) / (g_levels - 1);
            proof {
                lemma_grid_level_bound(gi as int, gl);
            }
            let mut bi: usize = 0;
            while bi < b_levels
                invariant
                    2 <= r_levels <= 256,
                    2 <= g_levels <= 256,
                    2 <= b_levels <= 256,
                    rl == r_levels as int,
                    gl == g_levels as int,
                    bl == b_levels as int,
                    ri < r_levels,
                    gi < g_levels,
                    bi <= b_levels,
                    r_value == grid_level(ri as int, rl),
                    0 <= r_value <= 255,
                    g_value == grid_level(gi as int, gl),
                    0 <= g_value <= 255,
                    palette@.len() == (ri * gl + gi) * bl + bi,
                    forall|r2: int, g2: int, b2: int|
                        #![trigger palette@[(r2 * gl + g2) * bl + b2]]
                        0 <= r2 < rl && 0 <= g2 < gl && 0 <= b2 < bl
                            && (r2 < ri || (r2 == ri && g2 < gi) || (r2 == ri && g2 == gi && b2 < bi))
                            ==> palette@[(r2 * gl + g2) * bl + b2]
                                == grid_color(r2, g2, b2, rl, gl, bl),
                decreases b_levels - bi,
            {
                let b_value = (bi * 255 + (b_levels - 1) / 2) / (b_levels - 1);
                proof {
                    lemma_grid_level_bound(bi as int, bl);
                }
                let ghost p0 = palette@;
                palette.push(Srgb8 { r: r_value as u8, g: g_value as u8, b: b_value as u8 });
                proof {
                    assert forall|r2: int, g2: int, b2: int|
                        0 <= r2 < rl && 0 <= g2 < gl && 0 <= b2 < bl
                            && (r2 < ri || (r2 == ri && g2 < gi)
                                || (r2 == ri && g2 == gi && b2 < bi + 1))
                            implies #[trigger] palette@[(r2 * gl + g2) * bl + b2]
                                == grid_color(r2, g2, b2, rl, gl, bl) by {
                        if r2 == ri && g2 == gi && b2 == bi {
                            assert(palette@[(r2 * gl + g2) * bl + b2] == palette@.last());
                        } else {
                            lemma_flat_lt(gl, bl, r2, g2, b2, ri as int, gi as int, bi as int);
                            assert(palette@[(r2 * gl + g2) * bl + b2]
                                == p0[(r2 * gl + g2) * bl + b2]);
                        }
                    }
                }
                bi = bi + 1;
            }
            gi = gi + 1;
            proof {
                assert((ri * gl + gi - 1) * bl + bl == (ri * gl + gi) * bl) by (nonlinear_arith);
            }
        }
        ri = ri + 1;
        proof {
            assert((ri - 1) * gl * bl + gl * bl == ri * gl * bl) by (nonlinear_arith);
            assert(((ri - 1) * gl + gl) * bl == ri * gl * bl) by (nonlinear_arith);
        }
    }
    proof {
        assert forall|idx: int| 0 <= idx < palette@.len()
            implies #[trigger] palette@[idx] == grid_color(
                idx / (gl * bl),
                (idx / bl) % gl,
                idx % bl,
                rl,
                gl,
                bl,
            ) by {
            let bi = idx % bl;
            let q = idx / bl;
            let gi = q % gl;
            let ri2 = q / gl;
            vstd::arithmetic::div_mod::lemma_fundamental_div_mod(idx, bl);
            vstd::arithmetic::div_mod::lemma_mod_bound(idx, bl);
            vstd::arithmetic::div_mod::lemma_fundamental_div_mod(q, gl);
            vstd::arithmetic::div_mod::lemma_mod_bound(q, gl);
            vstd::arithmetic::div_mod::lemma_div_pos_is_pos(idx, bl);
            vstd::arithmetic::div_mod::lemma_div_pos_is_pos(q, gl);
            vstd::arithmetic::div_mod::lemma_div_denominator(idx, bl, gl);
            assert(gl * bl == bl * gl) by (nonlinear_arith);
            assert(ri2 == idx / (gl * bl));
            assert(idx < bl * (gl * rl)) by (nonlinear_arith)
                requires
                    idx < rl * gl * bl,
            ;
            vstd::arithmetic::div_mod::lemma_multiply_divide_lt(idx, bl, gl * rl);
            vstd::arithmetic::div_mod::lemma_multiply_divide_lt(q, gl, rl);
            assert((ri2 * gl + gi) * bl + bi == idx) by (nonlinear_arith)
                requires
                    idx == bl * q + bi,
                    q == gl * ri2 + gi,
            ;
            assert(palette@[(ri2 * gl + gi) * bl + bi] == grid_color(ri2, gi, bi, rl, gl, bl));
        }
    }
    palette
}

} // verus!
