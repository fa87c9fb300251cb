//! The box palette builder: a top-down split of the RGB cube into
//! axis-aligned boxes, whose corners become the palette.
//!
//! The heaviest box (by contained pixels) is split at its longest axis,
//! either at the half range, at the in-box median, or at the gamma-corrected
//! mean of its pixels, until the requested palette size is within reach of
//! the remaining boxes' corners.  An optional shrink step contracts a box
//! face to the pixel extremum when only that box references the face.

use vstd::arithmetic::power::pow;
use vstd::arithmetic::power::lemma_pow_positive;
use vstd::arithmetic::power::lemma_pow_increases;
use vstd::arithmetic::power::lemma_pow_adds;
use vstd::arithmetic::power::lemma_pow1;
use vstd::multiset::Multiset;
use vstd::prelude::*;

use crate::color::Srgb8;
use crate::color::lemma_key_injective;
use crate::hue::lemma_filter_push;
use crate::palettes::Split;
use crate::refs::RefMap;

verus! {

broadcast use vstd::multiset::group_multiset_axioms;

/// Channel `a` of a color: red, green, blue for `a` = 0, 1, 2.
pub open spec fn channel_spec(c: Srgb8, a: int) -> u8 {
    if a == 0 {
        c.r
    } else if a == 1 {
        c.g
    } else {
        c.b
    }
}

/// Channel `axis` of a color.
pub fn channel(c: Srgb8, axis: usize) -> (v: u8)
    requires
        axis < 3,
    ensures
        v == channel_spec(c, axis as int),
{
    if axis == 0 {
        c.r
    } else if axis == 1 {
        c.g
    } else {
        c.b
    }
}

/// Whether a color lies inside the closed box `[lo, hi]`.
pub open spec fn in_box(lo: Seq<u8>, hi: Seq<u8>, c: Srgb8) -> bool {
    &&& lo[0] <= c.r <= hi[0]
    &&& lo[1] <= c.g <= hi[1]
    &&& lo[2] <= c.b <= hi[2]
}

/// Whether a color is a corner of the full RGB cube.
pub open spec fn cube_corner_color(c: Srgb8) -> bool {
    &&& (c.r == 0 || c.r == 255)
    &&& (c.g == 0 || c.g == 255)
    &&& (c.b == 0 || c.b == 255)
}

/// Corner `i` of the box `[lo, hi]`, for `i` counted with red as the
/// highest bit.
pub open spec fn corner_spec(lo: Seq<u8>, hi: Seq<u8>, i: int) -> Srgb8 {
    Srgb8 {
        r: if i / 4 % 2 == 0 { lo[0] } else { hi[0] },
        g: if i / 2 % 2 == 0 { lo[1] } else { hi[1] },
        b: if i % 2 == 0 { lo[2] } else { hi[2] },
    }
}

/// The eight corners of the box `[lo, hi]`, in corner order.
fn corners(lo: &[u8; 3], hi: &[u8; 3]) -> (r: Vec<Srgb8>)
    ensures
        r@.len() == 8,
        forall|i: int| 0 <= i < 8 ==> #[trigger] r@[i] == corner_spec(lo@, hi@, i),
{
    let mut r: Vec<Srgb8> = Vec::new();
    r.push(Srgb8 { r: lo[0], g: lo[1], b: lo[2] });
    r.push(Srgb8 { r: lo[0], g: lo[1], b: hi[2] });
    r.push(Srgb8 { r: lo[0], g: hi[1], b: lo[2] });
    r.push(Srgb8 { r: lo[0], g: hi[1], b: hi[2] });
    r.push(Srgb8 { r: hi[0], g: lo[1], b: lo[2] });
    r.push(Srgb8 { r: hi[0], g: lo[1], b: hi[2] });
    r.push(Srgb8 { r: hi[0], g: hi[1], b: lo[2] });
    r.push(Srgb8 { r: hi[0], g: hi[1], b: hi[2] });
    r
}

/// One box of the builder: closed channel bounds and the pixels binned to
/// it.
struct BoxNode {
    lo: [u8; 3],
    hi: [u8; 3],
    pixels: Vec<Srgb8>,
}

impl BoxNode {
    /// The bounds are ordered and every binned pixel lies inside them.
    spec fn wf(self) -> bool {
        &&& self.lo@[0] <= self.hi@[0]
        &&& self.lo@[1] <= self.hi@[1]
        &&& self.lo@[2] <= self.hi@[2]
        &&& forall|i: int| 0 <= i < self.pixels@.len()
                ==> in_box(self.lo@, self.hi@, #[trigger] self.pixels@[i])
    }
}

/// The array `a` with position `axis` replaced by `v`.
fn set_axis(a: [u8; 3], axis: usize, v: u8) -> (r: [u8; 3])
    requires
        axis < 3,
    ensures
        r@[axis as int] == v,
        forall|t: int| 0 <= t < 3 && t != axis ==> r@[t] == a@[t],
{
    if axis == 0 {
        [v, a[1], a[2]]
    } else if axis == 1 {
        [a[0], v, a[2]]
    } else {
        [a[0], a[1], v]
    }
}

/// One split grows the palette by at most the four colors of the mid
/// plane: every other color of the outcome was already present before the
/// children were registered and the parent released.
#[verifier::rlimit(100)]
proof fn lemma_split_palette_growth(
    s0: RefMap,
    s1: RefMap,
    s2: RefMap,
    s3: RefMap,
    plo: Seq<u8>,
    phi: Seq<u8>,
    axis: int,
    mid: u8,
    lo1: Seq<u8>,
    hi1: Seq<u8>,
    lo2: Seq<u8>,
    hi2: Seq<u8>,
    add1: bool,
    add2: bool,
)
    requires
        s0.wf(),
        s3.wf(),
        0 <= axis < 3,
        lo1 == plo,
        hi2 == phi,
        hi1[axis] == mid,
        forall|t: int| 0 <= t < 3 && t != axis ==> hi1[t] == phi[t],
        lo2[axis] == mid,
        forall|t: int| 0 <= t < 3 && t != axis ==> lo2[t] == plo[t],
        forall|k: u32| #[trigger] s1.count(k) == s0.count(k)
            + if add1 { corner_mult(lo1, hi1, k) } else { 0int },
        forall|k: u32| #[trigger] s2.count(k) == s1.count(k)
            + if add2 { corner_mult(lo2, hi2, k) } else { 0int },
        forall|k: u32| #[trigger] s3.count(k)
            == if s2.count(k) >= corner_mult(plo, phi, k)
                { s2.count(k) - corner_mult(plo, phi, k) } else { 0int },
    ensures
        s3.num_colors() <= s0.num_colors() + 4,
{
    broadcast use vstd::set::group_set_axioms;
    let o0 = if axis == 0 { 1int } else { 0int };
    let o1 = if axis == 2 { 1int } else { 2int };
    let m00 = axis_color_spec(axis, mid, plo[o0], plo[o1]);
    let m01 = axis_color_spec(axis, mid, plo[o0], phi[o1]);
    let m10 = axis_color_spec(axis, mid, phi[o0], plo[o1]);
    let m11 = axis_color_spec(axis, mid, phi[o0], phi[o1]);
    let mids = Set::<u32>::empty()
        .insert(m00.key_spec() as u32)
        .insert(m01.key_spec() as u32)
        .insert(m10.key_spec() as u32)
        .insert(m11.key_spec() as u32);
    assert forall|k: u32| s3.contains(k)
        implies s0.contains(k) || mids.contains(k) by {
        s0.lemma_count_total(k);
        if !mids.contains(k) {
            lemma_split_corner_mults(plo, phi, axis, mid, lo1, hi1, lo2, hi2,
                m00, m01, m10, m11, k);
            lemma_corner_mult_prefix_nonneg(lo1, hi1, k, 8);
            lemma_corner_mult_prefix_nonneg(lo2, hi2, k, 8);
            lemma_corner_mult_prefix_nonneg(plo, phi, k, 8);
            assert(s3.count(k) <= s0.count(k));
        }
    }
    RefMap::lemma_num_colors_bound(s0, s3, mids);
    assert(mids.len() <= 4);
}

/// The color whose channel `axis` is `va` and whose other two channels,
/// in ascending channel order, are `v0` and `v1`.
pub open spec fn axis_color_spec(axis: int, va: u8, v0: u8, v1: u8) -> Srgb8 {
    if axis == 0 {
        Srgb8 { r: va, g: v0, b: v1 }
    } else if axis == 1 {
        Srgb8 { r: v0, g: va, b: v1 }
    } else {
        Srgb8 { r: v0, g: v1, b: va }
    }
}

/// Splitting a box at `mid` along `axis` trades its corners for the two
/// children's: away from the four mid-plane colors, the children's corners
/// carry a color at most as often as the parent's corners do.
#[verifier::rlimit(100)]
proof fn lemma_split_corner_mults(
    plo: Seq<u8>,
    phi: Seq<u8>,
    axis: int,
    mid: u8,
    lo1: Seq<u8>,
    hi1: Seq<u8>,
    lo2: Seq<u8>,
    hi2: Seq<u8>,
    m00: Srgb8,
    m01: Srgb8,
    m10: Srgb8,
    m11: Srgb8,
    k: u32,
)
    requires
        0 <= axis < 3,
        lo1 == plo,
        hi2 == phi,
        hi1[axis] == mid,
        forall|t: int| 0 <= t < 3 && t != axis ==> hi1[t] == phi[t],
        lo2[axis] == mid,
        forall|t: int| 0 <= t < 3 && t != axis ==> lo2[t] == plo[t],
        m00 == axis_color_spec(axis, mid, plo[if axis == 0 { 1int } else { 0int }],
            plo[if axis == 2 { 1int } else { 2int }]),
        m01 == axis_color_spec(axis, mid, plo[if axis == 0 { 1int } else { 0int }],
            phi[if axis == 2 { 1int } else { 2int }]),
        m10 == axis_color_spec(axis, mid, phi[if axis == 0 { 1int } else { 0int }],
            plo[if axis == 2 { 1int } else { 2int }]),
        m11 == axis_color_spec(axis, mid, phi[if axis == 0 { 1int } else { 0int }],
            phi[if axis == 2 { 1int } else { 2int }]),
        k != m00.key_spec(),
        k != m01.key_spec(),
        k != m10.key_spec(),
        k != m11.key_spec(),
    ensures
        corner_mult(lo1, hi1, k) + corner_mult(lo2, hi2, k) <= corner_mult(plo, phi, k),
{
    reveal_with_fuel(corner_mult_prefix, 9);
    if axis == 0 {
        assert((if corner_spec(lo1, hi1, 0).key_spec() == k { 1int } else { 0int }) + (if corner_spec(lo2, hi2, 0).key_spec() == k { 1int } else { 0int }) <= (if corner_spec(plo, phi, 0).key_spec() == k { 1int } else { 0int }));
        assert((if corner_spec(lo1, hi1, 1).key_spec() == k { 1int } else { 0int }) + (if corner_spec(lo2, hi2, 1).key_spec() == k { 1int } else { 0int }) <= (if corner_spec(plo, phi, 1).key_spec() == k { 1int } else { 0int }));
        assert((if corner_spec(lo1, hi1, 2).key_spec() == k { 1int } else { 0int }) + (if corner_spec(lo2, hi2, 2).key_spec() == k { 1int } else { 0int }) <= (if corner_spec(plo, phi, 2).key_spec() == k { 1int } else { 0int }));
        assert((if corner_spec(lo1, hi1, 3).key_spec() == k { 1int } else { 0int }) + (if corner_spec(lo2, hi2, 3).key_spec() == k { 1int } else { 0int }) <= (if corner_spec(plo, phi, 3).key_spec() == k { 1int } else { 0int }));
        assert((if corner_spec(lo1, hi1, 4).key_spec() == k { 1int } else { 0int }) + (if corner_spec(lo2, hi2, 4).key_spec() == k { 1int } else { 0int }) <= (if corner_spec(plo, phi, 4).key_spec() == k { 1int } else { 0int }));
        assert((if corner_spec(lo1, hi1, 5).key_spec() == k { 1int } else { 0int }) + (if corner_spec(lo2, hi2, 5).key_spec() == k { 1int } else { 0int }) <= (if corner_spec(plo, phi, 5).key_spec() == k { 1int } else { 0int }));
        assert((if corner_spec(lo1, hi1, 6).key_spec() == k { 1int } else { 0int }) + (if corner_spec(lo2, hi2, 6).key_spec() == k { 1int } else { 0int }) <= (if corner_spec(plo, phi, 6).key_spec() == k { 1int } else { 0int }));
        assert((if corner_spec(lo1, hi1, 7).key_spec() == k { 1int } else { 0int }) + (if corner_spec(lo2, hi2, 7).key_spec() == k { 1int } else { 0int }) <= (if corner_spec(plo, phi, 7).key_spec() == k { 1int } else { 0int }));
        assert(corner_mult(lo1, hi1, k) + corner_mult(lo2, hi2, k)
            <= corner_mult(plo, phi, k));
    } else if axis == 1 {
        assert((if corner_spec(lo1, hi1, 0).key_spec() == k { 1int } else { 0int }) + (if corner_spec(lo2, hi2, 0).key_spec() == k { 1int } else { 0int }) <= (if corner_spec(plo, phi, 0).key_spec() == k { 1int } else { 0int }));
        assert((if corner_spec(lo1, hi1, 1).key_spec() == k { 1int } else { 0int }) + (if corner_spec(lo2, hi2, 1).key_spec() == k { 1int } else { 0int }) <= (if corner_spec(plo, phi, 1).key_spec() == k { 1int } else { 0int }));
        assert((if corner_spec(lo1, hi1, 2).key_spec() == k { 1int } else { 0int }) + (if corner_spec(lo2, hi2, 2).key_spec() == k { 1int } else { 0int }) <= (if corner_spec(plo, phi, 2).key_spec() == k { 1int } else { 0int }));
        assert((if corner_spec(lo1, hi1, 3).key_spec() == k { 1int } else { 0int }) + (if corner_spec(lo2, hi2, 3).key_spec() == k { 1int } else { 0int }) <= (if corner_spec(plo, phi, 3).key_spec() == k { 1int } else { 0int }));
        assert((if corner_spec(lo1, hi1, 4).key_spec() == k { 1int } else { 0int }) + (if corner_spec(lo2, hi2, 4).key_spec() == k { 1int } else { 0int }) <= (if corner_spec(plo, phi, 4).key_spec() == k { 1int } else { 0int }));
        assert((if corner_spec(lo1, hi1, 5).key_spec() == k { 1int } else { 0int }) + (if corner_spec(lo2, hi2, 5).key_spec() == k { 1int } else { 0int }) <= (if corner_spec(plo, phi, 5).key_spec() == k { 1int } else { 0int }));
        assert((if corner_spec(lo1, hi1, 6).key_spec() == k { 1int } else { 0int }) + (if corner_spec(lo2, hi2, 6).key_spec() == k { 1int } else { 0int }) <= (if corner_spec(plo, phi, 6).key_spec() == k { 1int } else { 0int }));
        assert((if corner_spec(lo1, hi1, 7).key_spec() == k { 1int } else { 0int }) + (if corner_spec(lo2, hi2, 7).key_spec() == k { 1int } else { 0int }) <= (if corner_spec(plo, phi, 7).key_spec() == k { 1int } else { 0int }));
        assert(corner_mult(lo1, hi1, k) + corner_mult(lo2, hi2, k)
            <= corner_mult(plo, phi, k));
    } else {
        assert((if corner_spec(lo1, hi1, 0).key_spec() == k { 1int } else { 0int }) + (if corner_spec(lo2, hi2, 0).key_spec() == k { 1int } else { 0int }) <= (if corner_spec(plo, phi, 0).key_spec() == k { 1int } else { 0int }));
        assert((if corner_spec(lo1, hi1, 1).key_spec() == k { 1int } else { 0int }) + (if corner_spec(lo2, hi2, 1).key_spec() == k { 1int } else { 0int }) <= (if corner_spec(plo, phi, 1).key_spec() == k { 1int } else { 0int }));
        assert((if corner_spec(lo1, hi1, 2).key_spec() == k { 1int } else { 0int }) + (if corner_spec(lo2, hi2, 2).key_spec() == k { 1int } else { 0int }) <= (if corner_spec(plo, phi, 2).key_spec() == k { 1int } else { 0int }));
        assert((if corner_spec(lo1, hi1, 3).key_spec() == k { 1int } else { 0int }) + (if corner_spec(lo2, hi2, 3).key_spec() == k { 1int } else { 0int }) <= (if corner_spec(plo, phi, 3).key_spec() == k { 1int } else { 0int }));
        assert((if corner_spec(lo1, hi1, 4).key_spec() == k { 1int } else { 0int }) + (if corner_spec(lo2, hi2, 4).key_spec() == k { 1int } else { 0int }) <= (if corner_spec(plo, phi, 4).key_spec() == k { 1int } else { 0int }));
        assert((if corner_spec(lo1, hi1, 5).key_spec() == k { 1int } else { 0int }) + (if corner_spec(lo2, hi2, 5).key_spec() == k { 1int } else { 0int }) <= (if corner_spec(plo, phi, 5).key_spec() == k { 1int } else { 0int }));
        assert((if corner_spec(lo1, hi1, 6).key_spec() == k { 1int } else { 0int }) + (if corner_spec(lo2, hi2, 6).key_spec() == k { 1int } else { 0int }) <= (if corner_spec(plo, phi, 6).key_spec() == k { 1int } else { 0int }));
        assert((if corner_spec(lo1, hi1, 7).key_spec() == k { 1int } else { 0int }) + (if corner_spec(lo2, hi2, 7).key_spec() == k { 1int } else { 0int }) <= (if corner_spec(plo, phi, 7).key_spec() == k { 1int } else { 0int }));
        assert(corner_mult(lo1, hi1, k) + corner_mult(lo2, hi2, k)
            <= corner_mult(plo, phi, k));
    }
}

/// The color whose channel `axis` is `va` and whose other two channels,
/// in ascending channel order, are `v0` and `v1`.
fn axis_color(axis: usize, va: u8, v0: u8, v1: u8) -> (r: Srgb8)
    requires
        axis < 3,
    ensures
        channel_spec(r, axis as int) == va,
        axis == 0 ==> r == (Srgb8 { r: va, g: v0, b: v1 }),
        axis == 1 ==> r == (Srgb8 { r: v0, g: va, b: v1 }),
        axis == 2 ==> r == (Srgb8 { r: v0, g: v1, b: va }),
{
    if axis == 0 {
        Srgb8 { r: va, g: v0, b: v1 }
    } else if axis == 1 {
        Srgb8 { r: v0, g: va, b: v1 }
    } else {
        Srgb8 { r: v0, g: v1, b: va }
    }
}

/// The sum of the three channel extents of a box.
spec fn extent_sum(n: BoxNode) -> int {
    (n.hi@[0] - n.lo@[0]) + (n.hi@[1] - n.lo@[1]) + (n.hi@[2] - n.lo@[2])
}

/// The termination weight of one box: splitting a box always replaces it by
/// boxes of strictly smaller extent sum, and at most doubles their number.
spec fn node_weight(n: BoxNode) -> int {
    pow(4, extent_sum(n) as nat)
}

/// The termination measure of the whole worklist.
spec fn measure(s: Seq<BoxNode>) -> int
    decreases s.len(),
{
    if s.len() == 0 {
        0
    } else {
        node_weight(s.last()) + measure(s.drop_last())
    }
}

proof fn lemma_measure_nonneg(s: Seq<BoxNode>)
    ensures
        measure(s) >= 0,
    decreases s.len(),
{
    if s.len() > 0 {
        lemma_pow_positive(4, extent_sum(s.last()) as nat);
        lemma_measure_nonneg(s.drop_last());
    }
}

proof fn lemma_measure_push(s: Seq<BoxNode>, n: BoxNode)
    ensures
        measure(s.push(n)) == measure(s) + node_weight(n),
{
    assert(s.push(n).drop_last() =~= s);
    assert(s.push(n).last() == n);
}

proof fn lemma_measure_update(s: Seq<BoxNode>, i: int, n: BoxNode)
    requires
        0 <= i < s.len(),
    ensures
        measure(s.update(i, n)) == measure(s) - node_weight(s[i]) + node_weight(n),
    decreases s.len(),
{
    if i == s.len() - 1 {
        assert(s.update(i, n).drop_last() =~= s.drop_last());
        assert(s.update(i, n).last() == n);
    } else {
        assert(s.update(i, n).drop_last() =~= s.drop_last().update(i, n));
        assert(s.update(i, n).last() == s.last());
        lemma_measure_update(s.drop_last(), i, n);
    }
}

/// Removing index `i` by a swap with the last element lowers the measure by
/// exactly the removed box's weight.
proof fn lemma_measure_swap_remove(s: Seq<BoxNode>, i: int)
    requires
        0 <= i < s.len(),
    ensures
        measure(s.update(i, s.last()).drop_last()) == measure(s) - node_weight(s[i]),
{
    let t = s.update(i, s.last());
    lemma_measure_update(s, i, s.last());
    assert(t.last() == s.last());
    assert(measure(t.drop_last()) == measure(t) - node_weight(t.last()));
}

/// Shrink-to-fit: moves each box face to the pixel extremum along its axis,
/// but only when this box holds the only reference to all four corners of
/// that face; the guard keeps the move from dropping a corner some other
/// box still references.
#[verifier::rlimit(100)]
fn optimize_box(node: &mut BoxNode, refs: &mut RefMap)
    requires
        old(node).wf(),
        old(refs).wf(),
        old(refs).total() + 24 <= u64::MAX,
    ensures
        final(node).wf(),
        final(refs).wf(),
        final(node).pixels == old(node).pixels,
        forall|a: int| 0 <= a < 3 ==> old(node).lo@[a] <= #[trigger] final(node).lo@[a],
        forall|a: int| 0 <= a < 3 ==> #[trigger] final(node).hi@[a] <= old(node).hi@[a],
        final(refs).total() <= old(refs).total() + 24,
        final(refs).num_colors() <= old(refs).num_colors(),
        old(node).pixels@.len() == 0 ==> *final(node) == *old(node) && *final(refs) == *old(refs),
{
    let mut axis: usize = 0;
    while axis < 3
        invariant
            axis <= 3,
            old(refs).total() + 24 <= u64::MAX,
            node.wf(),
            refs.wf(),
            node.pixels == old(node).pixels,
            old(node).pixels@.len() == 0 ==> *node == *old(node) && *refs == *old(refs),
            forall|a: int| 0 <= a < 3 ==> old(node).lo@[a] <= #[trigger] node.lo@[a],
            forall|a: int| 0 <= a < 3 ==> #[trigger] node.hi@[a] <= old(node).hi@[a],
            refs.total() <= old(refs).total() + 8 * axis,
            refs.num_colors() <= old(refs).num_colors(),
        decreases 3 - axis,
    {
        let (o0, o1): (usize, usize) = if axis == 0 {
            (1, 2)
        } else if axis == 1 {
            (0, 2)
        } else {
            (0, 1)
        };
        let mut side: usize = 0;
        while side < 2
            invariant
                axis < 3,
                side <= 2,
                old(refs).total() + 24 <= u64::MAX,
                old(node).pixels@.len() == 0 ==> *node == *old(node) && *refs == *old(refs),
                o0 < 3,
                o1 < 3,
                o0 == (if axis == 0 { 1int } else { 0int }),
                o1 == (if axis == 2 { 1int } else { 2int }),
                node.wf(),
                refs.wf(),
                node.pixels == old(node).pixels,
                forall|a: int| 0 <= a < 3 ==> old(node).lo@[a] <= #[trigger] node.lo@[a],
                forall|a: int| 0 <= a < 3 ==> #[trigger] node.hi@[a] <= old(node).hi@[a],
                refs.total() <= old(refs).total() + 8 * axis + 4 * side,
                refs.num_colors() <= old(refs).num_colors(),
            decreases 2 - side,
        {
            let fixed = if side == 0 { node.lo[axis] } else { node.hi[axis] };
            // The four corners of this face, by the two free sides.
            let c00 = axis_color(axis, fixed, node.lo[o0], node.lo[o1]);
            let c01 = axis_color(axis, fixed, node.lo[o0], node.hi[o1]);
            let c10 = axis_color(axis, fixed, node.hi[o0], node.lo[o1]);
            let c11 = axis_color(axis, fixed, node.hi[o0], node.hi[o1]);
            let sole = refs.count_of(c00.key()) == 1 && refs.count_of(c01.key()) == 1
                && refs.count_of(c10.key()) == 1 && refs.count_of(c11.key()) == 1;
            if sole {
                let furthest = if side == 0 {
                    min_channel(&node.pixels, axis, fixed)
                } else {
                    max_channel(&node.pixels, axis, fixed)
                };
                if furthest != fixed {
                    if side == 0 {
                        node.lo = set_axis(node.lo, axis, furthest);
                    } else {
                        node.hi = set_axis(node.hi, axis, furthest);
                    }
                    let n00 = axis_color(axis, furthest, node.lo[o0], node.lo[o1]);
                    let n01 = axis_color(axis, furthest, node.lo[o0], node.hi[o1]);
                    let n10 = axis_color(axis, furthest, node.hi[o0], node.lo[o1]);
                    let n11 = axis_color(axis, furthest, node.hi[o0], node.hi[o1]);
                    let ghost l0 = refs.num_colors();
                    let ghost rs = *refs;
                    proof {
                        // The axis channel separates the old corners from
                        // their replacements, and two old corners coincide
                        // exactly when their replacements do: each fresh
                        // replacement is matched by a removed corner, so
                        // moving a face never grows the palette.
                        lemma_key_injective(c00, n00);
                        lemma_key_injective(c00, n01);
                        lemma_key_injective(c00, n10);
                        lemma_key_injective(c00, n11);
                        lemma_key_injective(c01, n00);
                        lemma_key_injective(c01, n01);
                        lemma_key_injective(c01, n10);
                        lemma_key_injective(c01, n11);
                        lemma_key_injective(c10, n00);
                        lemma_key_injective(c10, n01);
                        lemma_key_injective(c10, n10);
                        lemma_key_injective(c10, n11);
                        lemma_key_injective(c11, n00);
                        lemma_key_injective(c11, n01);
                        lemma_key_injective(c11, n10);
                        lemma_key_injective(c11, n11);
                        lemma_key_injective(c00, c01);
                        lemma_key_injective(c00, c10);
                        lemma_key_injective(c00, c11);
                        lemma_key_injective(c01, c10);
                        lemma_key_injective(c01, c11);
                        lemma_key_injective(c10, c11);
                        assert(c00.key_spec() == c01.key_spec()
                            ==> n00.key_spec() == n01.key_spec());
                        assert(c00.key_spec() == c10.key_spec()
                            ==> n00.key_spec() == n10.key_spec());
                        assert(c00.key_spec() == c11.key_spec()
                            ==> n00.key_spec() == n11.key_spec());
                        assert(c01.key_spec() == c10.key_spec()
                            ==> n01.key_spec() == n10.key_spec());
                        assert(c01.key_spec() == c11.key_spec()
                            ==> n01.key_spec() == n11.key_spec());
                        assert(c10.key_spec() == c11.key_spec()
                            ==> n10.key_spec() == n11.key_spec());
                        rs.lemma_count_total(n00.key_spec() as u32);
                        rs.lemma_count_total(n01.key_spec() as u32);
                        rs.lemma_count_total(n10.key_spec() as u32);
                        rs.lemma_count_total(n11.key_spec() as u32);
                    }
                    refs.remove_key(c00.key());
                    refs.incr(n00.key());
                    proof {
                        assert(refs.num_colors() <= l0);
                    }
                    refs.remove_key(c01.key());
                    refs.incr(n01.key());
                    proof {
                        assert(refs.num_colors() <= l0);
                    }
                    refs.remove_key(c10.key());
                    refs.incr(n10.key());
                    proof {
                        assert(refs.num_colors() <= l0);
                    }
                    refs.remove_key(c11.key());
                    refs.incr(n11.key());
                    proof {
                        assert(refs.num_colors() <= l0);
                    }
                }
            }
            side = side + 1;
        }
        axis = axis + 1;
    }
}

/// The multiset of all pixels held across a sequence of buckets.
spec fn buckets_multiset(bs: Seq<Vec<Srgb8>>) -> Multiset<Srgb8>
    decreases bs.len(),
{
    if bs.len() == 0 {
        Multiset::empty()
    } else {
        buckets_multiset(bs.drop_last()).add(bs.last()@.to_multiset())
    }
}

proof fn lemma_buckets_multiset_empty(bs: Seq<Vec<Srgb8>>)
    requires
        forall|j: int| 0 <= j < bs.len() ==> (#[trigger] bs[j])@.len() == 0,
    ensures
        buckets_multiset(bs) == Multiset::<Srgb8>::empty(),
    decreases bs.len(),
{
    if bs.len() > 0 {
        lemma_buckets_multiset_empty(bs.drop_last());
        bs.last()@.to_multiset_ensures();
        assert forall|a: Srgb8| bs.last()@.to_multiset().count(a) == 0 by {
            if bs.last()@.to_multiset().count(a) > 0 {
                assert(bs.last()@.contains(a));
            }
        }
        assert(buckets_multiset(bs) =~= Multiset::<Srgb8>::empty());
    }
}

/// Replacing one bucket changes the combined multiset by the difference of
/// that bucket's contents.
proof fn lemma_buckets_multiset_update(bs: Seq<Vec<Srgb8>>, i: int, v: Vec<Srgb8>)
    requires
        0 <= i < bs.len(),
    ensures
        buckets_multiset(bs.update(i, v)).add(bs[i]@.to_multiset())
            == buckets_multiset(bs).add(v@.to_multiset()),
    decreases bs.len(),
{
    let up = bs.update(i, v);
    if i == bs.len() - 1 {
        assert(up.drop_last() =~= bs.drop_last());
        assert(up.last() == v);
        assert(buckets_multiset(up) == buckets_multiset(bs.drop_last()).add(v@.to_multiset()));
        assert(buckets_multiset(bs)
            == buckets_multiset(bs.drop_last()).add(bs[i]@.to_multiset()));
        assert forall|a: Srgb8| buckets_multiset(up).add(bs[i]@.to_multiset()).count(a)
            == buckets_multiset(bs).add(v@.to_multiset()).count(a) by {
            assert(buckets_multiset(up).count(a)
                == buckets_multiset(bs.drop_last()).count(a) + v@.to_multiset().count(a));
            assert(buckets_multiset(bs).count(a)
                == buckets_multiset(bs.drop_last()).count(a) + bs[i]@.to_multiset().count(a));
        }
        assert(buckets_multiset(up).add(bs[i]@.to_multiset())
            =~= buckets_multiset(bs).add(v@.to_multiset()));
    } else {
        let dl = bs.drop_last();
        assert(up.drop_last() =~= dl.update(i, v));
        assert(up.last() == bs.last());
        lemma_buckets_multiset_update(dl, i, v);
        assert(buckets_multiset(up)
            == buckets_multiset(dl.update(i, v)).add(bs.last()@.to_multiset()));
        assert(buckets_multiset(bs) == buckets_multiset(dl).add(bs.last()@.to_multiset()));
        assert(dl[i] == bs[i]);
        assert forall|a: Srgb8| buckets_multiset(up).add(bs[i]@.to_multiset()).count(a)
            == buckets_multiset(bs).add(v@.to_multiset()).count(a) by {
            assert(buckets_multiset(dl.update(i, v)).add(dl[i]@.to_multiset()).count(a)
                == buckets_multiset(dl).add(v@.to_multiset()).count(a));
            assert(buckets_multiset(dl.update(i, v)).count(a) + dl[i]@.to_multiset().count(a)
                == buckets_multiset(dl).count(a) + v@.to_multiset().count(a));
        }
        assert(buckets_multiset(up).add(bs[i]@.to_multiset())
            =~= buckets_multiset(bs).add(v@.to_multiset()));
    }
}

/// Sorts pixels by one channel, stably, by spreading them over one bucket
/// per channel value: the result is a reordering of the input,
/// non-decreasing in that channel.
fn sort_by_channel(pixels: &Vec<Srgb8>, axis: usize) -> (r: Vec<Srgb8>)
    requires
        axis < 3,
    ensures
        r@.to_multiset() == pixels@.to_multiset(),
        r@.len() == pixels@.len(),
        forall|i: int, j: int| #![trigger r@[i], r@[j]] 0 <= i <= j < r@.len()
            ==> channel_spec(r@[i], axis as int) <= channel_spec(r@[j], axis as int),
{
    let mut buckets: Vec<Vec<Srgb8>> = Vec::new();
    let mut b: usize = 0;
    while b < 256
        invariant
            b <= 256,
            buckets@.len() == b,
            forall|j: int| 0 <= j < b ==> (#[trigger] buckets@[j])@.len() == 0,
        decreases 256 - b,
    {
        buckets.push(Vec::new());
        b = b + 1;
    }
    proof {
        lemma_buckets_multiset_empty(buckets@);
        assert(pixels@.take(0) =~= Seq::<Srgb8>::empty());
        pixels@.take(0).to_multiset_ensures();
        assert forall|a: Srgb8| pixels@.take(0).to_multiset().count(a) == 0 by {
            if pixels@.take(0).to_multiset().count(a) > 0 {
                assert(pixels@.take(0).contains(a));
            }
        }
        assert(buckets_multiset(buckets@) =~= pixels@.take(0).to_multiset());
    }
    let n = pixels.len();
    let mut i: usize = 0;
    while i < n
        invariant
            axis < 3,
            i <= n,
            n == pixels@.len(),
            buckets@.len() == 256,
            forall|j: int, t: int| #![trigger buckets@[j]@[t]]
                0 <= j < 256 && 0 <= t < buckets@[j]@.len()
                    ==> channel_spec(buckets@[j]@[t], axis as int) == j,
            buckets_multiset(buckets@) == pixels@.take(i as int).to_multiset(),
        decreases n - i,
    {
        let p = pixels[i];
        let ch = channel(p, axis) as usize;
        let ghost bs0 = buckets@;
        buckets[ch].push(p);
        proof {
            assert(buckets@ =~= bs0.update(ch as int, buckets@[ch as int]));
            lemma_buckets_multiset_update(bs0, ch as int, buckets@[ch as int]);
            bs0[ch as int]@.to_multiset_ensures();
            pixels@.take(i as int).to_multiset_ensures();
            assert(pixels@.take(i + 1) =~= pixels@.take(i as int).push(p));
            assert(buckets@[ch as int]@ == bs0[ch as int]@.push(p));
            assert(buckets@[ch as int]@.to_multiset()
                == bs0[ch as int]@.to_multiset().insert(p));
            assert(pixels@.take(i + 1).to_multiset()
                == pixels@.take(i as int).to_multiset().insert(p));
            assert forall|a: Srgb8| buckets_multiset(buckets@).count(a)
                == pixels@.take(i + 1).to_multiset().count(a) by {
                assert(buckets_multiset(buckets@).add(bs0[ch as int]@.to_multiset()).count(a)
                    == buckets_multiset(bs0).add(buckets@[ch as int]@.to_multiset()).count(a));
                assert(buckets_multiset(buckets@).count(a)
                    + bs0[ch as int]@.to_multiset().count(a)
                    == buckets_multiset(bs0).count(a)
                    + bs0[ch as int]@.to_multiset().insert(p).count(a));
            }
            assert(buckets_multiset(buckets@) =~= pixels@.take(i + 1).to_multiset());
        }
        i = i + 1;
    }
    proof {
        assert(pixels@.take(n as int) =~= pixels@);
        assert(buckets@.take(0) =~= Seq::<Vec<Srgb8>>::empty());
    }
    // Concatenate the buckets in channel order.
    let mut r: Vec<Srgb8> = Vec::new();
    let mut j: usize = 0;
    while j < 256
        invariant
            axis < 3,
            j <= 256,
            buckets@.len() == 256,
            forall|j2: int, t: int| #![trigger buckets@[j2]@[t]]
                0 <= j2 < 256 && 0 <= t < buckets@[j2]@.len()
                    ==> channel_spec(buckets@[j2]@[t], axis as int) == j2,
            buckets_multiset(buckets@) == pixels@.to_multiset(),
            r@.to_multiset() == buckets_multiset(buckets@.take(j as int)),
            forall|t: int| 0 <= t < r@.len()
                ==> channel_spec(#[trigger] r@[t], axis as int) < j,
            forall|t1: int, t2: int| #![trigger r@[t1], r@[t2]] 0 <= t1 <= t2 < r@.len()
                ==> channel_spec(r@[t1], axis as int) <= channel_spec(r@[t2], axis as int),
        decreases 256 - j,
    {
        let bl = buckets[j].len();
        let mut t: usize = 0;
        proof {
            assert(buckets@[j as int]@.take(0) =~= Seq::<Srgb8>::empty());
            buckets@[j as int]@.take(0).to_multiset_ensures();
            assert forall|a: Srgb8| buckets@[j as int]@.take(0).to_multiset().count(a) == 0 by {
                if buckets@[j as int]@.take(0).to_multiset().count(a) > 0 {
                    assert(buckets@[j as int]@.take(0).contains(a));
                }
            }
            assert(r@.to_multiset() =~= buckets_multiset(buckets@.take(j as int))
                .add(buckets@[j as int]@.take(0).to_multiset()));
        }
        while t < bl
            invariant
                axis < 3,
                j < 256,
                t <= bl,
                buckets@.len() == 256,
                bl == buckets@[j as int]@.len(),
                forall|j2: int, t2: int| #![trigger buckets@[j2]@[t2]]
                    0 <= j2 < 256 && 0 <= t2 < buckets@[j2]@.len()
                        ==> channel_spec(buckets@[j2]@[t2], axis as int) == j2,
                r@.to_multiset() == buckets_multiset(buckets@.take(j as int))
                    .add(buckets@[j as int]@.take(t as int).to_multiset()),
                forall|u: int| 0 <= u < r@.len()
                    ==> channel_spec(#[trigger] r@[u], axis as int) <= j,
                forall|t1: int, t2: int| #![trigger r@[t1], r@[t2]] 0 <= t1 <= t2 < r@.len()
                    ==> channel_spec(r@[t1], axis as int) <= channel_spec(r@[t2], axis as int),
            decreases bl - t,
        {
            let p = buckets[j][t];
            let ghost r0 = r@;
            r.push(p);
            proof {
                r0.to_multiset_ensures();
                buckets@[j as int]@.take(t as int).to_multiset_ensures();
                assert(buckets@[j as int]@.take(t + 1)
                    =~= buckets@[j as int]@.take(t as int).push(p));
                assert(r@.to_multiset() =~= buckets_multiset(buckets@.take(j as int))
                    .add(buckets@[j as int]@.take(t + 1).to_multiset()));
            }
            t = t + 1;
        }
        proof {
            assert(buckets@[j as int]@.take(bl as int) =~= buckets@[j as int]@);
            assert(buckets@.take(j + 1).drop_last() =~= buckets@.take(j as int));
            assert(buckets@.take(j + 1).last() == buckets@[j as int]);
            assert(r@.to_multiset() =~= buckets_multiset(buckets@.take(j + 1)));
        }
        j = j + 1;
    }
    proof {
        assert(buckets@.take(256) =~= buckets@);
        r@.to_multiset_ensures();
        pixels@.to_multiset_ensures();
    }
    r
}

/// Keeps exactly the pixels inside the closed box `[lo, hi]`, in order.
fn filter_in_box(pixels: &Vec<Srgb8>, lo: &[u8; 3], hi: &[u8; 3]) -> (r: Vec<Srgb8>)
    ensures
        r@ == pixels@.filter(|c: Srgb8| in_box(lo@, hi@, c)),
{
    let ghost pred = |c: Srgb8| in_box(lo@, hi@, c);
    let mut r: Vec<Srgb8> = Vec::new();
    proof {
        reveal(Seq::filter);
        assert(pixels@.take(0) =~= Seq::<Srgb8>::empty());
    }
    let n = pixels.len();
    let mut i: usize = 0;
    while i < n
        invariant
            i <= n,
            n == pixels@.len(),
            r@ == pixels@.take(i as int).filter(|c: Srgb8| in_box(lo@, hi@, c)),
        decreases n - i,
    {
        let c = pixels[i];
        proof {
            assert(pixels@.take(i + 1) =~= pixels@.take(i as int).push(c));
            lemma_filter_push(pixels@.take(i as int), |c2: Srgb8| in_box(lo@, hi@, c2), c);
        }
        if lo[0] <= c.r && c.r <= hi[0] && lo[1] <= c.g && c.g <= hi[1]
            && lo[2] <= c.b && c.b <= hi[2] {
            r.push(c);
        }
        i = i + 1;
    }
    proof {
        assert(pixels@.take(n as int) =~= pixels@);
    }
    r
}

/// Whether any pixel differs from `mid` in channel `axis`.
fn any_channel_ne(pixels: &Vec<Srgb8>, axis: usize, mid: u8) -> (r: bool)
    requires
        axis < 3,
    ensures
        r == exists|i: int| 0 <= i < pixels@.len()
            && channel_spec(#[trigger] pixels@[i], axis as int) != mid,
{
    let n = pixels.len();
    let mut i: usize = 0;
    while i < n
        invariant
            axis < 3,
            i <= n,
            n == pixels@.len(),
            forall|t: int| 0 <= t < i
                ==> channel_spec(#[trigger] pixels@[t], axis as int) == mid,
        decreases n - i,
    {
        if channel(pixels[i], axis) != mid {
            return true;
        }
        i = i + 1;
    }
    false
}

/// The smallest channel `axis` value among the pixels, or `default` when
/// there are none.
fn min_channel(pixels: &Vec<Srgb8>, axis: usize, default: u8) -> (r: u8)
    requires
        axis < 3,
    ensures
        pixels@.len() == 0 ==> r == default,
        pixels@.len() > 0 ==> {
            &&& forall|i: int| 0 <= i < pixels@.len()
                ==> r <= channel_spec(#[trigger] pixels@[i], axis as int)
            &&& exists|i: int| 0 <= i < pixels@.len()
                && r == channel_spec(#[trigger] pixels@[i], axis as int)
        },
{
    let n = pixels.len();
    if n == 0 {
        return default;
    }
    let mut r = channel(pixels[0], axis);
    let mut i: usize = 1;
    while i < n
        invariant
            axis < 3,
            1 <= i <= n,
            n == pixels@.len(),
            forall|t: int| 0 <= t < i ==> r <= channel_spec(#[trigger] pixels@[t], axis as int),
            exists|t: int| 0 <= t < i && r == channel_spec(#[trigger] pixels@[t], axis as int),
        decreases n - i,
    {
        let v = channel(pixels[i], axis);
        if v < r {
            r = v;
        }
        i = i + 1;
    }
    r
}

/// The in-box median split value: the channel value of the middle pixel
/// outside the runs of pixels sitting on the box's two faces, or the half
/// range when every pixel sits on a face.  Always strictly inside the box.
fn split_value_median(pixels: &Vec<Srgb8>, axis: usize, lo_v: u8, hi_v: u8) -> (m: u8)
    requires
        axis < 3,
        lo_v + 2 <= hi_v,
        forall|i: int, j: int| #![trigger pixels@[i], pixels@[j]] 0 <= i <= j < pixels@.len()
            ==> channel_spec(pixels@[i], axis as int) <= channel_spec(pixels@[j], axis as int),
        forall|i: int| 0 <= i < pixels@.len()
            ==> lo_v <= channel_spec(#[trigger] pixels@[i], axis as int) <= hi_v,
    ensures
        lo_v < m < hi_v,
{
    let n = pixels.len();
    let mut small: usize = 0;
    while small < n && channel(pixels[small], axis) == lo_v
        invariant
            axis < 3,
            small <= n,
            n == pixels@.len(),
            forall|t: int| 0 <= t < small
                ==> channel_spec(#[trigger] pixels@[t], axis as int) == lo_v,
        decreases n - small,
    {
        small = small + 1;
    }
    let mut large: usize = 0;
    while large < n - small && channel(pixels[n - 1 - large], axis) == hi_v
        invariant
            axis < 3,
            small <= n,
            large <= n - small,
            n == pixels@.len(),
            forall|t: int| n - large <= t < n
                ==> channel_spec(#[trigger] pixels@[t], axis as int) == hi_v,
        decreases n - small - large,
    {
        large = large + 1;
    }
    if small + large == n {
        lo_v + (hi_v - lo_v) / 2
    } else {
        let idx = small + (n - small - large) / 2;
        let m = channel(pixels[idx], axis);
        proof {
            assert(channel_spec(pixels@[small as int], axis as int) != lo_v);
            assert(channel_spec(pixels@[n as int - 1 - large as int], axis as int) != hi_v);
            assert(channel_spec(pixels@[small as int], axis as int)
                <= channel_spec(pixels@[idx as int], axis as int));
            assert(channel_spec(pixels@[idx as int], axis as int)
                <= channel_spec(pixels@[n as int - 1 - large as int], axis as int));
        }
        m
    }
}

/// The channel `axis` values of the pixels, in order.
fn channel_values(pixels: &Vec<Srgb8>, axis: usize) -> (r: Vec<u8>)
    requires
        axis < 3,
    ensures
        r@.len() == pixels@.len(),
        forall|i: int| 0 <= i < r@.len()
            ==> r@[i] == channel_spec(#[trigger] pixels@[i], axis as int),
{
    let n = pixels.len();
    let mut r: Vec<u8> = Vec::new();
    let mut i: usize = 0;
    while i < n
        invariant
            axis < 3,
            i <= n,
            n == pixels@.len(),
            r@.len() == i,
            forall|t: int| 0 <= t < i
                ==> r@[t] == channel_spec(#[trigger] pixels@[t], axis as int),
        decreases n - i,
    {
        r.push(channel(pixels[i], axis));
        i = i + 1;
    }
    r
}

/// The largest channel `axis` value among the pixels, or `default` when
/// there are none.
fn max_channel(pixels: &Vec<Srgb8>, axis: usize, default: u8) -> (r: u8)
    requires
        axis < 3,
    ensures
        pixels@.len() == 0 ==> r == default,
        pixels@.len() > 0 ==> {
            &&& forall|i: int| 0 <= i < pixels@.len()
                ==> r >= channel_spec(#[trigger] pixels@[i], axis as int)
            &&& exists|i: int| 0 <= i < pixels@.len()
                && r == channel_spec(#[trigger] pixels@[i], axis as int)
        },
{
    let n = pixels.len();
    if n == 0 {
        return default;
    }
    let mut r = channel(pixels[0], axis);
    let mut i: usize = 1;
    while i < n
        invariant
            axis < 3,
            1 <= i <= n,
            n == pixels@.len(),
            forall|t: int| 0 <= t < i ==> r >= channel_spec(#[trigger] pixels@[t], axis as int),
            exists|t: int| 0 <= t < i && r == channel_spec(#[trigger] pixels@[t], axis as int),
        decreases n - i,
    {
        let v = channel(pixels[i], axis);
        if v > r {
            r = v;
        }
        i = i + 1;
    }
    r
}

/// The weight of the box `[lo, hi]` for the termination measure.
spec fn box_weight(lo: Seq<u8>, hi: Seq<u8>) -> int {
    pow(4, ((hi[0] - lo[0]) + (hi[1] - lo[1]) + (hi[2] - lo[2])) as nat)
}

/// Removes and returns a box with the largest pixel count.
fn pop_heaviest(nodes: &mut Vec<BoxNode>) -> (n: BoxNode)
    requires
        old(nodes)@.len() > 0,
        forall|i: int| 0 <= i < old(nodes)@.len() ==> (#[trigger] old(nodes)@[i]).wf(),
    ensures
        n.wf(),
        final(nodes)@.len() == old(nodes)@.len() - 1,
        forall|i: int| 0 <= i < final(nodes)@.len() ==> (#[trigger] final(nodes)@[i]).wf(),
        measure(final(nodes)@) == measure(old(nodes)@) - node_weight(n),
        forall|i: int| 0 <= i < final(nodes)@.len()
            ==> (#[trigger] final(nodes)@[i]).pixels@.len() <= n.pixels@.len(),
        old(nodes)@.len() == 1 ==> n == old(nodes)@[0],
{
    let len = nodes.len();
    let mut best: usize = 0;
    let mut j: usize = 1;
    while j < len
        invariant
            best < len,
            j <= len,
            len == nodes@.len(),
            forall|t: int| 0 <= t < j ==> (#[trigger] nodes@[t]).pixels@.len()
                <= nodes@[best as int].pixels@.len(),
        decreases len - j,
    {
        if nodes[j].pixels.len() > nodes[best].pixels.len() {
            best = j;
        }
        j = j + 1;
    }
    let ghost s0 = nodes@;
    let n = nodes.swap_remove(best);
    proof {
        lemma_measure_swap_remove(s0, best as int);
        assert forall|i: int| 0 <= i < final(nodes)@.len()
            implies (#[trigger] final(nodes)@[i]).wf()
                && final(nodes)@[i].pixels@.len() <= n.pixels@.len() by {
            assert(final(nodes)@[i] == if i == best as int { s0.last() } else { s0[i] });
        }
    }
    n
}

/// If the candidate child box holds a pixel off the split plane, registers
/// its eight corners and queues it; otherwise drops it.
fn push_child(
    nodes: &mut Vec<BoxNode>,
    refs: &mut RefMap,
    lo: [u8; 3],
    hi: [u8; 3],
    pixels: Vec<Srgb8>,
    axis: usize,
    mid: u8,
) -> (pushed: bool)
    requires
        axis < 3,
        old(refs).wf(),
        old(refs).total() + 8 <= u64::MAX,
        forall|i: int| 0 <= i < old(nodes)@.len() ==> (#[trigger] old(nodes)@[i]).wf(),
        lo@[0] <= hi@[0],
        lo@[1] <= hi@[1],
        lo@[2] <= hi@[2],
        forall|i: int| 0 <= i < pixels@.len() ==> in_box(lo@, hi@, #[trigger] pixels@[i]),
    ensures
        final(refs).wf(),
        final(refs).total() <= old(refs).total() + 8,
        final(refs).num_colors() <= old(refs).num_colors() + 8,
        forall|i: int| 0 <= i < final(nodes)@.len() ==> (#[trigger] final(nodes)@[i]).wf(),
        old(nodes)@.len() <= final(nodes)@.len() <= old(nodes)@.len() + 1,
        measure(final(nodes)@) <= measure(old(nodes)@) + box_weight(lo@, hi@),
        pushed == exists|i: int| 0 <= i < pixels@.len()
            && channel_spec(#[trigger] pixels@[i], axis as int) != mid,
        forall|k: u32| final(refs).count(k) == old(refs).count(k)
            + if pushed { corner_mult(lo@, hi@, k) } else { 0int },
        !pushed ==> *final(nodes) == *old(nodes) && *final(refs) == *old(refs),
        pixels@.len() == 0 ==> *final(nodes) == *old(nodes) && *final(refs) == *old(refs),
{
    proof {
        lemma_pow_positive(4, ((hi@[0] - lo@[0]) + (hi@[1] - lo@[1]) + (hi@[2] - lo@[2])) as nat);
    }
    if any_channel_ne(&pixels, axis, mid) {
        let cs = corners(&lo, &hi);
        proof {
            assert forall|k: u32| refs.count(k)
                == old(refs).count(k) + corner_mult_prefix(lo@, hi@, k, 0) by {}
        }
        let mut i: usize = 0;
        while i < 8
            invariant
                i <= 8,
                refs.wf(),
                refs.total() <= old(refs).total() + i,
                refs.num_colors() <= old(refs).num_colors() + i,
                old(refs).total() + 8 <= u64::MAX,
                cs@.len() == 8,
                forall|j: int| 0 <= j < 8 ==> #[trigger] cs@[j] == corner_spec(lo@, hi@, j),
                forall|k: u32| refs.count(k)
                    == old(refs).count(k) + corner_mult_prefix(lo@, hi@, k, i as int),
            decreases 8 - i,
        {
            refs.incr(cs[i].key());
            proof {
                assert forall|k2: u32| refs.count(k2)
                    == old(refs).count(k2) + corner_mult_prefix(lo@, hi@, k2, i + 1) by {
                    if k2 == cs@[i as int].key_spec() as u32 {
                        assert(corner_mult_prefix(lo@, hi@, k2, i + 1)
                            == corner_mult_prefix(lo@, hi@, k2, i as int) + 1);
                    } else {
                        assert(corner_mult_prefix(lo@, hi@, k2, i + 1)
                            == corner_mult_prefix(lo@, hi@, k2, i as int));
                    }
                }
            }
            i = i + 1;
        }
        let ghost s0 = nodes@;
        let node = BoxNode { lo, hi, pixels };
        nodes.push(node);
        proof {
            lemma_measure_push(s0, node);
        }
        true
    } else {
        proof {
            assert forall|k: u32| final(refs).count(k) == old(refs).count(k) + 0int by {}
        }
        false
    }
}

/// Pixels that form the same multiset lie in the same boxes.
proof fn lemma_multiset_in_box(a: Seq<Srgb8>, b: Seq<Srgb8>, lo: Seq<u8>, hi: Seq<u8>)
    requires
        a.to_multiset() == b.to_multiset(),
        forall|i: int| 0 <= i < a.len() ==> in_box(lo, hi, #[trigger] a[i]),
    ensures
        forall|i: int| 0 <= i < b.len() ==> in_box(lo, hi, #[trigger] b[i]),
{
    a.to_multiset_ensures();
    b.to_multiset_ensures();
    assert forall|i: int| 0 <= i < b.len() implies in_box(lo, hi, #[trigger] b[i]) by {
        assert(b.contains(b[i]));
        assert(b.to_multiset().count(b[i]) > 0);
        assert(a.contains(b[i]));
        let j = choose|j: int| 0 <= j < a.len() && a[j] == b[i];
        assert(in_box(lo, hi, a[j]));
    }
}

/// Splits a box at `mid` along `axis`: bins its pixels into the two child
/// boxes, queues each child that holds a pixel off the split plane, and
/// releases the parent's corner references.  The palette gains at most the
/// four colors of the mid plane, and the queued children together weigh
/// strictly less than the split box.
#[verifier::rlimit(100)]
fn split_step(
    nodes: &mut Vec<BoxNode>,
    refs: &mut RefMap,
    node: BoxNode,
    axis: usize,
    mid: u8,
)
    requires
        axis < 3,
        node.wf(),
        node.lo@[axis as int] < mid < node.hi@[axis as int],
        old(refs).wf(),
        old(refs).total() + 16 <= u64::MAX,
        forall|i: int| 0 <= i < old(nodes)@.len() ==> (#[trigger] old(nodes)@[i]).wf(),
    ensures
        final(refs).wf(),
        forall|i: int| 0 <= i < final(nodes)@.len() ==> (#[trigger] final(nodes)@[i]).wf(),
        final(refs).total() <= old(refs).total() + 16,
        final(refs).num_colors() <= old(refs).num_colors() + 4,
        old(nodes)@.len() <= final(nodes)@.len() <= old(nodes)@.len() + 2,
        measure(final(nodes)@) < measure(old(nodes)@) + node_weight(node),
        node.pixels@.len() == 0 ==> *final(nodes) == *old(nodes)
            && forall|k: u32| final(refs).count(k)
                == if old(refs).count(k) >= corner_mult(node.lo@, node.hi@, k)
                    { old(refs).count(k) - corner_mult(node.lo@, node.hi@, k) } else { 0int },
{
    let ghost s_node = extent_sum(node);
    let lo1 = node.lo;
    let hi1 = set_axis(node.hi, axis, mid);
    let lo2 = set_axis(node.lo, axis, mid);
    let hi2 = node.hi;
    let pix1 = filter_in_box(&node.pixels, &lo1, &hi1);
    let pix2 = filter_in_box(&node.pixels, &lo2, &hi2);
    proof {
        assert forall|i: int| 0 <= i < pix1@.len()
            implies in_box(lo1@, hi1@, #[trigger] pix1@[i]) by {
            node.pixels@.lemma_filter_pred(|c: Srgb8| in_box(lo1@, hi1@, c), i);
        }
        assert forall|i: int| 0 <= i < pix2@.len()
            implies in_box(lo2@, hi2@, #[trigger] pix2@[i]) by {
            node.pixels@.lemma_filter_pred(|c: Srgb8| in_box(lo2@, hi2@, c), i);
        }
        if node.pixels@.len() == 0 {
            reveal(Seq::filter);
            assert(node.pixels@ =~= Seq::<Srgb8>::empty());
            assert(pix1@.len() == 0);
            assert(pix2@.len() == 0);
        }
    }
    let pushed1 = push_child(nodes, refs, lo1, hi1, pix1, axis, mid);
    let ghost refs_c1 = *refs;
    let pushed2 = push_child(nodes, refs, lo2, hi2, pix2, axis, mid);
    let ghost refs_c2 = *refs;
    release_corners(refs, &node.lo, &node.hi);
    proof {
        // A split trades the parent's corners for the children's: away from
        // the four mid-plane colors, every child corner is a parent corner
        // and the release pays for it, so the split adds at most the four
        // colors of the mid plane.
        lemma_split_palette_growth(*old(refs), refs_c1, refs_c2, *refs, node.lo@,
            node.hi@, axis as int, mid, lo1@, hi1@, lo2@, hi2@, pushed1, pushed2);
        let half = pow(4, (s_node - 1) as nat);
        lemma_pow_positive(4, (s_node - 1) as nat);
        assert((hi1@[0] - lo1@[0]) + (hi1@[1] - lo1@[1]) + (hi1@[2] - lo1@[2])
            <= s_node - 1);
        assert((hi2@[0] - lo2@[0]) + (hi2@[1] - lo2@[1]) + (hi2@[2] - lo2@[2])
            <= s_node - 1);
        lemma_pow_increases(
            4,
            ((hi1@[0] - lo1@[0]) + (hi1@[1] - lo1@[1]) + (hi1@[2] - lo1@[2])) as nat,
            (s_node - 1) as nat,
        );
        lemma_pow_increases(
            4,
            ((hi2@[0] - lo2@[0]) + (hi2@[1] - lo2@[1]) + (hi2@[2] - lo2@[2])) as nat,
            (s_node - 1) as nat,
        );
        assert(s_node >= 2);
        lemma_pow1(4);
        lemma_pow_adds(4, 1nat, (s_node - 1) as nat);
        assert(pow(4, s_node as nat) == 4 * half);
        assert(measure(nodes@) <= measure(old(nodes)@) + 2 * half);
        assert(measure(nodes@) < measure(old(nodes)@) + node_weight(node));
    }
}

/// The box palette builder, with the gamma-corrected mean supplied by the
/// caller: `mean_of` receives the sorted channel values of the box being
/// split and returns the mean split candidate.  The returned palette holds
/// no color twice and never more colors than requested (or than the eight
/// corners the build starts from, whichever is more); an empty image yields
/// an empty palette once splitting is asked for, and a build that asks for
/// at most the eight corners of the full cube, without the shrink step,
/// returns exactly those corners.
#[verifier::rlimit(100)]
pub fn make_box_palette_by<F: Fn(&Vec<u8>) -> u8>(
    palette_size: usize,
    pixels: Vec<Srgb8>,
    split: Split,
    optim: bool,
    mean_of: F,
) -> (palette: Vec<Srgb8>)
    requires
        split == Split::Mean ==> forall|v: &Vec<u8>| call_requires(mean_of, (v,)),
    ensures
        forall|i: int, j: int| #![trigger palette@[i], palette@[j]]
            0 <= i < j < palette@.len() ==> palette@[i] != palette@[j],
        palette@.len() <= palette_size || palette@.len() <= 8,
        pixels@.len() == 0 && palette_size >= 12 ==> palette@.len() == 0,
        (!optim && palette_size <= 8) ==> {
            &&& palette@.len() == 8
            &&& forall|i: int| 0 <= i < palette@.len()
                ==> cube_corner_color(#[trigger] palette@[i])
        },
{
    let mut refs = RefMap::new();
    let cube_lo: [u8; 3] = [0, 0, 0];
    let cube_hi: [u8; 3] = [255, 255, 255];
    let cube_corners = corners(&cube_lo, &cube_hi);
    let mut ci: usize = 0;
    while ci < 8
        invariant
            ci <= 8,
            refs.wf(),
            cube_corners@.len() == 8,
            forall|i: int| 0 <= i < 8 ==> #[trigger] cube_corners@[i]
                == corner_spec(seq![0u8, 0u8, 0u8], seq![255u8, 255u8, 255u8], i),
            refs.total() == ci,
            refs.num_colors() == ci,
            forall|k: u32| refs.count(k) == if exists|j: int| 0 <= j < ci
                && (#[trigger] cube_corners@[j]).key_spec() == k { 1int } else { 0int },
        decreases 8 - ci,
    {
        let c = cube_corners[ci];
        proof {
            // The eight cube corners have distinct keys, so each increment
            // registers a fresh color.
            if refs.contains(c.key_spec() as u32) {
                let j = choose|j: int| 0 <= j < ci
                    && (#[trigger] cube_corners@[j]).key_spec() == c.key_spec();
                assert(false);
            }
        }
        refs.incr(c.key());
        ci = ci + 1;
    }
    let ghost refs0 = refs;
    let ghost pixels0 = pixels@;
    let mut nodes: Vec<BoxNode> = Vec::new();
    nodes.push(BoxNode { lo: cube_lo, hi: cube_hi, pixels });
    let ghost n0 = nodes@[0];

    // Split the heaviest box until the palette is within reach of the
    // remaining corners.
    let mut iters: u64 = 0;
    while palette_size >= 4 && nodes.len() > 0 && iters < 0x0010_0000_0000_0000u64
        && refs.len() <= palette_size - 4
        invariant
            refs.wf(),
            forall|i: int| 0 <= i < nodes@.len() ==> (#[trigger] nodes@[i]).wf(),
            iters <= 0x0010_0000_0000_0000u64,
            refs.total() <= 8 + 48 * (iters as int),
            nodes@.len() <= 1 + iters,
            refs0.num_colors() == 8,
            refs.num_colors() <= palette_size || refs.num_colors() <= 8,
            split == Split::Mean ==> forall|v: &Vec<u8>| call_requires(mean_of, (v,)),
            palette_size <= 8 && !optim ==> refs == refs0,
            cube_corners@.len() == 8,
            forall|j: int| 0 <= j < 8 ==> #[trigger] cube_corners@[j]
                == corner_spec(cube_lo@, cube_hi@, j),
            forall|k: u32| refs0.count(k) == if exists|j: int| 0 <= j < 8
                && (#[trigger] cube_corners@[j]).key_spec() == k { 1int } else { 0int },
            n0.lo == cube_lo,
            n0.hi == cube_hi,
            n0.lo@ == seq![0u8, 0u8, 0u8],
            n0.hi@ == seq![255u8, 255u8, 255u8],
            n0.pixels@ == pixels0,
            pixels0.len() == 0 && palette_size >= 12 ==> ((iters == 0 && refs == refs0
                && nodes@.len() == 1 && nodes@[0] == n0)
                || (nodes@.len() == 0 && refs.num_colors() == 0)),
        decreases measure(nodes@),
    {
        let ghost m_top = measure(nodes@);
        let mut node = pop_heaviest(&mut nodes);
        let ghost w_pop = node_weight(node);
        let ghost s_pop = extent_sum(node);
        proof {
            lemma_pow_positive(4, s_pop as nat);
        }
        if optim {
            optimize_box(&mut node, &mut refs);
        }
        let ghost refs_mid = refs;
        let r0 = node.hi[0] - node.lo[0];
        let r1 = node.hi[1] - node.lo[1];
        let r2 = node.hi[2] - node.lo[2];
        let mut axis: usize = 0;
        let mut range = r0;
        if r1 > range {
            axis = 1;
            range = r1;
        }
        if r2 > range {
            axis = 2;
            range = r2;
        }
        if range >= 2 {
            let lo_v = node.lo[axis];
            let hi_v = node.hi[axis];
            proof {
                assert(hi_v == node.hi@[axis as int] && lo_v == node.lo@[axis as int]);
                assert forall|i: int| 0 <= i < node.pixels@.len()
                    implies lo_v <= channel_spec(#[trigger] node.pixels@[i], axis as int)
                        <= hi_v by {
                    assert(in_box(node.lo@, node.hi@, node.pixels@[i]));
                }
            }
            let mid: u8 = match split {
                Split::Half => lo_v + (hi_v - lo_v) / 2,
                Split::Median => {
                    let sorted = sort_by_channel(&node.pixels, axis);
                    proof {
                        lemma_multiset_in_box(node.pixels@, sorted@, node.lo@, node.hi@);
                    }
                    node.pixels = sorted;
                    split_value_median(&node.pixels, axis, lo_v, hi_v)
                },
                Split::Mean => {
                    let sorted = sort_by_channel(&node.pixels, axis);
                    proof {
                        lemma_multiset_in_box(node.pixels@, sorted@, node.lo@, node.hi@);
                    }
                    node.pixels = sorted;
                    let vals = channel_values(&node.pixels, axis);
                    let m = mean_of(&vals);
                    if m <= lo_v || m >= hi_v {
                        lo_v + (hi_v - lo_v) / 2
                    } else {
                        m
                    }
                },
            };
            proof {
                assert(lo_v < mid < hi_v);
            }
            let ghost node_in = node;
            split_step(&mut nodes, &mut refs, node, axis, mid);
            proof {
                assert(refs.num_colors() <= refs_mid.num_colors() + 4);
                if pixels0.len() == 0 && palette_size >= 12 {
                    // The only box was the full cube with no pixels: its
                    // release drops every initial corner reference, so the
                    // palette in progress is empty.
                    assert forall|k: u32| refs.count(k) == 0 by {
                        lemma_corner_mult_prefix_nonneg(cube_lo@, cube_hi@, k, 8);
                        if refs0.count(k) > 0 {
                            let j = choose|j: int| 0 <= j < 8
                                && (#[trigger] cube_corners@[j]).key_spec() == k;
                            lemma_corner_mult_at_least_one(cube_lo@, cube_hi@, k, j);
                        }
                    }
                    refs.lemma_all_zero_empty();
                }
                assert(extent_sum(node_in) <= s_pop);
                lemma_pow_increases(4, extent_sum(node_in) as nat, s_pop as nat);
                assert(node_weight(node_in) <= w_pop);
                assert(measure(nodes@) < m_top);
                lemma_measure_nonneg(nodes@);
            }
        } else {
            proof {
                assert(measure(nodes@) == m_top - w_pop);
                assert(measure(nodes@) < m_top);
                lemma_measure_nonneg(nodes@);
            }
        }
        iters = iters + 1;
    }

    // Shrink every remaining box once more.
    if optim {
        proof {
            assert(refs.total() <= 8 + 48 * 0x0010_0000_0000_0000int);
        }
        let mut rest: Vec<BoxNode> = Vec::new();
        let ghost t2 = refs.total();
        while nodes.len() > 0
            invariant
                refs.wf(),
                forall|i: int| 0 <= i < nodes@.len() ==> (#[trigger] nodes@[i]).wf(),
                forall|i: int| 0 <= i < rest@.len() ==> (#[trigger] rest@[i]).wf(),
                t2 <= 0x0400_0000_0000_0000int,
                refs.total() <= t2 + 24 * rest@.len(),
                rest@.len() + nodes@.len() <= 0x0020_0000_0000_0000int,
                refs.num_colors() <= palette_size || refs.num_colors() <= 8,
                pixels0.len() == 0 && palette_size >= 12
                    ==> nodes@.len() == 0 && rest@.len() == 0 && refs.num_colors() == 0,
            decreases nodes@.len(),
        {
            let mut node = pop_heaviest(&mut nodes);
            optimize_box(&mut node, &mut refs);
            rest.push(node);
        }
        nodes = rest;
    }

    // Fill the palette with box centers if there is room left.
    let ghost n3 = nodes@.len();
    while nodes.len() > 0 && refs.len() < palette_size
        invariant
            refs.wf(),
            forall|i: int| 0 <= i < nodes@.len() ==> (#[trigger] nodes@[i]).wf(),
            nodes@.len() <= n3,
            refs.total() <= 0x0800_0000_0000_0000int + n3 - nodes@.len(),
            n3 <= 0x0020_0000_0000_0000int,
            refs0.num_colors() == 8,
            refs.num_colors() <= palette_size || refs.num_colors() <= 8,
            palette_size <= 8 && !optim ==> refs == refs0,
            pixels0.len() == 0 && palette_size >= 12
                ==> nodes@.len() == 0 && refs.num_colors() == 0,
        decreases nodes@.len(),
    {
        let node = pop_heaviest(&mut nodes);
        let c = Srgb8 {
            r: node.lo[0] + (node.hi[0] - node.lo[0]) / 2,
            g: node.lo[1] + (node.hi[1] - node.lo[1]) / 2,
            b: node.lo[2] + (node.hi[2] - node.lo[2]) / 2,
        };
        let k = c.key();
        proof {
            refs.lemma_count_total(k);
        }
        refs.set_one(k);
    }

    let palette = refs.colors();
    proof {
        if !optim && palette_size <= 8 {
            assert forall|i: int| 0 <= i < palette@.len()
                implies cube_corner_color(#[trigger] palette@[i]) by {
                let k = palette@[i].key_spec() as u32;
                assert(refs.contains(k));
                assert(refs0.count(k) > 0);
                let j = choose|j: int| 0 <= j < 8
                    && (#[trigger] cube_corners@[j]).key_spec() == k;
                crate::color::lemma_key_injective(palette@[i], cube_corners@[j]);
            }
        }
    }
    palette
}

/// The box palette builder for the half-range and median split strategies,
/// which need no transfer function.
pub fn make_box_palette(
    palette_size: usize,
    pixels: Vec<Srgb8>,
    split: Split,
    optim: bool,
) -> (palette: Vec<Srgb8>)
    requires
        split != Split::Mean,
    ensures
        forall|i: int, j: int| #![trigger palette@[i], palette@[j]]
            0 <= i < j < palette@.len() ==> palette@[i] != palette@[j],
        palette@.len() <= palette_size || palette@.len() <= 8,
        pixels@.len() == 0 && palette_size >= 12 ==> palette@.len() == 0,
        (!optim && palette_size <= 8) ==> {
            &&& palette@.len() == 8
            &&& forall|i: int| 0 <= i < palette@.len()
                ==> cube_corner_color(#[trigger] palette@[i])
        },
{
    make_box_palette_by(palette_size, pixels, split, optim, |vals: &Vec<u8>| -> u8 { 0 })
}

/// How many of the first `n` corners of the box `[lo, hi]` carry color
/// key `k`.
pub open spec fn corner_mult_prefix(lo: Seq<u8>, hi: Seq<u8>, k: u32, n: int) -> int
    decreases n,
{
    if n <= 0 {
        0
    } else {
        corner_mult_prefix(lo, hi, k, n - 1)
            + if corner_spec(lo, hi, n - 1).key_spec() == k { 1int } else { 0int }
    }
}

/// How many of the eight corners of the box `[lo, hi]` carry color key `k`.
pub open spec fn corner_mult(lo: Seq<u8>, hi: Seq<u8>, k: u32) -> int {
    corner_mult_prefix(lo, hi, k, 8)
}

proof fn lemma_corner_mult_prefix_nonneg(lo: Seq<u8>, hi: Seq<u8>, k: u32, n: int)
    requires
        0 <= n,
    ensures
        corner_mult_prefix(lo, hi, k, n) >= 0,
    decreases n,
{
    if n > 0 {
        lemma_corner_mult_prefix_nonneg(lo, hi, k, n - 1);
    }
}

proof fn lemma_corner_mult_prefix_monotone(lo: Seq<u8>, hi: Seq<u8>, k: u32, m: int, n: int)
    requires
        0 <= m <= n,
    ensures
        corner_mult_prefix(lo, hi, k, m) <= corner_mult_prefix(lo, hi, k, n),
    decreases n - m,
{
    if m < n {
        lemma_corner_mult_prefix_monotone(lo, hi, k, m, n - 1);
    }
}

/// A key carried by some corner is counted at least once.
proof fn lemma_corner_mult_at_least_one(lo: Seq<u8>, hi: Seq<u8>, k: u32, j: int)
    requires
        0 <= j < 8,
        corner_spec(lo, hi, j).key_spec() == k,
    ensures
        corner_mult(lo, hi, k) >= 1,
{
    lemma_corner_mult_prefix_nonneg(lo, hi, k, j);
    assert(corner_mult_prefix(lo, hi, k, j + 1) >= 1);
    lemma_corner_mult_prefix_monotone(lo, hi, k, j + 1, 8);
}

/// Releases the corner references of a retired box, corner by corner,
/// skipping any corner no longer present: each count drops by the number of
/// corners carrying it, to no lower than zero.
fn release_corners(refs: &mut RefMap, lo: &[u8; 3], hi: &[u8; 3])
    requires
        old(refs).wf(),
    ensures
        final(refs).wf(),
        final(refs).total() <= old(refs).total(),
        final(refs).num_colors() <= old(refs).num_colors(),
        forall|k: u32| final(refs).count(k)
            == if old(refs).count(k) >= corner_mult(lo@, hi@, k)
                { old(refs).count(k) - corner_mult(lo@, hi@, k) } else { 0int },
{
    let cs = corners(lo, hi);
    proof {
        assert forall|k: u32| refs.count(k)
            == if old(refs).count(k) >= corner_mult_prefix(lo@, hi@, k, 0)
                { old(refs).count(k) - corner_mult_prefix(lo@, hi@, k, 0) }
                else { 0int } by {
            refs.lemma_count_total(k);
        }
    }
    let mut i: usize = 0;
    while i < 8
        invariant
            i <= 8,
            refs.wf(),
            refs.total() <= old(refs).total(),
            refs.num_colors() <= old(refs).num_colors(),
            cs@.len() == 8,
            forall|j: int| 0 <= j < 8 ==> #[trigger] cs@[j] == corner_spec(lo@, hi@, j),
            forall|k: u32| refs.count(k)
                == if old(refs).count(k) >= corner_mult_prefix(lo@, hi@, k, i as int)
                    { old(refs).count(k) - corner_mult_prefix(lo@, hi@, k, i as int) }
                    else { 0int },
        decreases 8 - i,
    {
        let k = cs[i].key();
        let ghost r0 = *refs;
        proof {
            refs.lemma_count_total(k);
        }
        if refs.contains_key(k) {
            refs.decr(k);
        }
        proof {
            assert forall|k2: u32| refs.count(k2)
                == if old(refs).count(k2) >= corner_mult_prefix(lo@, hi@, k2, i + 1)
                    { old(refs).count(k2) - corner_mult_prefix(lo@, hi@, k2, i + 1) }
                    else { 0int } by {
                r0.lemma_count_total(k2);
                old(refs).lemma_count_total(k2);
                if k2 == k {
                    assert(corner_mult_prefix(lo@, hi@, k2, i + 1)
                        == corner_mult_prefix(lo@, hi@, k2, i as int) + 1);
                } else {
                    assert(corner_mult_prefix(lo@, hi@, k2, i + 1)
                        == corner_mult_prefix(lo@, hi@, k2, i as int));
                }
            }
        }
        i = i + 1;
    }
}

} // verus!
