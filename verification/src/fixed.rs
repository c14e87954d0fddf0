//! 24.8 fixed-point coordinates and the curve-halving steps used by the
//! rasterizer's adaptive subdivision.
//!
//! A coordinate holds pixels in its upper 24 bits and 256ths of a pixel in
//! its lower 8. All scan-conversion arithmetic happens in this space, and by
//! design it wraps on overflow: out-of-range input produces well-defined
//! (if meaningless) coverage rather than a fault.

use vstd::prelude::*;

verus! {

/// Number of fractional bits in a fixed-point coordinate.
pub const PIXEL_BITS: i32 = 8;

/// One full pixel in fixed-point units.
pub const ONE_PIXEL: i32 = 256;

/// A point in 24.8 fixed-point coordinates.
#[derive(Copy, Clone, PartialEq, Eq, Structural, Debug)]
pub struct FixedPoint {
    pub x: i32,
    pub y: i32,
}

impl Default for FixedPoint {
    fn default() -> (d: Self)
        ensures
            d.x == 0 && d.y == 0,
    {
        FixedPoint { x: 0, y: 0 }
    }
}

impl FixedPoint {
    /// Creates a new fixed-point pair from raw 24.8 components.
    pub fn new(x: i32, y: i32) -> (r: Self)
        ensures
            r.x == x && r.y == y,
    {
        Self { x, y }
    }
}

/// `i32` addition that wraps around on overflow, as the scan converter's
/// arithmetic does.
pub open spec fn wadd(a: i32, b: i32) -> i32 {
    vstd::wrapping::i32_specs::wrapping_add(a, b)
}

/// Pixel part of a fixed-point coordinate: the floor of `x / 256`.
pub fn trunc(x: i32) -> (r: i32)
    ensures
        r == x >> 8,
        r as int == (x as int) / 256,
        -0x80_0000 <= r < 0x80_0000,
{
    let r = x >> 8;
    proof {
        assert(x == (x >> 8) * 256 + (x & 0xff) && 0 <= (x & 0xff) < 256 && -0x80_0000 <= (x >> 8)
            < 0x80_0000) by (bit_vector);
    }
    r
}

/// Sub-pixel part of a fixed-point coordinate: `x` modulo 256, in `[0, 256)`.
pub fn fract(x: i32) -> (r: i32)
    ensures
        r == x & 0xff,
        r as int == (x as int) % 256,
        0 <= r < 256,
{
    let r = x & 0xff;
    proof {
        assert(x == (x >> 8) * 256 + (x & 0xff) && 0 <= (x & 0xff) < 256 && -0x80_0000 <= (x >> 8)
            < 0x80_0000) by (bit_vector);
    }
    r
}

/// Wrapping average of two coordinates: the de Casteljau midpoint.
pub open spec fn mid2(a: i32, b: i32) -> i32 {
    wadd(a, b) >> 1
}

/// Wrapping quarter-sum of a doubled pair: the second-level midpoint.
pub open spec fn mid4(a: i32, b: i32) -> i32 {
    wadd(a, b) >> 2
}

/// Wrapping eighth-sum: the third-level midpoint of a cubic.
pub open spec fn mid8(a: i32, b: i32) -> i32 {
    wadd(a, b) >> 3
}

/// Splits a quadratic curve, stored as three points starting at `base`, in
/// half at the midpoint; afterwards the two halves occupy five points.
///
/// On entry `arc[base..base+3]` holds the end point, the control point and
/// the start point of the curve, in that order. On exit the first half
/// occupies `arc[base+2..base+5]` and the second `arc[base..base+3]`, in the
/// same end-to-start order, and the shared point stands at `base+2`.
pub fn split_quad<const N: usize>(arc: &mut [FixedPoint; N], base: usize)
    requires
        base + 4 < N,
    ensures
        ({
            let p0 = old(arc)[base as int];
            let p1 = old(arc)[base + 1];
            let p2 = old(arc)[base + 2];
            let f = *final(arc);
            &&& f[base as int] == p0
            &&& f[base + 1] == (FixedPoint { x: mid2(p0.x, p1.x), y: mid2(p0.y, p1.y) })
            &&& f[base + 2] == (FixedPoint {
                x: mid4(wadd(p0.x, p1.x), wadd(p1.x, p2.x)),
                y: mid4(wadd(p0.y, p1.y), wadd(p1.y, p2.y)),
            })
            &&& f[base + 3] == (FixedPoint { x: mid2(p1.x, p2.x), y: mid2(p1.y, p2.y) })
            &&& f[base + 4] == p2
            &&& forall|i: int|
                0 <= i < N && !(base < i <= base + 4) ==> f[i] == old(arc)[i]
        }),
{
    let p0 = arc[base];
    let p1 = arc[base + 1];
    let p2 = arc[base + 2];
    let ax = p0.x.wrapping_add(p1.x);
    let bx = p1.x.wrapping_add(p2.x);
    let ay = p0.y.wrapping_add(p1.y);
    let by = p1.y.wrapping_add(p2.y);
    arc[base + 4] = p2;
    arc[base + 3] = FixedPoint { x: bx >> 1, y: by >> 1 };
    arc[base + 2] = FixedPoint { x: ax.wrapping_add(bx) >> 2, y: ay.wrapping_add(by) >> 2 };
    arc[base + 1] = FixedPoint { x: ax >> 1, y: ay >> 1 };
}

/// Splits a cubic curve, stored as four points starting at `base`, in half
/// at the midpoint; afterwards the two halves occupy seven points.
///
/// On entry `arc[base..base+4]` holds the end point, the two control points
/// and the start point of the curve, in that order. On exit the first half
/// occupies `arc[base+3..base+7]` and the second `arc[base..base+4]`, and
/// the shared point stands at `base+3`.
pub fn split_cubic<const N: usize>(arc: &mut [FixedPoint; N], base: usize)
    requires
        base + 6 < N,
    ensures
        ({
            let p0 = old(arc)[base as int];
            let p1 = old(arc)[base + 1];
            let p2 = old(arc)[base + 2];
            let p3 = old(arc)[base + 3];
            let f = *final(arc);
            &&& f[base as int] == p0
            &&& f[base + 1] == (FixedPoint { x: mid2(p0.x, p1.x), y: mid2(p0.y, p1.y) })
            &&& f[base + 2] == (FixedPoint {
                x: mid4(wadd(p0.x, p1.x), wadd(p1.x, p2.x)),
                y: mid4(wadd(p0.y, p1.y), wadd(p1.y, p2.y)),
            })
            &&& f[base + 3] == (FixedPoint {
                x: mid8(
                    wadd(wadd(p0.x, p1.x), wadd(p1.x, p2.x)),
                    wadd(wadd(p1.x, p2.x), wadd(p2.x, p3.x)),
                ),
                y: mid8(
                    wadd(wadd(p0.y, p1.y), wadd(p1.y, p2.y)),
                    wadd(wadd(p1.y, p2.y), wadd(p2.y, p3.y)),
                ),
            })
            &&& f[base + 4] == (FixedPoint {
                x: mid4(wadd(p1.x, p2.x), wadd(p2.x, p3.x)),
                y: mid4(wadd(p1.y, p2.y), wadd(p2.y, p3.y)),
            })
            &&& f[base + 5] == (FixedPoint { x: mid2(p2.x, p3.x), y: mid2(p2.y, p3.y) })
            &&& f[base + 6] == p3
            &&& forall|i: int|
                0 <= i < N && !(base < i <= base + 6) ==> f[i] == old(arc)[i]
        }),
{
    let p0 = arc[base];
    let p1 = arc[base + 1];
    let p2 = arc[base + 2];
    let p3 = arc[base + 3];
    let ax = p0.x.wrapping_add(p1.x);
    let bx = p1.x.wrapping_add(p2.x);
    let cx = p2.x.wrapping_add(p3.x);
    let ay = p0.y.wrapping_add(p1.y);
    let by = p1.y.wrapping_add(p2.y);
    let cy = p2.y.wrapping_add(p3.y);
    arc[base + 6] = p3;
    arc[base + 5] = FixedPoint { x: cx >> 1, y: cy >> 1 };
    let c2x = cx.wrapping_add(bx);
    let c2y = cy.wrapping_add(by);
    arc[base + 4] = FixedPoint { x: c2x >> 2, y: c2y >> 2 };
    arc[base + 1] = FixedPoint { x: ax >> 1, y: ay >> 1 };
    let a2x = ax.wrapping_add(bx);
    let a2y = ay.wrapping_add(by);
    arc[base + 2] = FixedPoint { x: a2x >> 2, y: a2y >> 2 };
    arc[base + 3] = FixedPoint { x: a2x.wrapping_add(c2x) >> 3, y: a2y.wrapping_add(c2y) >> 3 };
}

} // verus!
