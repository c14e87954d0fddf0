//! The analytic scan-conversion rasterizer.
//!
//! A [`Rasterizer`] walks path segments in 24.8 fixed point, accumulating
//! signed cover and area into a cell store, and finally folds each row of
//! cells into 8-bit alpha coverage under a fill rule. Out-of-band
//! contributions are clipped at the cell layer, so the store never holds a
//! cell outside the target rectangle.
//!
//! All accumulation arithmetic wraps on overflow; the final
//! coverage-to-byte stage masks the result to a byte, so out-of-range
//! input yields well-defined (if meaningless) pixels rather than a fault.

use crate::cell::{
    lemma_row_set_cover_sum, lemma_rows_update_cover_sum, row_of, row_set, rows_cover_sum, rows_of,
    wf_row, wrap_eq, Cell, RasterStorage, RowCell,
};
use crate::fixed::{fract, trunc, wadd, FixedPoint, ONE_PIXEL};
use crate::style::Fill;
use vstd::arithmetic::mul::lemma_mul_inequality;
use vstd::prelude::*;

verus! {

/// One row's cover sum, addressed by its index.
pub open spec fn row_cover_sum_at(rows: Seq<Seq<RowCell>>, r: int) -> int {
    crate::cell::row_cover_sum(rows[r])
}

/// Wrapping addition agrees with plain addition modulo the `i32` range.
proof fn lemma_wadd_mod(x: i32, d: i32)
    ensures
        wrap_eq(wadd(x, d) as int, x + d),
{
    if x + d > i32::MAX {
        vstd::arithmetic::div_mod::lemma_mod_sub_multiples_vanish(x + d, 0x1_0000_0000);
    } else if x + d < i32::MIN {
        vstd::arithmetic::div_mod::lemma_mod_add_multiples_vanish(x + d, 0x1_0000_0000);
    }
}

/// Equal-modulo totals stay equal when both grow by the same amount.
proof fn lemma_wrap_add(a: int, b: int, d: int)
    requires
        wrap_eq(a, b),
    ensures
        wrap_eq(a + d, b + d),
{
    vstd::arithmetic::div_mod::lemma_add_mod_noop(a, d, 0x1_0000_0000);
    vstd::arithmetic::div_mod::lemma_add_mod_noop(b, d, 0x1_0000_0000);
}

/// `i32` subtraction that wraps around on overflow.
pub open spec fn wsub(a: i32, b: i32) -> i32 {
    vstd::wrapping::i32_specs::wrapping_sub(a, b)
}

/// `i32` multiplication that wraps around on overflow.
pub open spec fn wmul(a: i32, b: i32) -> i32 {
    vstd::wrapping::i32_specs::wrapping_mul(a, b)
}

/// The alpha byte produced from an accumulated coverage value.
///
/// The accumulated value carries `2 * 256 * 256` units per fully covered
/// pixel; shifting by 9 yields units of one 256th. Under the even-odd rule
/// the value is folded modulo 512 and mirrored above 255; under the
/// non-zero rule its magnitude saturates at 255. Note that the non-zero
/// rule takes the magnitude of a negative value as its bitwise complement
/// `-v - 1`, one unit less than the plain negation, so that downward
/// winding converts exactly as the scan converter always has.
pub open spec fn coverage_spec(fill: Fill, c: i32) -> u8 {
    let v = (c as int) / 512;
    if fill == Fill::EvenOdd {
        let m = v % 512;
        if m >= 256 {
            (511 - m) as u8
        } else {
            m as u8
        }
    } else {
        let n = if v < 0 {
            -v - 1
        } else {
            v
        };
        if n >= 256 {
            255u8
        } else {
            n as u8
        }
    }
}

/// Converts an accumulated coverage value to an alpha byte.
pub fn coverage(fill: Fill, cov: i32) -> (r: u8)
    ensures
        r == coverage_spec(fill, cov),
{
    let mut c = cov >> 9;
    proof {
        assert(cov == (cov >> 9) * 512 + (cov & 0x1ff) && 0 <= (cov & 0x1ff) < 512 && -0x400000
            <= (cov >> 9) < 0x400000) by (bit_vector);
    }
    let ghost v = (cov as int) / 512;
    proof {
        assert(c == v);
    }
    if fill == Fill::EvenOdd {
        let ghost c0 = c;
        proof {
            assert(0 <= (c0 & 511) < 512 && ((c0 & 511) as int) % 512 == (c0 as int) % 512)
                by (bit_vector);
            assert((v % 512) == ((c0 as int) % 512));
        }
        c &= 511;
        if c >= 256 {
            c = 511i32.wrapping_sub(c);
        }
    } else {
        if c < 0 {
            let ghost c1 = c;
            c = !c;
            proof {
                assert(c1 < 0 ==> !c1 == -c1 - 1) by (bit_vector);
            }
        }
        if c >= 256 {
            c = 255;
        }
    }
    c as u8
}

/// The even-odd and non-zero rules agree wherever the winding never
/// exceeds one: any accumulated value between zero and one full pixel of
/// coverage converts to the same alpha byte under both rules.
pub proof fn lemma_fill_rules_agree(c: i32)
    requires
        0 <= (c as int) / 512 <= 256,
    ensures
        coverage_spec(Fill::EvenOdd, c) == coverage_spec(Fill::NonZero, c),
{
    let v = (c as int) / 512;
    assert(v % 512 == v);
}

/// Fixed-point scan converter bound to a pixel rectangle `[0, xmax) x
/// [0, ymax)`.
///
/// The rasterizer carries the current cell `(x, y)` with its partial
/// `cover`/`area` sums, the fixed-point pen position `(px, py)`, and the
/// start of the open subpath for implicit closing. It stores finished
/// cells into a [`RasterStorage`] passed to each call, so one rasterizer
/// can serve any store that matches its rectangle.
pub struct Rasterizer {
    xmin: i32,
    xmax: i32,
    ymin: i32,
    ymax: i32,
    start: FixedPoint,
    closed: bool,
    x: i32,
    y: i32,
    px: i32,
    py: i32,
    cover: i32,
    area: i32,
    invalid: bool,
}

impl Rasterizer {
    /// The rasterizer's rectangle matches the store's, and the current
    /// cell is in range whenever it is valid, so every `set` lands inside
    /// the store's rows.
    pub closed spec fn wf_with<S: RasterStorage>(&self, storage: &S) -> bool {
        &&& storage.inv()
        &&& storage.xlo() == self.xmin - 1
        &&& storage.xhi() == self.xmax
        &&& storage.ylo() == self.ymin
        &&& storage.iseq().len() == self.ymax - self.ymin
        &&& self.xmin == 0
        &&& self.ymin == 0
        &&& 0 <= self.xmax <= 0x7fff
        &&& 0 <= self.ymax <= 0x7fff
        &&& (!self.invalid ==> self.ymin <= self.y < self.ymax && self.xmin - 1 <= self.x
            < self.xmax)
    }

    /// The target width in pixels.
    pub closed spec fn width(&self) -> int {
        self.xmax as int
    }

    /// The target height in pixels.
    pub closed spec fn height(&self) -> int {
        self.ymax as int
    }

    /// The fixed-point pen position.
    pub closed spec fn pen(&self) -> FixedPoint {
        FixedPoint { x: self.px, y: self.py }
    }

    /// The start of the open subpath, which `close` and `seal` return to.
    pub closed spec fn subpath_start(&self) -> FixedPoint {
        self.start
    }

    /// Whether the current subpath has been closed.
    pub closed spec fn is_closed(&self) -> bool {
        self.closed
    }

    /// The signed cover accumulated so far for the current cell.
    pub closed spec fn cover_acc(&self) -> i32 {
        self.cover
    }

    /// The signed area accumulated so far for the current cell.
    pub closed spec fn area_acc(&self) -> i32 {
        self.area
    }

    /// Whether the current cell lies inside the target, so that its
    /// accumulation will reach the store rather than be clipped away.
    pub closed spec fn cell_valid(&self) -> bool {
        !self.invalid
    }

    /// The hypothesis of the cover-telescoping clause: the pen starts on a
    /// live cell, the line stays within the target's rows and starts left
    /// of its right edge, and it is vertical, horizontal, or confined to
    /// one cell.
    pub open spec fn straight_in_band(&self, to: FixedPoint) -> bool {
        let p = self.pen();
        &&& self.cell_valid()
        &&& 0 <= (p.y >> 8) < self.height()
        &&& 0 <= (to.y >> 8) < self.height()
        &&& (p.x >> 8) < self.width()
        &&& (to.x == p.x || to.y == p.y || ((p.x >> 8) == (to.x >> 8) && (p.y >> 8) == (to.y
            >> 8)))
    }

    /// Creates a rasterizer bound to an empty rectangle.
    pub fn new() -> (r: Self)
        ensures
            r.width() == 0 && r.height() == 0,
    {
        Rasterizer {
            xmin: 0,
            xmax: 0,
            ymin: 0,
            ymax: 0,
            start: FixedPoint::new(0, 0),
            closed: true,
            x: 0,
            y: 0,
            px: 0,
            py: 0,
            cover: 0,
            area: 0,
            invalid: true,
        }
    }

    /// Binds the rasterizer and the store to a `width x height` target and
    /// clears every row, leaving the pen at the origin.
    pub fn begin<S: RasterStorage>(&mut self, storage: &mut S, width: u32, height: u32)
        requires
            width <= 0x7fff,
            height <= 0x7fff,
        ensures
            final(self).wf_with(&*final(storage)),
            final(self).width() == width,
            final(self).height() == height,
            final(self).pen() == (FixedPoint { x: 0, y: 0 }),
            final(self).subpath_start() == (FixedPoint { x: 0, y: 0 }),
            final(self).is_closed(),
            final(self).cover_acc() == 0 && final(self).area_acc() == 0,
            rows_of(final(storage).cseq(), final(storage).links()) == Seq::new(
                height as nat,
                |r: int| Seq::<RowCell>::empty(),
            ),
    {
        let w = width as i32;
        let h = height as i32;
        proof {
            assert((w + 1) * h < 0x7fff_ffff) by (nonlinear_arith)
                requires
                    0 <= w <= 0x7fff && 0 <= h <= 0x7fff,
            ;
        }
        storage.reset(FixedPoint::new(0, 0), FixedPoint::new(w, h));
        self.xmin = 0;
        self.ymin = 0;
        self.xmax = w;
        self.ymax = h;
        self.start = FixedPoint::new(0, 0);
        self.closed = true;
        self.x = 0;
        self.y = 0;
        self.px = 0;
        self.py = 0;
        self.cover = 0;
        self.area = 0;
        self.invalid = true;
        proof {
            assert forall|r: int| 0 <= r < height implies rows_of(
                final(storage).cseq(),
                final(storage).links(),
            )[r] == Seq::<RowCell>::empty() by {
                assert(final(storage).links()[r] == Seq::<int>::empty());
                assert(rows_of(final(storage).cseq(), final(storage).links())[r]
                    =~= Seq::<RowCell>::empty());
            };
            assert(rows_of(final(storage).cseq(), final(storage).links()) =~= Seq::new(
                height as nat,
                |r: int| Seq::<RowCell>::empty(),
            ));
        }
    }

    /// Flushes the current cell into the store, clears the partial sums,
    /// and moves to cell `(x, y)`, marking it invalid when it lies outside
    /// the target band.
    #[verifier::rlimit(100)]
    #[verifier::spinoff_prover]
    fn set_cell<S: RasterStorage>(&mut self, storage: &mut S, x: i32, y: i32)
        requires
            old(self).wf_with(&*old(storage)),
            old(self).xmin == 0,
        ensures
            final(self).wf_with(&*final(storage)),
            final(self).width() == old(self).width() && final(self).height() == old(self).height(),
            final(self).px == old(self).px && final(self).py == old(self).py,
            final(self).start == old(self).start && final(self).closed == old(self).closed,
            final(self).cover == 0 && final(self).area == 0,
            final(self).x == (if x > -1 {
                x
            } else {
                -1i32
            }),
            final(self).y == y,
            final(self).invalid == (y >= old(self).ymax || y < 0 || x >= old(self).xmax),
            final(storage).iseq().len() == old(storage).iseq().len(),
            final(storage).xlo() == old(storage).xlo(),
            final(storage).xhi() == old(storage).xhi(),
            final(storage).ylo() == old(storage).ylo(),
            // The pending cover moves into the store; outside the target it
            // is dropped with the cell.
            old(self).invalid ==> rows_of(final(storage).cseq(), final(storage).links()) == rows_of(
                old(storage).cseq(),
                old(storage).links(),
            ),
            !old(self).invalid ==> wrap_eq(
                rows_cover_sum(rows_of(final(storage).cseq(), final(storage).links())),
                rows_cover_sum(rows_of(old(storage).cseq(), old(storage).links()))
                    + old(self).cover,
            ),
    {
        let ghost rows0 = rows_of(storage.cseq(), storage.links());
        proof {
            storage.inv_wf();
        }
        if !self.invalid && (self.area != 0 || self.cover != 0) {
            let ghost r = self.y as int;
            let ghost row0 = rows0[r];
            storage.set(self.x, self.y, self.area, self.cover);
            proof {
                lemma_row_set_cover_sum(row0, self.x, self.area, self.cover);
                lemma_rows_update_cover_sum(rows0, r, row_set(row0, self.x, self.area, self.cover));
                vstd::arithmetic::div_mod::lemma_add_mod_noop(
                    rows_cover_sum(rows0) - row_cover_sum_at(rows0, r),
                    row_cover_sum_at(
                        rows_of(storage.cseq(), storage.links()),
                        r,
                    ),
                    0x1_0000_0000,
                );
            }
        }
        self.area = 0;
        self.cover = 0;
        self.x = if x > -1 {
            x
        } else {
            -1
        };
        self.y = y;
        self.invalid = y >= self.ymax || y < self.ymin || x >= self.xmax;
    }

    /// Begins a new subpath at `to`, implicitly closing an open one back
    /// to its start, as every path is closed before its cells are read.
    pub fn move_to<S: RasterStorage>(&mut self, storage: &mut S, to: FixedPoint)
        requires
            old(self).wf_with(&*old(storage)),
        ensures
            final(self).wf_with(&*final(storage)),
            final(self).width() == old(self).width() && final(self).height() == old(self).height(),
            final(self).pen() == to,
            final(self).subpath_start() == to,
            !final(self).is_closed(),
            final(self).cell_valid() == (0 <= (to.y >> 8) < old(self).height() && (to.x >> 8)
                < old(self).width()),
            final(storage).iseq().len() == old(storage).iseq().len(),
            final(storage).xlo() == old(storage).xlo(),
            final(storage).xhi() == old(storage).xhi(),
            final(storage).ylo() == old(storage).ylo(),
    {
        if !self.closed {
            let start = self.start;
            self.line_to(storage, start);
        }
        let ex = trunc(to.x);
        let ey = trunc(to.y);
        self.set_cell(storage, ex, ey);
        self.px = to.x;
        self.py = to.y;
        self.closed = false;
        self.start = to;
    }

    /// Closes the current subpath with a line back to its start.
    pub fn close<S: RasterStorage>(&mut self, storage: &mut S)
        requires
            old(self).wf_with(&*old(storage)),
        ensures
            final(self).wf_with(&*final(storage)),
            final(self).width() == old(self).width() && final(self).height() == old(self).height(),
            final(self).pen() == old(self).subpath_start(),
            final(self).subpath_start() == old(self).subpath_start(),
            final(self).is_closed(),
            final(storage).iseq().len() == old(storage).iseq().len(),
            final(storage).xlo() == old(storage).xlo(),
            final(storage).xhi() == old(storage).xhi(),
            final(storage).ylo() == old(storage).ylo(),
            ({
                // The closing line inherits the line contracts: outside the
                // band it contributes nothing.
                let p = old(self).pen();
                let st = old(self).subpath_start();
                (((p.y >> 8) >= old(self).height() && (st.y >> 8) >= old(self).height()) || ((p.y
                    >> 8) < 0 && (st.y >> 8) < 0)) ==> {
                    &&& rows_of(final(storage).cseq(), final(storage).links()) == rows_of(
                        old(storage).cseq(),
                        old(storage).links(),
                    )
                    &&& final(self).cover_acc() == old(self).cover_acc()
                    &&& final(self).area_acc() == old(self).area_acc()
                }
            }),
            // And within it, a straight closing line telescopes its cover.
            old(self).straight_in_band(old(self).subpath_start()) ==> wrap_eq(
                rows_cover_sum(rows_of(final(storage).cseq(), final(storage).links()))
                    + final(self).cover_acc(),
                rows_cover_sum(rows_of(old(storage).cseq(), old(storage).links()))
                    + old(self).cover_acc() + old(self).subpath_start().y - old(self).pen().y,
            ),
    {
        let start = self.start;
        self.line_to(storage, start);
        self.closed = true;
    }

    /// Closes a dangling subpath and flushes the last partial cell, after
    /// which the store's rows are complete and ready to be read.
    pub fn seal<S: RasterStorage>(&mut self, storage: &mut S)
        requires
            old(self).wf_with(&*old(storage)),
        ensures
            final(self).wf_with(&*final(storage)),
            final(self).width() == old(self).width() && final(self).height() == old(self).height(),
            final(self).is_closed(),
            final(self).cover_acc() == 0 && final(self).area_acc() == 0,
            !old(self).is_closed() ==> final(self).pen() == old(self).subpath_start(),
            final(storage).iseq().len() == old(storage).iseq().len(),
            final(storage).xlo() == old(storage).xlo(),
            final(storage).xhi() == old(storage).xhi(),
            final(storage).ylo() == old(storage).ylo(),
    {
        if !self.closed {
            let start = self.start;
            self.line_to(storage, start);
            self.closed = true;
        }
        if !self.invalid && (self.area != 0 || self.cover != 0) {
            storage.set(self.x, self.y, self.area, self.cover);
        }
        self.area = 0;
        self.cover = 0;
        self.invalid = true;
    }

    /// Adds a line from the pen to `to`, accumulating cover and area into
    /// every cell the line crosses; contributions outside the target band
    /// are clipped. The pen moves to `to`.
    pub fn line_to<S: RasterStorage>(&mut self, storage: &mut S, to: FixedPoint)
        requires
            old(self).wf_with(&*old(storage)),
        ensures
            final(self).wf_with(&*final(storage)),
            final(self).width() == old(self).width() && final(self).height() == old(self).height(),
            final(self).pen() == to,
            final(self).subpath_start() == old(self).subpath_start(),
            final(self).is_closed() == old(self).is_closed(),
            final(storage).iseq().len() == old(storage).iseq().len(),
            final(storage).xlo() == old(storage).xlo(),
            final(storage).xhi() == old(storage).xhi(),
            final(storage).ylo() == old(storage).ylo(),
            ({
                // A line that stays within one cell of the target band only
                // accumulates: cover grows by the vertical sub-pixel delta,
                // area by that delta times the mean horizontal position.
                let p = old(self).pen();
                (p.x >> 8 == to.x >> 8 && p.y >> 8 == to.y >> 8 && 0 <= (p.y >> 8) < old(
                    self,
                ).height()) ==> {
                    &&& *final(storage) == *old(storage)
                    &&& final(self).cover_acc() == wadd(
                        old(self).cover_acc(),
                        wsub(to.y & 0xff, p.y & 0xff),
                    )
                    &&& final(self).area_acc() == wadd(
                        old(self).area_acc(),
                        wmul(wsub(to.y & 0xff, p.y & 0xff), wadd(p.x & 0xff, to.x & 0xff)),
                    )
                }
            }),
            ({
                // A line wholly above or below the target band contributes
                // nothing: the store and the accumulators are untouched.
                let p = old(self).pen();
                (((p.y >> 8) >= old(self).height() && (to.y >> 8) >= old(self).height()) || ((p.y
                    >> 8) < 0 && (to.y >> 8) < 0)) ==> {
                    &&& rows_of(final(storage).cseq(), final(storage).links()) == rows_of(
                        old(storage).cseq(),
                        old(storage).links(),
                    )
                    &&& final(self).cover_acc() == old(self).cover_acc()
                    &&& final(self).area_acc() == old(self).area_acc()
                }
            }),
            // For a vertical, horizontal or single-cell line inside the
            // target, the cover deposited in the store and the pending
            // accumulator together grow by exactly the fixed-point
            // vertical delta: contributions telescope across cell
            // crossings.
            old(self).straight_in_band(to) ==> wrap_eq(
                rows_cover_sum(rows_of(final(storage).cseq(), final(storage).links()))
                    + final(self).cover_acc(),
                rows_cover_sum(rows_of(old(storage).cseq(), old(storage).links()))
                    + old(self).cover_acc() + to.y - old(self).pen().y,
            ),
    {
        let ghost tel = self.straight_in_band(to);
        let ghost sum0 = rows_cover_sum(rows_of(storage.cseq(), storage.links()));
        let ghost cov0 = self.cover;
        let ghost py0 = self.py;
        let ghost px0 = self.px;
        let to_x = to.x;
        let to_y = to.y;
        let mut ey1 = trunc(self.py);
        let ey2 = trunc(to_y);
        if (ey1 >= self.ymax && ey2 >= self.ymax) || (ey1 < self.ymin && ey2 < self.ymin) {
            self.px = to_x;
            self.py = to_y;
            return;
        }
        let mut ex1 = trunc(self.px);
        let ex2 = trunc(to_x);
        let mut fx1 = fract(self.px);
        let mut fy1 = fract(self.py);
        let dx = to_x.wrapping_sub(self.px);
        let dy = to_y.wrapping_sub(self.py);
        if ex1 == ex2 && ey1 == ey2 {
            // Stays within one cell: only the trailing accumulation below.
            proof {
                if tel {
                    assert(py0 == (py0 >> 8) * 256 + fy1);
                    assert(to_y >> 8 == py0 >> 8);
                    assert(wrap_eq(
                        rows_cover_sum(rows_of(storage.cseq(), storage.links())) + self.cover,
                        sum0 + cov0 + ((to_y >> 8) * 256 + fy1 - py0),
                    ));
                }
            }
        } else if dy == 0 {
            let ghost sum_mid = rows_cover_sum(rows_of(storage.cseq(), storage.links()));
            let ghost cov_mid = self.cover;
            self.set_cell(storage, ex2, ey2);
            proof {
                if tel {
                    assert(to_y == py0);
                    assert(wrap_eq(
                        rows_cover_sum(rows_of(storage.cseq(), storage.links())),
                        sum_mid + cov_mid,
                    ));
                }
            }
            self.px = to_x;
            self.py = to_y;
            return;
        } else if dx == 0 {
            if dy > 0 {
                let n = if ey2 >= ey1 {
                    ey2 - ey1
                } else {
                    0
                };
                proof {
                    if tel {
                        assert(py0 == ey1 * 256 + fy1);
                    }
                }
                let mut s: i32 = 0;
                while s < n
                    invariant
                        old(self).wf_with(&*old(storage)),
                        self.wf_with(&*storage),
                        0 <= s <= n,
                        n > 0 ==> n == ey2 - ey1 + s,
                        -0x80_0000 <= ey2 < 0x80_0000,
                        self.xmax == old(self).xmax && self.ymax == old(self).ymax,
                        self.start == old(self).start && self.closed == old(self).closed,
                        storage.iseq().len() == old(storage).iseq().len(),
                        storage.xlo() == old(storage).xlo(),
                        storage.xhi() == old(storage).xhi(),
                        storage.ylo() == old(storage).ylo(),
                        -0x80_0000 <= ey1 < 0x80_0000,
                        -0x80_0000 <= ex1 < 0x80_0000,
                        0 <= fy1 <= 256,
                        0 <= fx1 < 256,
                        tel ==> {
                            &&& !self.invalid
                            &&& n > 0
                            &&& ex1 < self.xmax
                            &&& 0 <= ey1 < self.ymax
                            &&& 0 <= ey2 < self.ymax
                            &&& (s > 0 ==> fy1 == 0)
                            &&& wrap_eq(
                                rows_cover_sum(rows_of(storage.cseq(), storage.links()))
                                    + self.cover,
                                sum0 + cov0 + (ey1 * 256 + fy1 - py0),
                            )
                        },
                    decreases n - s,
                {
                    let ghost sum_b = rows_cover_sum(rows_of(storage.cseq(), storage.links()));
                    let ghost cov_b = self.cover;
                    let d = 256i32.wrapping_sub(fy1);
                    self.cover = self.cover.wrapping_add(d);
                    self.area = self.area.wrapping_add(d.wrapping_mul(fx1).wrapping_mul(2));
                    fy1 = 0;
                    ey1 = ey1 + 1;
                    self.set_cell(storage, ex1, ey1);
                    proof {
                        if tel {
                            assert(d == 256 - fy1 || d == 256 - (256 - d));
                            lemma_wadd_mod(cov_b, d);
                            lemma_wrap_add(wadd(cov_b, d) as int, cov_b + d, sum_b);
                            lemma_wrap_add(
                                sum_b + cov_b,
                                sum0 + cov0 + ((ey1 - 1) * 256 + (256 - d) - py0),
                                d as int,
                            );
                        }
                    }
                    s = s + 1;
                }
                proof {
                    if tel {
                        assert(ey1 == ey2 && fy1 == 0);
                    }
                }
            } else {
                let n = if ey1 >= ey2 {
                    ey1 - ey2
                } else {
                    0
                };
                proof {
                    if tel {
                        assert(py0 == ey1 * 256 + fy1);
                    }
                }
                let mut s: i32 = 0;
                while s < n
                    invariant
                        old(self).wf_with(&*old(storage)),
                        self.wf_with(&*storage),
                        0 <= s <= n,
                        n > 0 ==> n == ey1 - ey2 + s,
                        -0x80_0000 <= ey2 < 0x80_0000,
                        self.xmax == old(self).xmax && self.ymax == old(self).ymax,
                        self.start == old(self).start && self.closed == old(self).closed,
                        storage.iseq().len() == old(storage).iseq().len(),
                        storage.xlo() == old(storage).xlo(),
                        storage.xhi() == old(storage).xhi(),
                        storage.ylo() == old(storage).ylo(),
                        -0x80_0000 <= ey1 < 0x80_0000,
                        -0x80_0000 <= ex1 < 0x80_0000,
                        0 <= fy1 <= 256,
                        0 <= fx1 < 256,
                        tel ==> {
                            &&& !self.invalid
                            &&& n > 0
                            &&& ex1 < self.xmax
                            &&& 0 <= ey1 < self.ymax
                            &&& 0 <= ey2 < self.ymax
                            &&& (s > 0 ==> fy1 == 256)
                            &&& wrap_eq(
                                rows_cover_sum(rows_of(storage.cseq(), storage.links()))
                                    + self.cover,
                                sum0 + cov0 + (ey1 * 256 + fy1 - py0),
                            )
                        },
                    decreases n - s,
                {
                    let ghost sum_b = rows_cover_sum(rows_of(storage.cseq(), storage.links()));
                    let ghost cov_b = self.cover;
                    let d = 0i32.wrapping_sub(fy1);
                    self.cover = self.cover.wrapping_add(d);
                    self.area = self.area.wrapping_add(d.wrapping_mul(fx1).wrapping_mul(2));
                    fy1 = 256;
                    ey1 = ey1 - 1;
                    self.set_cell(storage, ex1, ey1);
                    proof {
                        if tel {
                            lemma_wadd_mod(cov_b, d);
                            lemma_wrap_add(wadd(cov_b, d) as int, cov_b + d, sum_b);
                            lemma_wrap_add(
                                sum_b + cov_b,
                                sum0 + cov0 + ((ey1 + 1) * 256 + (0 - d) - py0),
                                d as int,
                            );
                        }
                    }
                    s = s + 1;
                }
                proof {
                    if tel {
                        assert(ey1 == ey2 && fy1 == 256);
                    }
                }
            }
        } else {
            proof {
                // None of the telescoping shapes can reach the cell walk:
                // it runs only for a line that is neither vertical nor
                // horizontal nor confined to one cell.
                if tel {
                    assert(to_x != px0 && to_y != py0);
                    assert(ex1 == px0 >> 8 && ey1 == py0 >> 8);
                    assert(false);
                }
            }
            let mut prod = dx.wrapping_mul(fy1).wrapping_sub(dy.wrapping_mul(fx1));
            let dx_r = if ex1 != ex2 {
                0x00ff_ffffi32 / dx
            } else {
                0
            };
            let dy_r = if ey1 != ey2 {
                0x00ff_ffffi32 / dy
            } else {
                0
            };
            let mut fuel: i64 = {
                let gx = (ex1 as i64) - (ex2 as i64);
                let gy = (ey1 as i64) - (ey2 as i64);
                let ax = if gx < 0 {
                    -gx
                } else {
                    gx
                };
                let ay = if gy < 0 {
                    -gy
                } else {
                    gy
                };
                ax + ay
            };
            loop
                invariant
                    old(self).wf_with(&*old(storage)),
                    self.wf_with(&*storage),
                    self.xmax == old(self).xmax && self.ymax == old(self).ymax,
                    self.start == old(self).start && self.closed == old(self).closed,
                    storage.iseq().len() == old(storage).iseq().len(),
                    storage.xlo() == old(storage).xlo(),
                    storage.xhi() == old(storage).xhi(),
                    storage.ylo() == old(storage).ylo(),
                    0 <= fuel,
                    -0x80_0001 <= ey1 <= 0x80_0000,
                    -0x80_0001 <= ex1 <= 0x80_0000,
                    dx != 0 && dy != 0,
                ensures
                    self.wf_with(&*storage),
                    self.xmax == old(self).xmax && self.ymax == old(self).ymax,
                    self.start == old(self).start && self.closed == old(self).closed,
                    storage.iseq().len() == old(storage).iseq().len(),
                    storage.xlo() == old(storage).xlo(),
                    storage.xhi() == old(storage).xhi(),
                    storage.ylo() == old(storage).ylo(),
                decreases fuel,
            {
                if fuel <= 0 {
                    // Unreachable for coordinates that survive the fixed-point
                    // transform intact: the walk crosses exactly one cell edge
                    // per step. Wrapped-out-of-range input stops here.
                    break;
                }
                fuel = fuel - 1;
                if prod <= 0 && prod.wrapping_sub(dx.wrapping_mul(ONE_PIXEL)) > 0 {
                    let fx2 = 0i32;
                    let fy2 = udiv(0i32.wrapping_sub(prod), 0i32.wrapping_sub(dx_r));
                    prod = prod.wrapping_sub(dy.wrapping_mul(ONE_PIXEL));
                    let d = fy2.wrapping_sub(fy1);
                    self.cover = self.cover.wrapping_add(d);
                    self.area = self.area.wrapping_add(d.wrapping_mul(fx1.wrapping_add(fx2)));
                    fx1 = 256;
                    fy1 = fy2;
                    ex1 = if ex1 > -0x80_0001 {
                        ex1 - 1
                    } else {
                        ex1
                    };
                } else if prod.wrapping_sub(dx.wrapping_mul(ONE_PIXEL)) <= 0 && prod.wrapping_sub(
                    dx.wrapping_mul(ONE_PIXEL),
                ).wrapping_add(dy.wrapping_mul(ONE_PIXEL)) > 0 {
                    prod = prod.wrapping_sub(dx.wrapping_mul(ONE_PIXEL));
                    let fx2 = udiv(0i32.wrapping_sub(prod), dy_r);
                    let fy2 = ONE_PIXEL;
                    let d = fy2.wrapping_sub(fy1);
                    self.cover = self.cover.wrapping_add(d);
                    self.area = self.area.wrapping_add(d.wrapping_mul(fx1.wrapping_add(fx2)));
                    fx1 = fx2;
                    fy1 = 0;
                    ey1 = if ey1 < 0x80_0000 {
                        ey1 + 1
                    } else {
                        ey1
                    };
                } else if prod.wrapping_sub(dx.wrapping_mul(ONE_PIXEL)).wrapping_add(
                    dy.wrapping_mul(ONE_PIXEL),
                ) <= 0 && prod.wrapping_add(dy.wrapping_mul(ONE_PIXEL)) >= 0 {
                    prod = prod.wrapping_add(dy.wrapping_mul(ONE_PIXEL));
                    let fx2 = ONE_PIXEL;
                    let fy2 = udiv(prod, dx_r);
                    let d = fy2.wrapping_sub(fy1);
                    self.cover = self.cover.wrapping_add(d);
                    self.area = self.area.wrapping_add(d.wrapping_mul(fx1.wrapping_add(fx2)));
                    fx1 = 0;
                    fy1 = fy2;
                    ex1 = if ex1 < 0x80_0000 {
                        ex1 + 1
                    } else {
                        ex1
                    };
                } else {
                    let fx2 = udiv(prod, 0i32.wrapping_sub(dy_r));
                    let fy2 = 0i32;
                    prod = prod.wrapping_add(dx.wrapping_mul(ONE_PIXEL));
                    let d = fy2.wrapping_sub(fy1);
                    self.cover = self.cover.wrapping_add(d);
                    self.area = self.area.wrapping_add(d.wrapping_mul(fx1.wrapping_add(fx2)));
                    fx1 = fx2;
                    fy1 = 256;
                    ey1 = if ey1 > -0x80_0001 {
                        ey1 - 1
                    } else {
                        ey1
                    };
                }
                self.set_cell(storage, ex1, ey1);
                if ex1 == ex2 && ey1 == ey2 {
                    break;
                }
            }
        }
        let fx2 = fract(to_x);
        let fy2 = fract(to_y);
        let ghost sum_mid = rows_cover_sum(rows_of(storage.cseq(), storage.links()));
        let ghost cov_mid = self.cover;
        proof {
            if tel {
                assert(0 <= fy1 <= 256);
                assert(wrap_eq(sum_mid + cov_mid, sum0 + cov0 + ((to_y >> 8) * 256 + fy1 - py0)));
            }
        }
        let d = fy2.wrapping_sub(fy1);
        self.cover = self.cover.wrapping_add(d);
        self.area = self.area.wrapping_add(d.wrapping_mul(fx1.wrapping_add(fx2)));
        self.px = to_x;
        self.py = to_y;
        proof {
            if tel {
                assert(d == fy2 - fy1);
                lemma_wadd_mod(cov_mid, d);
                lemma_wrap_add(wadd(cov_mid, d) as int, cov_mid + d, sum_mid);
                lemma_wrap_add(
                    sum_mid + cov_mid,
                    sum0 + cov0 + ((to_y >> 8) * 256 + fy1 - py0),
                    d as int,
                );
                assert(to_y == (to_y >> 8) * 256 + fy2);
            }
        }
    }
}

/// The scaled reciprocal division of the cell walk: multiplies a residue
/// by a precomputed `0xffffff / d` reciprocal and drops 24 bits.
fn udiv(a: i32, b: i32) -> (r: i32) {
    let wide = (a as u64).wrapping_mul(b as u64);
    #[verifier::truncate] ((wide >> 24) as i32)
}

/// Whether any second difference of the cubic at `base` exceeds half a
/// pixel, so that it needs another halving before a chord stands in for
/// it.
fn too_curvy(arc: &[FixedPoint; 129], base: usize) -> (r: bool)
    requires
        base + 3 < 129,
{
    let d1x = wabs(
        arc[base].x.wrapping_mul(2).wrapping_sub(arc[base + 1].x.wrapping_mul(3)).wrapping_add(
            arc[base + 3].x,
        ),
    );
    let d1y = wabs(
        arc[base].y.wrapping_mul(2).wrapping_sub(arc[base + 1].y.wrapping_mul(3)).wrapping_add(
            arc[base + 3].y,
        ),
    );
    let d2x = wabs(
        arc[base].x.wrapping_sub(arc[base + 2].x.wrapping_mul(3)).wrapping_add(
            arc[base + 3].x.wrapping_mul(2),
        ),
    );
    let d2y = wabs(
        arc[base].y.wrapping_sub(arc[base + 2].y.wrapping_mul(3)).wrapping_add(
            arc[base + 3].y.wrapping_mul(2),
        ),
    );
    d1x > ONE_PIXEL / 2 || d1y > ONE_PIXEL / 2 || d2x > ONE_PIXEL / 2 || d2y > ONE_PIXEL / 2
}

/// Absolute value that wraps on the one overflowing input, like the
/// accumulation arithmetic around it.
fn wabs(v: i32) -> (r: i32) {
    if v == i32::MIN {
        i32::MIN
    } else if v < 0 {
        -v
    } else {
        v
    }
}

impl Rasterizer {
    /// Adds a quadratic curve from the pen through `control` to `to`,
    /// flattened by fixed-point de Casteljau halving: the number of
    /// emitted chords doubles until the curve's second difference drops
    /// below a quarter pixel.
    pub fn quad_to<S: RasterStorage>(
        &mut self,
        storage: &mut S,
        control: FixedPoint,
        to: FixedPoint,
    )
        requires
            old(self).wf_with(&*old(storage)),
        ensures
            final(self).wf_with(&*final(storage)),
            final(self).width() == old(self).width() && final(self).height() == old(
                self,
            ).height(),
            final(self).pen() == to,
            final(self).subpath_start() == old(self).subpath_start(),
            !final(self).is_closed(),
            final(storage).iseq().len() == old(storage).iseq().len(),
            final(storage).xlo() == old(storage).xlo(),
            final(storage).xhi() == old(storage).xhi(),
            final(storage).ylo() == old(storage).ylo(),
            ({
                // A curve whose control polygon lies wholly above or below
                // the target band contributes nothing.
                let p = old(self).pen();
                let h = old(self).height();
                (((p.y >> 8) >= h && (control.y >> 8) >= h && (to.y >> 8) >= h) || ((p.y >> 8) < 0
                    && (control.y >> 8) < 0 && (to.y >> 8) < 0)) ==> {
                    &&& rows_of(final(storage).cseq(), final(storage).links()) == rows_of(
                        old(storage).cseq(),
                        old(storage).links(),
                    )
                    &&& final(self).cover_acc() == old(self).cover_acc()
                    &&& final(self).area_acc() == old(self).area_acc()
                }
            }),
    {
        let ghost skip = (((old(self).pen().y >> 8) >= old(self).height() && (control.y >> 8)
            >= old(self).height() && (to.y >> 8) >= old(self).height()) || ((old(self).pen().y
            >> 8) < 0 && (control.y >> 8) < 0 && (to.y >> 8) < 0));
        self.closed = false;
        let mut arc: [FixedPoint; 33] = [FixedPoint { x: 0, y: 0 }; 33];
        arc[0] = to;
        arc[1] = control;
        arc[2] = FixedPoint::new(self.px, self.py);
        if (trunc(arc[0].y) >= self.ymax && trunc(arc[1].y) >= self.ymax && trunc(arc[2].y)
            >= self.ymax) || (trunc(arc[0].y) < self.ymin && trunc(arc[1].y) < self.ymin && trunc(
            arc[2].y,
        ) < self.ymin) {
            self.px = arc[0].x;
            self.py = arc[0].y;
            return;
        }
        proof {
            assert(!skip);
        }
        let mut dx = wabs(arc[2].x.wrapping_add(arc[0].x).wrapping_sub(arc[1].x.wrapping_mul(2)));
        let dy = wabs(arc[2].y.wrapping_add(arc[0].y).wrapping_sub(arc[1].y.wrapping_mul(2)));
        if dx < dy {
            dx = dy;
        }
        let mut levels: u32 = 0;
        while dx > ONE_PIXEL / 4
            invariant
                levels <= 13,
            decreases dx,
        {
            proof {
                assert(dx > 64 ==> 0 <= (dx >> 2) < dx) by (bit_vector);
            }
            dx = dx >> 2;
            if levels < 13 {
                levels = levels + 1;
            }
        }
        let mut draw: i32 = 1i32 << levels;
        proof {
            assert(1i32 << levels >= 1 && 1i32 << levels <= 0x2000) by (bit_vector)
                requires
                    levels <= 13,
            ;
        }
        let mut a: usize = 0;
        loop
            invariant_except_break
                1 <= draw,
            invariant
                !skip,
                skip == (((old(self).pen().y >> 8) >= old(self).height() && (control.y >> 8)
                    >= old(self).height() && (to.y >> 8) >= old(self).height()) || ((old(
                    self,
                ).pen().y >> 8) < 0 && (control.y >> 8) < 0 && (to.y >> 8) < 0)),
                old(self).wf_with(&*old(storage)),
                self.wf_with(&*storage),
                self.xmax == old(self).xmax && self.ymax == old(self).ymax,
                self.start == old(self).start && self.closed == false,
                storage.iseq().len() == old(storage).iseq().len(),
                storage.xlo() == old(storage).xlo(),
                storage.xhi() == old(storage).xhi(),
                storage.ylo() == old(storage).ylo(),
                draw <= 0x2000,
                0 <= draw,
                a <= 30,
            ensures
                self.wf_with(&*storage),
                self.xmax == old(self).xmax && self.ymax == old(self).ymax,
                self.start == old(self).start && self.closed == false,
                storage.iseq().len() == old(storage).iseq().len(),
                storage.xlo() == old(storage).xlo(),
                storage.xhi() == old(storage).xhi(),
                storage.ylo() == old(storage).ylo(),
            decreases draw,
        {
            let dm = draw - 1;
            let mut split = draw & !dm;
            proof {
                assert((draw & !dm) >= 1 && (draw & !dm) <= draw) by (bit_vector)
                    requires
                        draw >= 1 && dm == draw - 1,
                ;
            }
            loop
                invariant_except_break
                    split >= 1,
                invariant
                    !skip,
                    skip == (((old(self).pen().y >> 8) >= old(self).height() && (control.y >> 8)
                        >= old(self).height() && (to.y >> 8) >= old(self).height()) || ((old(
                        self,
                    ).pen().y >> 8) < 0 && (control.y >> 8) < 0 && (to.y >> 8) < 0)),
                    old(self).wf_with(&*old(storage)),
                    self.wf_with(&*storage),
                    self.xmax == old(self).xmax && self.ymax == old(self).ymax,
                    self.start == old(self).start && self.closed == false,
                    storage.iseq().len() == old(storage).iseq().len(),
                    storage.xlo() == old(storage).xlo(),
                    storage.xhi() == old(storage).xhi(),
                    storage.ylo() == old(storage).ylo(),
                    split >= 0,
                    a <= 30,
                ensures
                    self.wf_with(&*storage),
                    self.xmax == old(self).xmax && self.ymax == old(self).ymax,
                    self.start == old(self).start && self.closed == false,
                    storage.iseq().len() == old(storage).iseq().len(),
                    storage.xlo() == old(storage).xlo(),
                    storage.xhi() == old(storage).xhi(),
                    storage.ylo() == old(storage).ylo(),
                    a <= 30,
                decreases split,
            {
                proof {
                    assert(split >= 1 ==> (split >> 1) >= 0 && (split >> 1) < split)
                        by (bit_vector);
                }
                split = split >> 1;
                if split == 0 {
                    break;
                }
                if a + 4 >= 33 {
                    // The subdivision stack is exhausted, which cannot happen
                    // for coordinates that survived the fixed-point transform:
                    // degrade to a straight line to the end point.
                    self.line_to(storage, to);
                    return;
                }
                crate::fixed::split_quad(&mut arc, a);
                a = a + 2;
            }
            let p = arc[a];
            self.line_to(storage, p);
            draw = draw - 1;
            if draw == 0 {
                break;
            }
            a = if a >= 2 {
                a - 2
            } else {
                0
            };
        }
        self.px = to.x;
        self.py = to.y;
    }

    /// Adds a cubic curve from the pen through `control1` and `control2`
    /// to `to`, splitting adaptively while any second difference exceeds
    /// half a pixel and emitting a chord for each flat piece.
    #[verifier::rlimit(100)]
    pub fn curve_to<S: RasterStorage>(
        &mut self,
        storage: &mut S,
        control1: FixedPoint,
        control2: FixedPoint,
        to: FixedPoint,
    )
        requires
            old(self).wf_with(&*old(storage)),
        ensures
            final(self).wf_with(&*final(storage)),
            final(self).width() == old(self).width() && final(self).height() == old(
                self,
            ).height(),
            final(self).pen() == to,
            final(self).subpath_start() == old(self).subpath_start(),
            !final(self).is_closed(),
            final(storage).iseq().len() == old(storage).iseq().len(),
            final(storage).xlo() == old(storage).xlo(),
            final(storage).xhi() == old(storage).xhi(),
            final(storage).ylo() == old(storage).ylo(),
            ({
                // A curve whose control polygon lies wholly above or below
                // the target band contributes nothing.
                let p = old(self).pen();
                let h = old(self).height();
                (((p.y >> 8) >= h && (control1.y >> 8) >= h && (control2.y >> 8) >= h && (to.y
                    >> 8) >= h) || ((p.y >> 8) < 0 && (control1.y >> 8) < 0 && (control2.y >> 8)
                    < 0 && (to.y >> 8) < 0)) ==> {
                    &&& rows_of(final(storage).cseq(), final(storage).links()) == rows_of(
                        old(storage).cseq(),
                        old(storage).links(),
                    )
                    &&& final(self).cover_acc() == old(self).cover_acc()
                    &&& final(self).area_acc() == old(self).area_acc()
                }
            }),
    {
        let ghost skip = (((old(self).pen().y >> 8) >= old(self).height() && (control1.y >> 8)
            >= old(self).height() && (control2.y >> 8) >= old(self).height() && (to.y >> 8) >= old(
            self,
        ).height()) || ((old(self).pen().y >> 8) < 0 && (control1.y >> 8) < 0 && (control2.y >> 8)
            < 0 && (to.y >> 8) < 0));
        self.closed = false;
        let mut arc: [FixedPoint; 129] = [FixedPoint { x: 0, y: 0 }; 129];
        arc[0] = to;
        arc[1] = control2;
        arc[2] = control1;
        arc[3] = FixedPoint::new(self.px, self.py);
        if (trunc(arc[0].y) >= self.ymax && trunc(arc[1].y) >= self.ymax && trunc(arc[2].y)
            >= self.ymax && trunc(arc[3].y) >= self.ymax) || (trunc(arc[0].y) < self.ymin && trunc(
            arc[1].y,
        ) < self.ymin && trunc(arc[2].y) < self.ymin && trunc(arc[3].y) < self.ymin) {
            self.px = arc[0].x;
            self.py = arc[0].y;
            return;
        }
        proof {
            assert(!skip);
        }
        let mut a: usize = 0;
        // Each level of splitting quarters the second differences, so the
        // visit never needs more than about forty levels; the fuel bounds
        // the walk over that tree formally.
        let mut fuel: u64 = 1u64 << 44;
        loop
            invariant
                !skip,
                skip == (((old(self).pen().y >> 8) >= old(self).height() && (control1.y >> 8)
                    >= old(self).height() && (control2.y >> 8) >= old(self).height() && (to.y
                    >> 8) >= old(self).height()) || ((old(self).pen().y >> 8) < 0 && (control1.y
                    >> 8) < 0 && (control2.y >> 8) < 0 && (to.y >> 8) < 0)),
                old(self).wf_with(&*old(storage)),
                self.wf_with(&*storage),
                self.xmax == old(self).xmax && self.ymax == old(self).ymax,
                self.start == old(self).start && self.closed == false,
                storage.iseq().len() == old(storage).iseq().len(),
                storage.xlo() == old(storage).xlo(),
                storage.xhi() == old(storage).xhi(),
                storage.ylo() == old(storage).ylo(),
                a <= 125,
                a % 3 == 0,
            ensures
                self.wf_with(&*storage),
                self.xmax == old(self).xmax && self.ymax == old(self).ymax,
                self.start == old(self).start && self.closed == false,
                storage.iseq().len() == old(storage).iseq().len(),
                storage.xlo() == old(storage).xlo(),
                storage.xhi() == old(storage).xhi(),
                storage.ylo() == old(storage).ylo(),
            decreases fuel,
        {
            if fuel == 0 {
                self.line_to(storage, to);
                break;
            }
            fuel = fuel - 1;
            if too_curvy(&arc, a) {
                if a + 6 < 129 {
                    crate::fixed::split_cubic(&mut arc, a);
                    a = a + 3;
                    continue;
                } else {
                    self.line_to(storage, to);
                    break;
                }
            }
            let p = arc[a];
            self.line_to(storage, p);
            if a == 0 {
                break;
            }
            a = a - 3;
        }
        self.px = to.x;
        self.py = to.y;
    }
}

/// Running cover after the first `k` cells of a row, in accumulated area
/// units: each unit of cell cover is worth `2 * 256` of them. The sum
/// wraps, as the accumulation does.
pub open spec fn acc_cover(row: Seq<RowCell>, k: int) -> i32
    decreases k,
{
    if k <= 0 {
        0
    } else {
        wadd(acc_cover(row, k - 1), wmul(row[k - 1].cover, 512))
    }
}

/// How many leading cells of a row lie at or left of column `x`. For the
/// sorted rows a store produces this is the number of cells there.
pub open spec fn cells_le(row: Seq<RowCell>, x: int) -> int
    decreases row.len(),
{
    if row.len() == 0 {
        0
    } else if (row[0].x as int) <= x {
        1 + cells_le(row.subrange(1, row.len() as int), x)
    } else {
        0
    }
}

/// A row as a store hands it out: cells sorted by strictly increasing `x`
/// within `[xlo, xhi)`.
pub open spec fn row_ok(row: Seq<RowCell>, xlo: int, xhi: int) -> bool {
    &&& forall|j: int| 0 <= j < row.len() ==> xlo <= (#[trigger] row[j].x as int) < xhi
    &&& forall|j: int| 0 <= j < row.len() - 1 ==> (#[trigger] row[j].x as int) < row[j + 1].x as int
}

/// The byte the rasterizer leaves at column `x >= 0` of a row whose prior
/// byte was `old`: at a cell, the cell's own coverage; between cells, the
/// running cover; untouched where that is zero.
pub open spec fn row_byte(row: Seq<RowCell>, fill: Fill, x: int, old: u8) -> u8 {
    let k = cells_le(row, x);
    if k > 0 && (row[k - 1].x as int) == x {
        let a = wsub(acc_cover(row, k), row[k - 1].area);
        if a != 0 && x >= 0 {
            coverage_spec(fill, a)
        } else {
            old
        }
    } else {
        let c = acc_cover(row, k);
        if c != 0 {
            coverage_spec(fill, c)
        } else {
            old
        }
    }
}

/// Byte offset of row `y` of `h` in the output: rows run downward from
/// the top, or upward when the origin sits at the bottom left.
pub open spec fn row_offset(y_up: bool, pitch: int, h: int, y: int) -> int {
    if y_up {
        pitch * (h - 1 - y)
    } else {
        pitch * y
    }
}

/// The byte index of column `x` in a row starting at byte `off`, strided
/// by `stride` with a fixed `channel` shift.
pub open spec fn col_at(off: int, stride: int, channel: int, x: int) -> int {
    off + x * stride + channel
}

/// The byte index of column `x` of row `y` in a strided emission.
pub open spec fn pix_at(
    y_up: bool,
    pitch: int,
    h: int,
    stride: int,
    channel: int,
    y: int,
    x: int,
) -> int {
    col_at(row_offset(y_up, pitch, h, y), stride, channel, x)
}

/// Whether byte `i` belongs to the span that one row's emission covers:
/// the columns `[0, xmax)` strided from `off + channel`.
pub open spec fn in_row_span(i: int, off: int, xmax: int, stride: int, channel: int) -> bool {
    exists|x: int| 0 <= x < xmax && i == #[trigger] col_at(off, stride, channel, x)
}

/// Column indices grow strictly with the column.
proof fn lemma_col_mono(off: int, stride: int, channel: int, x1: int, x2: int)
    requires
        0 <= x1 <= x2,
        1 <= stride,
    ensures
        col_at(off, stride, channel, x1) <= col_at(off, stride, channel, x2),
        x1 < x2 ==> col_at(off, stride, channel, x1) < col_at(off, stride, channel, x2),
{
    lemma_mul_inequality(x1, x2, stride);
    if x1 < x2 {
        assert(x1 * stride + stride <= x2 * stride) by (nonlinear_arith)
            requires
                x1 < x2 && 1 <= stride,
        ;
    }
}

/// Whether byte `i` is covered by one of the first `ylim` rows of an
/// emission over `h` rows.
pub open spec fn in_rows_upto(
    i: int,
    ylim: int,
    h: int,
    xmax: int,
    pitch: int,
    y_up: bool,
    stride: int,
    channel: int,
) -> bool {
    exists|y: int|
        0 <= y < ylim && #[trigger] in_row_span(
            i,
            row_offset(y_up, pitch, h, y),
            xmax,
            stride,
            channel,
        )
}

/// Whether byte `i` is covered by any row of a whole emission.
pub open spec fn in_target(
    i: int,
    h: int,
    xmax: int,
    pitch: int,
    y_up: bool,
    stride: int,
    channel: int,
) -> bool {
    in_rows_upto(i, h, h, xmax, pitch, y_up, stride, channel)
}

/// What one full emission does to a buffer: every covered byte holds the
/// `row_byte` of its row and column, computed from the byte that stood
/// there before, and every other byte is untouched.
pub open spec fn rendered(
    rows: Seq<Seq<RowCell>>,
    fill: Fill,
    xmax: int,
    pitch: int,
    y_up: bool,
    stride: int,
    channel: int,
    b0: Seq<u8>,
    b1: Seq<u8>,
) -> bool {
    &&& b1.len() == b0.len()
    &&& forall|y: int, x: int|
        0 <= y < rows.len() && 0 <= x < xmax ==> b1[#[trigger] pix_at(
            y_up,
            pitch,
            rows.len() as int,
            stride,
            channel,
            y,
            x,
        )] == row_byte(
            rows[y],
            fill,
            x,
            b0[pix_at(y_up, pitch, rows.len() as int, stride, channel, y, x)],
        )
    &&& forall|i: int|
        0 <= i < b0.len() && !in_target(i, rows.len() as int, xmax, pitch, y_up, stride, channel)
            ==> b1[i] == b0[i]
}

/// In a sorted row the `x` positions grow with the index.
proof fn lemma_row_mono(row: Seq<RowCell>, i: int, j: int)
    requires
        forall|k: int|
            0 <= k < row.len() - 1 ==> (#[trigger] row[k].x as int) < row[k + 1].x as int,
        0 <= i <= j < row.len(),
    ensures
        i < j ==> (row[i].x as int) < row[j].x as int,
    decreases j - i,
{
    if i < j {
        lemma_row_mono(row, i, j - 1);
        assert((row[j - 1].x as int) < row[j].x as int);
    }
}

/// In a sorted row, the count of cells at or left of `x` is exactly the
/// position that splits the row around `x`.
proof fn lemma_cells_le_at(row: Seq<RowCell>, x: int, k: int)
    requires
        forall|j: int|
            0 <= j < row.len() - 1 ==> (#[trigger] row[j].x as int) < row[j + 1].x as int,
        0 <= k <= row.len(),
        k > 0 ==> (row[k - 1].x as int) <= x,
        k < row.len() ==> x < (row[k].x as int),
    ensures
        cells_le(row, x) == k,
    decreases k,
{
    if k == 0 {
        if row.len() > 0 {
            assert(x < row[0].x as int);
        }
    } else {
        if k - 1 == 0 {
            lemma_row_mono(row, 0, k - 1);
            assert((row[0].x as int) <= x);
        } else {
            lemma_row_mono(row, 0, k - 1);
        }
        let tail = row.subrange(1, row.len() as int);
        assert(forall|j: int|
            0 <= j < tail.len() - 1 ==> (#[trigger] tail[j].x as int) < tail[j + 1].x as int);
        lemma_cells_le_at(tail, x, k - 1);
    }
}

/// Reads row `y` of a store out along its chain into `out`, reusing the
/// vector's storage.
fn read_row<S: RasterStorage>(storage: &S, y: usize, out: &mut Vec<RowCell>)
    requires
        storage.inv(),
        y < storage.iseq().len(),
    ensures
        final(out)@ == rows_of(storage.cseq(), storage.links())[y as int],
{
    proof {
        storage.inv_wf();
    }
    out.clear();
    let ghost cells0 = storage.cseq();
    let ghost ch = storage.links()[y as int];
    let ghost count0 = storage.count();
    proof {
        assert(wf_row(cells0, storage.iseq()[y as int], ch, count0, storage.xlo(), storage.xhi()));
    }
    let heads = storage.indices();
    let cells = storage.cells();
    let mut ci: i32 = heads[y];
    let ghost mut j: int = 0;
    loop
        invariant
            cells@ == cells0,
            count0 <= cells0.len(),
            wf_row(cells0, storage.iseq()[y as int], ch, count0, storage.xlo(), storage.xhi()),
            0 <= j <= ch.len(),
            j < ch.len() ==> ci as int == ch[j],
            j == ch.len() ==> ci == -1,
            out@ =~= row_of(cells0, ch).subrange(0, j),
        ensures
            out@ =~= row_of(cells0, ch),
        decreases ch.len() - j,
    {
        if ci == -1 {
            proof {
                assert(j == ch.len());
                assert(row_of(cells0, ch).subrange(0, j) =~= row_of(cells0, ch));
            }
            break;
        }
        let c = cells[ci as usize];
        out.push(RowCell { x: c.x, cover: c.cover, area: c.area });
        ci = c.next;
        proof {
            assert(out@ =~= row_of(cells0, ch).subrange(0, j + 1));
            j = j + 1;
        }
    }
}

/// Emits one row of cells into the buffer: for each run between cells the
/// running cover's byte, at each cell its own coverage byte, and nothing
/// where the cover is zero.
#[verifier::rlimit(100)]
fn emit_row(
    row: &Vec<RowCell>,
    fill: Fill,
    xmax: i32,
    buffer: &mut Vec<u8>,
    off: usize,
    stride: usize,
    channel: usize,
)
    requires
        row_ok(row@, -1, xmax as int),
        0 <= xmax <= 0x7fff,
        1 <= stride,
        xmax > 0 ==> off + (xmax - 1) * stride + channel < old(buffer).len(),
    ensures
        final(buffer)@.len() == old(buffer)@.len(),
        forall|x: int|
            0 <= x < xmax ==> final(buffer)@[#[trigger] col_at(
                off as int,
                stride as int,
                channel as int,
                x,
            )] == row_byte(
                row@,
                fill,
                x,
                old(buffer)@[col_at(off as int, stride as int, channel as int, x)],
            ),
        forall|i: int|
            0 <= i < old(buffer)@.len() && !in_row_span(
                i,
                off as int,
                xmax as int,
                stride as int,
                channel as int,
            ) ==> final(buffer)@[i] == old(buffer)@[i],
{
    let ghost b0 = old(buffer)@;
    let ghost offi = off as int;
    let ghost stridei = stride as int;
    let ghost chi = channel as int;
    let blen = buffer.len();
    let rl = row.len();
    let mut cover: i32 = 0;
    let mut xr: i32 = 0;
    let mut k: usize = 0;
    while k < rl
        invariant
            row_ok(row@, -1, xmax as int),
            0 <= xmax <= 0x7fff,
            1 <= stride,
            offi == off as int && stridei == stride as int && chi == channel as int,
            b0.len() == blen as int,
            xmax > 0 ==> off + (xmax - 1) * stride + channel < b0.len(),
            rl == row@.len(),
            b0 == old(buffer)@,
            buffer@.len() == b0.len(),
            0 <= k <= rl,
            cover == acc_cover(row@, k as int),
            0 <= xr,
            xr as int == (if k == 0 {
                0int
            } else {
                row@[k as int - 1].x + 1
            }),
            forall|x: int|
                0 <= x < xr ==> buffer@[#[trigger] col_at(offi, stridei, chi, x)] == row_byte(
                    row@,
                    fill,
                    x,
                    b0[col_at(offi, stridei, chi, x)],
                ),
            forall|i: int|
                0 <= i < b0.len() && !in_row_span(i, offi, xr as int, stridei, chi) ==> buffer@[i]
                    == b0[i],
        decreases rl - k,
    {
        let cell = row[k];
        let ghost cx = cell.x as int;
        proof {
            assert(-1 <= cell.x < xmax);
            if k > 0 {
                assert((row@[k as int - 1].x as int) < cell.x as int);
            }
        }
        if cover != 0 && cell.x > xr {
            let cv = coverage(fill, cover);
            let mut xi = xr;
            while xi < cell.x
                invariant
                    row_ok(row@, -1, xmax as int),
                    0 <= xmax <= 0x7fff,
                    1 <= stride,
                    offi == off as int && stridei == stride as int && chi == channel as int,
                    b0.len() == blen as int,
                    xmax > 0 ==> off + (xmax - 1) * stride + channel < b0.len(),
                    rl == row@.len(),
                    b0 == old(buffer)@,
                    buffer@.len() == b0.len(),
                    0 <= k < rl,
                    cell == row@[k as int],
                    cx == cell.x as int,
                    -1 <= cell.x < xmax,
                    cover == acc_cover(row@, k as int),
                    cover != 0,
                    cv == coverage_spec(fill, cover),
                    0 <= xr <= xi <= cell.x,
                    xr as int == (if k == 0 {
                        0int
                    } else {
                        row@[k as int - 1].x + 1
                    }),
                    forall|x: int|
                        0 <= x < xi ==> buffer@[#[trigger] col_at(offi, stridei, chi, x)]
                            == row_byte(row@, fill, x, b0[col_at(offi, stridei, chi, x)]),
                    forall|i: int|
                        0 <= i < b0.len() && !in_row_span(i, offi, xi as int, stridei, chi)
                            ==> buffer@[i] == b0[i],
                decreases cell.x - xi,
            {
                proof {
                    lemma_col_mono(offi, stridei, chi, xi as int, xmax - 1);
                }
                let iw = off + (xi as usize) * stride + channel;
                buffer.set(iw, cv);
                proof {
                    lemma_cells_le_at(row@, xi as int, k as int);
                    assert(row_byte(row@, fill, xi as int, b0[iw as int]) == coverage_spec(
                        fill,
                        cover,
                    ));
                    assert forall|x: int| 0 <= x < xi + 1 implies buffer@[#[trigger] col_at(
                        offi,
                        stridei,
                        chi,
                        x,
                    )] == row_byte(row@, fill, x, b0[col_at(offi, stridei, chi, x)]) by {
                        if x < xi {
                            lemma_col_mono(offi, stridei, chi, x, xi as int);
                        }
                    };
                    assert forall|i: int|
                        0 <= i < b0.len() && !in_row_span(i, offi, xi + 1, stridei, chi) implies
                        buffer@[i] == b0[i] by {
                        assert(in_row_span(iw as int, offi, xi + 1, stridei, chi));
                        if i != iw {
                            assert(!in_row_span(i, offi, xi as int, stridei, chi)) by {
                                if in_row_span(i, offi, xi as int, stridei, chi) {
                                    let x2 = choose|x2: int|
                                        0 <= x2 < xi && i == col_at(offi, stridei, chi, x2);
                                    assert(in_row_span(i, offi, xi + 1, stridei, chi));
                                }
                            }
                        }
                    };
                }
                xi = xi + 1;
            }
            proof {
                assert(xi as int == cx);
            }
        } else {
            proof {
                // No run is drawn; the done range still reaches the cell,
                // since the columns between are untouched on both sides.
                assert forall|x: int| 0 <= x < cx implies buffer@[#[trigger] col_at(
                    offi,
                    stridei,
                    chi,
                    x,
                )] == row_byte(row@, fill, x, b0[col_at(offi, stridei, chi, x)]) by {
                    if xr <= x {
                        lemma_cells_le_at(row@, x, k as int);
                        lemma_col_mono(offi, stridei, chi, x, xmax - 1);
                        assert(!in_row_span(col_at(offi, stridei, chi, x), offi, xr as int, stridei,
                        chi)) by {
                            assert forall|x2: int| 0 <= x2 < xr implies col_at(
                                offi,
                                stridei,
                                chi,
                                x2,
                            ) != col_at(offi, stridei, chi, x) by {
                                lemma_col_mono(offi, stridei, chi, x2, x);
                            };
                        }
                        assert(buffer@[col_at(offi, stridei, chi, x)] == b0[col_at(
                            offi,
                            stridei,
                            chi,
                            x,
                        )]);
                    }
                };
                // Larger spans exclude at least as much as smaller ones.
                assert forall|i: int|
                    0 <= i < b0.len() && !in_row_span(i, offi, cx, stridei, chi) implies
                    buffer@[i] == b0[i] by {
                    if in_row_span(i, offi, xr as int, stridei, chi) {
                        let x2 = choose|x2: int|
                            0 <= x2 < xr && i == col_at(offi, stridei, chi, x2);
                        if x2 < cx {
                            assert(in_row_span(i, offi, cx, stridei, chi));
                        }
                    }
                };
            }
        }
        // The done range now reaches the cell; add its own coverage byte.
        cover = cover.wrapping_add(cell.cover.wrapping_mul(512));
        let area_v = cover.wrapping_sub(cell.area);
        proof {
            assert(cover == acc_cover(row@, k as int + 1));
        }
        let ghost bmid = buffer@;
        if area_v != 0 && cell.x >= 0 {
            proof {
                lemma_col_mono(offi, stridei, chi, cell.x as int, xmax - 1);
            }
            let iw = off + (cell.x as usize) * stride + channel;
            buffer.set(iw, coverage(fill, area_v));
        }
        proof {
            lemma_cells_le_at(row@, cx, k as int + 1);
            assert forall|x: int| 0 <= x < cx + 1 implies buffer@[#[trigger] col_at(
                offi,
                stridei,
                chi,
                x,
            )] == row_byte(row@, fill, x, b0[col_at(offi, stridei, chi, x)]) by {
                if x < cx {
                    lemma_col_mono(offi, stridei, chi, x, cx);
                    assert(buffer@[col_at(offi, stridei, chi, x)] == bmid[col_at(
                        offi,
                        stridei,
                        chi,
                        x,
                    )]);
                } else {
                    if !(area_v != 0 && cell.x >= 0) {
                        lemma_col_mono(offi, stridei, chi, cx, xmax - 1);
                        assert(!in_row_span(col_at(offi, stridei, chi, cx), offi, cx, stridei, chi))
                            by {
                            assert forall|x2: int| 0 <= x2 < cx implies col_at(
                                offi,
                                stridei,
                                chi,
                                x2,
                            ) != col_at(offi, stridei, chi, cx) by {
                                lemma_col_mono(offi, stridei, chi, x2, cx);
                            };
                        }
                        assert(buffer@[col_at(offi, stridei, chi, cx)] == b0[col_at(
                            offi,
                            stridei,
                            chi,
                            cx,
                        )]);
                    }
                }
            };
            assert forall|i: int|
                0 <= i < b0.len() && !in_row_span(i, offi, cx + 1, stridei, chi) implies
                buffer@[i] == b0[i] by {
                if area_v != 0 && cell.x >= 0 {
                    assert(in_row_span(col_at(offi, stridei, chi, cx), offi, cx + 1, stridei, chi));
                }
                assert(!in_row_span(i, offi, cx, stridei, chi)) by {
                    if in_row_span(i, offi, cx, stridei, chi) {
                        let x2 = choose|x2: int| 0 <= x2 < cx && i == col_at(offi, stridei, chi, x2);
                        assert(in_row_span(i, offi, cx + 1, stridei, chi));
                    }
                }
            };
        }
        xr = if cell.x >= 0 {

            cell.x + 1
        } else {
            0
        };
        k = k + 1;
    }
    // Tail run to the right edge.
    if cover != 0 {
        let cv = coverage(fill, cover);
        proof {
            assert(rl > 0);
            assert((row@[rl as int - 1].x as int) < xmax);
        }
        let mut xi = xr;
        while xi < xmax
            invariant
                xi <= xmax,
                row_ok(row@, -1, xmax as int),
                0 <= xmax <= 0x7fff,
                1 <= stride,
                offi == off as int && stridei == stride as int && chi == channel as int,
                b0.len() == blen as int,
                xmax > 0 ==> off + (xmax - 1) * stride + channel < b0.len(),
                rl == row@.len(),
                b0 == old(buffer)@,
                buffer@.len() == b0.len(),
                cover == acc_cover(row@, rl as int),
                cover != 0,
                cv == coverage_spec(fill, cover),
                0 <= xr <= xi,
                xr as int == (if rl == 0 {
                    0int
                } else {
                    row@[rl as int - 1].x + 1
                }),
                forall|x: int|
                    0 <= x < xi ==> buffer@[#[trigger] col_at(offi, stridei, chi, x)] == row_byte(
                        row@,
                        fill,
                        x,
                        b0[col_at(offi, stridei, chi, x)],
                    ),
                forall|i: int|
                    0 <= i < b0.len() && !in_row_span(i, offi, xi as int, stridei, chi)
                        ==> buffer@[i] == b0[i],
            decreases xmax - xi,
        {
            proof {
                lemma_col_mono(offi, stridei, chi, xi as int, xmax - 1);
            }
            let iw = off + (xi as usize) * stride + channel;
            buffer.set(iw, cv);
            proof {
                lemma_cells_le_at(row@, xi as int, rl as int);
                assert forall|x: int| 0 <= x < xi + 1 implies buffer@[#[trigger] col_at(
                    offi,
                    stridei,
                    chi,
                    x,
                )] == row_byte(row@, fill, x, b0[col_at(offi, stridei, chi, x)]) by {
                    if x < xi {
                        lemma_col_mono(offi, stridei, chi, x, xi as int);
                    }
                };
                assert forall|i: int|
                    0 <= i < b0.len() && !in_row_span(i, offi, xi + 1, stridei, chi) implies
                    buffer@[i] == b0[i] by {
                    assert(in_row_span(iw as int, offi, xi + 1, stridei, chi));
                    if i != iw {
                        assert(!in_row_span(i, offi, xi as int, stridei, chi));
                    }
                };
            }
            xi = xi + 1;
        }
    } else {
        proof {
            assert forall|x: int| 0 <= x < xmax implies buffer@[#[trigger] col_at(
                offi,
                stridei,
                chi,
                x,
            )] == row_byte(row@, fill, x, b0[col_at(offi, stridei, chi, x)]) by {
                if xr <= x {
                    lemma_cells_le_at(row@, x, rl as int);
                    assert(!in_row_span(col_at(offi, stridei, chi, x), offi, xr as int, stridei,
                    chi)) by {
                        assert forall|x2: int| 0 <= x2 < xr implies col_at(offi, stridei, chi, x2)
                            != col_at(offi, stridei, chi, x) by {
                            lemma_col_mono(offi, stridei, chi, x2, x);
                        };
                    }
                    lemma_col_mono(offi, stridei, chi, x, xmax - 1);
                }
            };
        }
    }
    proof {
        assert(rl == 0 || (row@[rl as int - 1].x as int) < xmax);
        assert forall|i: int|
            0 <= i < b0.len() && !in_row_span(i, offi, xmax as int, stridei, chi) implies
            buffer@[i] == b0[i] by {
            let hi = if cover != 0 {
                xmax as int
            } else {
                xr as int
            };
            if in_row_span(i, offi, hi, stridei, chi) {
                let x = choose|x: int| 0 <= x < hi && i == col_at(offi, stridei, chi, x);
                if x < xmax {
                    assert(in_row_span(i, offi, xmax as int, stridei, chi));
                }
            }
        };
    }
}

/// Every row a well-formed store hands out is sorted within its columns.
proof fn lemma_store_row_ok(
    cells: Seq<Cell>,
    idx: Seq<i32>,
    chains: Seq<Seq<int>>,
    count: int,
    xlo: int,
    xhi: int,
    r: int,
)
    requires
        crate::cell::wf_store(cells, idx, chains, count, xlo, xhi),
        0 <= r < chains.len(),
    ensures
        row_ok(row_of(cells, chains[r]), xlo, xhi),
{
    assert(wf_row(cells, idx[r], chains[r], count, xlo, xhi));
}

/// Distinct rows of an emission cover disjoint byte spans, provided one
/// row's span fits within the pitch.
proof fn lemma_rows_disjoint(
    i: int,
    h: int,
    xmax: int,
    pitch: int,
    y_up: bool,
    stride: int,
    channel: int,
    y1: int,
    y2: int,
)
    requires
        0 <= y1 < h,
        0 <= y2 < h,
        y1 != y2,
        1 <= stride,
        0 <= channel,
        0 < xmax,
        (xmax - 1) * stride + channel < pitch,
        in_row_span(i, row_offset(y_up, pitch, h, y1), xmax, stride, channel),
    ensures
        !in_row_span(i, row_offset(y_up, pitch, h, y2), xmax, stride, channel),
{
    let k1 = if y_up {
        h - 1 - y1
    } else {
        y1
    };
    let k2 = if y_up {
        h - 1 - y2
    } else {
        y2
    };
    assert(k1 != k2);
    let x1 = choose|x: int|
        0 <= x < xmax && i == col_at(row_offset(y_up, pitch, h, y1), stride, channel, x);
    lemma_mul_inequality(x1, xmax - 1, stride);
    assert(pitch * k1 <= i < pitch * k1 + pitch);
    if in_row_span(i, row_offset(y_up, pitch, h, y2), xmax, stride, channel) {
        let x2 = choose|x: int|
            0 <= x < xmax && i == col_at(row_offset(y_up, pitch, h, y2), stride, channel, x);
        lemma_mul_inequality(x2, xmax - 1, stride);
        assert(pitch * k2 <= i < pitch * k2 + pitch);
        if k1 < k2 {
            assert(pitch * k1 + pitch <= pitch * k2) by (nonlinear_arith)
                requires
                    k1 < k2 && 0 <= pitch,
            ;
        } else {
            assert(pitch * k2 + pitch <= pitch * k1) by (nonlinear_arith)
                requires
                    k2 < k1 && 0 <= pitch,
            ;
        }
    }
}

/// Every pixel byte of an emission lies below the last row's last column
/// byte.
proof fn lemma_pix_bound(
    y_up: bool,
    pitch: int,
    h: int,
    stride: int,
    channel: int,
    y: int,
    x: int,
    xmax: int,
)
    requires
        0 <= y < h,
        0 <= x < xmax,
        0 <= pitch,
        1 <= stride,
        0 <= channel,
    ensures
        0 <= pix_at(y_up, pitch, h, stride, channel, y, x),
        pix_at(y_up, pitch, h, stride, channel, y, x) <= pitch * (h - 1) + (xmax - 1) * stride
            + channel,
{
    let k = if y_up {
        h - 1 - y
    } else {
        y
    };
    lemma_mul_inequality(0, k, pitch);
    lemma_mul_inequality(k, h - 1, pitch);
    lemma_mul_inequality(0, x, stride);
    lemma_mul_inequality(x, xmax - 1, stride);
    assert(pitch * k == k * pitch) by (nonlinear_arith);
    assert(pitch * (h - 1) == (h - 1) * pitch) by (nonlinear_arith);
    assert(x * stride == stride * x) by (nonlinear_arith);
}

impl Rasterizer {
    /// Folds every row of the store into coverage bytes in the buffer.
    ///
    /// Row `y` starts at byte `pitch * y`, or `pitch * (h - 1 - y)` when
    /// the origin sits at the bottom left; within a row, column `x`'s byte
    /// lands `x * stride + channel` further on, so a four-byte stride can
    /// address one color channel of packed pixels. Bytes whose coverage is
    /// zero, and bytes outside the target, keep their prior contents.
    #[verifier::rlimit(100)]
    pub fn write_rows<S: RasterStorage>(
        &self,
        storage: &S,
        fill: Fill,
        buffer: &mut Vec<u8>,
        pitch: usize,
        y_up: bool,
        stride: usize,
        channel: usize,
    )
        requires
            self.wf_with(storage),
            1 <= stride,
            channel < stride,
            self.height() > 0 && self.width() > 0 ==> pitch * (self.height() - 1) + (self.width()
                - 1) * stride + channel < old(buffer)@.len(),
            self.height() > 1 && self.width() > 0 ==> (self.width() - 1) * stride + channel
                < pitch,
        ensures
            final(buffer)@.len() == old(buffer)@.len(),
            rendered(
                rows_of(storage.cseq(), storage.links()),
                fill,
                self.width(),
                pitch as int,
                y_up,
                stride as int,
                channel as int,
                old(buffer)@,
                final(buffer)@,
            ),
    {
        proof {
            storage.inv_wf();
        }
        let ghost rows = rows_of(storage.cseq(), storage.links());
        let ghost b0 = old(buffer)@;
        let ghost pitchi = pitch as int;
        let ghost stridei = stride as int;
        let ghost chi = channel as int;
        let blen = buffer.len();
        let h = self.ymax;
        let w = self.xmax;
        let hu = h as usize;
        if w == 0 {
            // Nothing can be covered: every span is empty.
            return;
        }
        let mut row_buf: Vec<RowCell> = Vec::new();
        let mut y: usize = 0;
        while y < hu
            invariant
                w > 0,
                self.wf_with(storage),
                rows == rows_of(storage.cseq(), storage.links()),
                rows.len() == self.height(),
                h == self.ymax && w == self.xmax,
                hu == h as int,
                b0 == old(buffer)@,
                pitchi == pitch as int && stridei == stride as int && chi == channel as int,
                1 <= stride,
                channel < stride,
                b0.len() == blen as int,
                buffer@.len() == b0.len(),
                h > 0 && w > 0 ==> pitch * (h - 1) + (w - 1) * stride + channel < b0.len(),
                h > 1 && w > 0 ==> (w - 1) * stride + channel < pitch,
                0 <= y <= hu,
                forall|y2: int, x: int|
                    0 <= y2 < y && 0 <= x < w ==> buffer@[#[trigger] pix_at(
                        y_up,
                        pitchi,
                        h as int,
                        stridei,
                        chi,
                        y2,
                        x,
                    )] == row_byte(
                        rows[y2],
                        fill,
                        x,
                        b0[pix_at(y_up, pitchi, h as int, stridei, chi, y2, x)],
                    ),
                forall|i: int|
                    0 <= i < b0.len() && !in_rows_upto(
                        i,
                        y as int,
                        h as int,
                        w as int,
                        pitchi,
                        y_up,
                        stridei,
                        chi,
                    ) ==> buffer@[i] == b0[i],
            decreases hu - y,
        {
            proof {
                storage.inv_wf();
                lemma_store_row_ok(
                    storage.cseq(),
                    storage.iseq(),
                    storage.links(),
                    storage.count(),
                    storage.xlo(),
                    storage.xhi(),
                    y as int,
                );
            }
            read_row(storage, y, &mut row_buf);
            let off = if y_up {
                proof {
                    lemma_mul_inequality((h - 1 - y) as int, (h - 1) as int, pitchi);
                    assert(((h - 1 - y) as int) * pitchi == pitchi * ((h - 1 - y) as int))
                        by (nonlinear_arith);
                    assert(((h - 1) as int) * pitchi == pitchi * ((h - 1) as int))
                        by (nonlinear_arith);
                }
                pitch * (hu - 1 - y)
            } else {
                proof {
                    lemma_mul_inequality(y as int, (h - 1) as int, pitchi);
                    assert((y as int) * pitchi == pitchi * (y as int)) by (nonlinear_arith);
                    assert(((h - 1) as int) * pitchi == pitchi * ((h - 1) as int))
                        by (nonlinear_arith);
                }
                pitch * y
            };
            proof {
                assert(off as int <= pitchi * ((h - 1) as int));
            }
            let ghost bpre = buffer@;
            emit_row(&row_buf, fill, w, buffer, off, stride, channel);
            proof {
                let hi = h as int;
                let yi = y as int;
                let offi = row_offset(y_up, pitchi, hi, yi);
                assert(off as int == offi);
                // Finished rows keep their bytes: their spans are disjoint
                // from the row just written.
                assert forall|y2: int, x: int|
                    0 <= y2 < yi + 1 && 0 <= x < w implies buffer@[#[trigger] pix_at(
                        y_up,
                        pitchi,
                        hi,
                        stridei,
                        chi,
                        y2,
                        x,
                    )] == row_byte(
                        rows[y2],
                        fill,
                        x,
                        b0[pix_at(y_up, pitchi, hi, stridei, chi, y2, x)],
                    ) by {
                    let p = pix_at(y_up, pitchi, hi, stridei, chi, y2, x);
                    lemma_pix_bound(y_up, pitchi, hi, stridei, chi, y2, x, w as int);
                    if y2 < yi {
                        assert(in_row_span(
                            p,
                            row_offset(y_up, pitchi, hi, y2),
                            w as int,
                            stridei,
                            chi,
                        ));
                        lemma_rows_disjoint(p, hi, w as int, pitchi, y_up, stridei, chi, y2, yi);
                        assert(buffer@[p] == bpre[p]);
                    } else {
                        // The row just written: nothing had touched its
                        // span before this pass.
                        assert(bpre[p] == b0[p]) by {
                            if in_rows_upto(p, yi, hi, w as int, pitchi, y_up, stridei, chi) {
                                let y3 = choose|y3: int|
                                    0 <= y3 < yi && in_row_span(
                                        p,
                                        row_offset(y_up, pitchi, hi, y3),
                                        w as int,
                                        stridei,
                                        chi,
                                    );
                                assert(in_row_span(p, offi, w as int, stridei, chi));
                                lemma_rows_disjoint(
                                    p,
                                    hi,
                                    w as int,
                                    pitchi,
                                    y_up,
                                    stridei,
                                    chi,
                                    yi,
                                    y3,
                                );
                            }
                            lemma_col_mono(offi, stridei, chi, x, w - 1);
                        }
                        assert(buffer@[col_at(offi, stridei, chi, x)] == row_byte(
                            row_buf@,
                            fill,
                            x,
                            bpre[col_at(offi, stridei, chi, x)],
                        ));
                    }
                };
                assert forall|i: int|
                    0 <= i < b0.len() && !in_rows_upto(
                        i,
                        yi + 1,
                        hi,
                        w as int,
                        pitchi,
                        y_up,
                        stridei,
                        chi,
                    ) implies buffer@[i] == b0[i] by {
                    assert(!in_row_span(i, offi, w as int, stridei, chi));
                    assert(!in_rows_upto(i, yi, hi, w as int, pitchi, y_up, stridei, chi)) by {
                        if in_rows_upto(i, yi, hi, w as int, pitchi, y_up, stridei, chi) {
                            let y3 = choose|y3: int|
                                0 <= y3 < yi && in_row_span(
                                    i,
                                    row_offset(y_up, pitchi, hi, y3),
                                    w as int,
                                    stridei,
                                    chi,
                                );
                            assert(in_rows_upto(i, yi + 1, hi, w as int, pitchi, y_up, stridei,
                            chi));
                        }
                    }
                };
            }
            y = y + 1;
        }
        proof {
            assert forall|y2: int, x: int| 0 <= y2 < rows.len() && 0 <= x < w implies buffer@[
            #[trigger] pix_at(y_up, pitchi, rows.len() as int, stridei, chi, y2, x)] == row_byte(
                rows[y2],
                fill,
                x,
                b0[pix_at(y_up, pitchi, rows.len() as int, stridei, chi, y2, x)],
            ) by {
                assert(rows.len() == h as int);
            };
        }
    }
}

/// A store whose chains were just cleared holds empty rows, whatever its
/// buffers still carry from earlier use: a reused scratch store begins
/// every rasterization with the same blank state as a fresh one, so
/// rendering the same path twice into it yields identical bytes.
pub proof fn lemma_scratch_reuse<S1: RasterStorage, S2: RasterStorage>(a: &S1, b: &S2)
    requires
        a.links() == Seq::new(a.links().len(), |r: int| Seq::<int>::empty()),
        b.links() == Seq::new(b.links().len(), |r: int| Seq::<int>::empty()),
        a.links().len() == b.links().len(),
    ensures
        rows_of(a.cseq(), a.links()) == rows_of(b.cseq(), b.links()),
{
    assert forall|r: int| 0 <= r < a.links().len() implies rows_of(a.cseq(), a.links())[r]
        == rows_of(b.cseq(), b.links())[r] by {
        assert(rows_of(a.cseq(), a.links())[r] =~= Seq::<RowCell>::empty());
        assert(rows_of(b.cseq(), b.links())[r] =~= Seq::<RowCell>::empty());
    };
    assert(rows_of(a.cseq(), a.links()) =~= rows_of(b.cseq(), b.links()));
}

/// Emission is a function of the rows and the prior buffer alone: two
/// buffers produced from the same rows over the same prior contents are
/// byte-identical.
pub proof fn lemma_render_deterministic(
    rows: Seq<Seq<RowCell>>,
    fill: Fill,
    xmax: int,
    pitch: int,
    y_up: bool,
    stride: int,
    channel: int,
    b0: Seq<u8>,
    b1: Seq<u8>,
    b2: Seq<u8>,
)
    requires
        rendered(rows, fill, xmax, pitch, y_up, stride, channel, b0, b1),
        rendered(rows, fill, xmax, pitch, y_up, stride, channel, b0, b2),
    ensures
        b1 == b2,
{
    assert forall|i: int| 0 <= i < b1.len() implies b1[i] == b2[i] by {
        if in_target(i, rows.len() as int, xmax, pitch, y_up, stride, channel) {
            let y = choose|y: int|
                0 <= y < rows.len() && in_row_span(
                    i,
                    row_offset(y_up, pitch, rows.len() as int, y),
                    xmax,
                    stride,
                    channel,
                );
            let x = choose|x: int|
                0 <= x < xmax && i == col_at(
                    row_offset(y_up, pitch, rows.len() as int, y),
                    stride,
                    channel,
                    x,
                );
            assert(i == pix_at(y_up, pitch, rows.len() as int, stride, channel, y, x));
            assert(b1[i] == row_byte(rows[y], fill, x, b0[i]));
            assert(b2[i] == row_byte(rows[y], fill, x, b0[i]));
        }
    };
    assert(b1 =~= b2);
}

/// Swapping the origin mirrors the output row-for-row: over a uniform
/// prior buffer, row `y` of the path lands at byte row `h - 1 - y` with a
/// bottom-left origin and at byte row `y` with a top-left one, with the
/// same bytes in both.
pub proof fn lemma_origin_mirror(
    rows: Seq<Seq<RowCell>>,
    fill: Fill,
    xmax: int,
    pitch: int,
    stride: int,
    channel: int,
    b0: Seq<u8>,
    bup: Seq<u8>,
    bdown: Seq<u8>,
)
    requires
        rendered(rows, fill, xmax, pitch, true, stride, channel, b0, bup),
        rendered(rows, fill, xmax, pitch, false, stride, channel, b0, bdown),
        forall|i: int| 0 <= i < b0.len() ==> b0[i] == 0u8,
    ensures
        forall|y: int, x: int|
            0 <= y < rows.len() && 0 <= x < xmax && 0 <= #[trigger] pix_at(
                true,
                pitch,
                rows.len() as int,
                stride,
                channel,
                y,
                x,
            ) < b0.len() && 0 <= #[trigger] pix_at(
                false,
                pitch,
                rows.len() as int,
                stride,
                channel,
                y,
                x,
            ) < b0.len() ==> bup[pix_at(true, pitch, rows.len() as int, stride, channel, y, x)]
                == bdown[pix_at(false, pitch, rows.len() as int, stride, channel, y, x)],
{
    let h = rows.len() as int;
    assert forall|y: int, x: int|
        0 <= y < rows.len() && 0 <= x < xmax && 0 <= #[trigger] pix_at(
            true,
            pitch,
            h,
            stride,
            channel,
            y,
            x,
        ) < b0.len() && 0 <= #[trigger] pix_at(false, pitch, h, stride, channel, y, x)
            < b0.len() implies bup[pix_at(true, pitch, h, stride, channel, y, x)] == bdown[pix_at(
        false,
        pitch,
        h,
        stride,
        channel,
        y,
        x,
    )] by {
        let p1 = pix_at(true, pitch, h, stride, channel, y, x);
        let p2 = pix_at(false, pitch, h, stride, channel, y, x);
        assert(bup[p1] == row_byte(rows[y], fill, x, b0[p1]));
        assert(bdown[p2] == row_byte(rows[y], fill, x, b0[p2]));
    };
}

/// One channel of a strided (subpixel) emission carries exactly the bytes
/// that a packed alpha emission of the same rows produces: the three
/// channels of a subpixel mask are the alpha masks of their shifted
/// passes.
pub proof fn lemma_subpixel_channel(
    rows: Seq<Seq<RowCell>>,
    fill: Fill,
    xmax: int,
    pitch4: int,
    pitch1: int,
    y_up: bool,
    channel: int,
    b0sub: Seq<u8>,
    bsub: Seq<u8>,
    b0a: Seq<u8>,
    balpha: Seq<u8>,
)
    requires
        rendered(rows, fill, xmax, pitch4, y_up, 4, channel, b0sub, bsub),
        rendered(rows, fill, xmax, pitch1, y_up, 1, 0, b0a, balpha),
        forall|i: int| 0 <= i < b0sub.len() ==> b0sub[i] == 0u8,
        forall|i: int| 0 <= i < b0a.len() ==> b0a[i] == 0u8,
    ensures
        forall|y: int, x: int|
            0 <= y < rows.len() && 0 <= x < xmax && 0 <= #[trigger] pix_at(
                y_up,
                pitch4,
                rows.len() as int,
                4,
                channel,
                y,
                x,
            ) < b0sub.len() && 0 <= #[trigger] pix_at(
                y_up,
                pitch1,
                rows.len() as int,
                1,
                0,
                y,
                x,
            ) < b0a.len() ==> bsub[pix_at(y_up, pitch4, rows.len() as int, 4, channel, y, x)]
                == balpha[pix_at(y_up, pitch1, rows.len() as int, 1, 0, y, x)],
{
    let h = rows.len() as int;
    assert forall|y: int, x: int|
        0 <= y < rows.len() && 0 <= x < xmax && 0 <= #[trigger] pix_at(
            y_up,
            pitch4,
            h,
            4,
            channel,
            y,
            x,
        ) < b0sub.len() && 0 <= #[trigger] pix_at(y_up, pitch1, h, 1, 0, y, x) < b0a.len() implies
        bsub[pix_at(y_up, pitch4, h, 4, channel, y, x)] == balpha[pix_at(
        y_up,
        pitch1,
        h,
        1,
        0,
        y,
        x,
    )] by {
        let p1 = pix_at(y_up, pitch4, h, 4, channel, y, x);
        let p2 = pix_at(y_up, pitch1, h, 1, 0, y, x);
        assert(bsub[p1] == row_byte(rows[y], fill, x, b0sub[p1]));
        assert(balpha[p2] == row_byte(rows[y], fill, x, b0a[p2]));
    };
}

/// Every cell a store records lies within the bound rectangle's columns:
/// nothing the rasterizer clips away can reach the output, so the painted
/// pixels always lie inside the target bounds.
pub proof fn lemma_cells_clipped<S: RasterStorage>(s: &S, r: int, j: int)
    requires
        s.inv(),
        0 <= r < s.links().len(),
        0 <= j < rows_of(s.cseq(), s.links())[r].len(),
    ensures
        s.xlo() <= (rows_of(s.cseq(), s.links())[r][j].x as int) < s.xhi(),
{
    s.inv_wf();
    assert(wf_row(s.cseq(), s.iseq()[r], s.links()[r], s.count(), s.xlo(), s.xhi()));
    assert(s.xlo() <= (s.cseq()[s.links()[r][j]].x as int) < s.xhi());
}

} // verus!
