use zeno::cell::{AdaptiveStorage, HeapStorage, RasterStorage};
use zeno::fixed::FixedPoint;
use zeno::raster::Rasterizer;
use zeno::style::Fill;

fn px(v: i32) -> i32 {
    v * 256
}

fn rect<S: RasterStorage>(ras: &mut Rasterizer, st: &mut S, x0: i32, y0: i32, x1: i32, y1: i32) {
    ras.move_to(st, FixedPoint::new(px(x0), px(y0)));
    ras.line_to(st, FixedPoint::new(px(x1), px(y0)));
    ras.line_to(st, FixedPoint::new(px(x1), px(y1)));
    ras.line_to(st, FixedPoint::new(px(x0), px(y1)));
    ras.close(st);
}

fn render_rect_alpha(fill: Fill, y_up: bool) -> Vec<u8> {
    let mut st = HeapStorage::default();
    let mut ras = Rasterizer::new();
    ras.begin(&mut st, 16, 16);
    rect(&mut ras, &mut st, 2, 3, 10, 9);
    ras.seal(&mut st);
    let mut buf = vec![0u8; 256];
    ras.write_rows(&st, fill, &mut buf, 16, y_up, 1, 0);
    buf
}

#[test]
fn integer_rect_is_fully_covered() {
    let buf = render_rect_alpha(Fill::NonZero, false);
    for y in 0..16usize {
        for x in 0..16usize {
            let expected = if (2..10).contains(&x) && (3..9).contains(&y) { 255 } else { 0 };
            assert_eq!(buf[y * 16 + x], expected, "pixel ({}, {})", x, y);
        }
    }
}

#[test]
fn fractional_edge_gets_partial_coverage() {
    let mut st = HeapStorage::default();
    let mut ras = Rasterizer::new();
    ras.begin(&mut st, 8, 8);
    // A rectangle from x = 1.5 to x = 4, y = 2 to y = 5.
    ras.move_to(&mut st, FixedPoint::new(384, px(2)));
    ras.line_to(&mut st, FixedPoint::new(px(4), px(2)));
    ras.line_to(&mut st, FixedPoint::new(px(4), px(5)));
    ras.line_to(&mut st, FixedPoint::new(384, px(5)));
    ras.close(&mut st);
    ras.seal(&mut st);
    let mut buf = vec![0u8; 64];
    ras.write_rows(&st, Fill::NonZero, &mut buf, 8, false, 1, 0);
    assert_eq!(buf[3 * 8 + 1], 127, "half-covered left edge");
    assert_eq!(buf[3 * 8 + 2], 255, "full interior");
    assert_eq!(buf[3 * 8 + 4], 0, "outside the right edge");
}

#[test]
fn origin_swap_mirrors_rows() {
    let down = render_rect_alpha(Fill::NonZero, false);
    let up = render_rect_alpha(Fill::NonZero, true);
    for y in 0..16usize {
        for x in 0..16usize {
            assert_eq!(down[y * 16 + x], up[(15 - y) * 16 + x]);
        }
    }
}

#[test]
fn fill_rules_agree_on_simple_paths() {
    let nz = render_rect_alpha(Fill::NonZero, false);
    let eo = render_rect_alpha(Fill::EvenOdd, false);
    assert_eq!(nz, eo);
}

#[test]
fn even_odd_cuts_a_hole() {
    let mut st = HeapStorage::default();
    let mut ras = Rasterizer::new();
    ras.begin(&mut st, 16, 16);
    rect(&mut ras, &mut st, 1, 1, 15, 15);
    rect(&mut ras, &mut st, 5, 5, 11, 11);
    ras.seal(&mut st);
    let mut eo = vec![0u8; 256];
    ras.write_rows(&st, Fill::EvenOdd, &mut eo, 16, false, 1, 0);
    assert_eq!(eo[8 * 16 + 8], 0, "even-odd center is a hole");
    assert_eq!(eo[3 * 16 + 3], 255, "even-odd ring is filled");
    let mut nz = vec![0u8; 256];
    ras.write_rows(&st, Fill::NonZero, &mut nz, 16, false, 1, 0);
    assert_eq!(nz[8 * 16 + 8], 255, "non-zero center is filled");
}

#[test]
fn subpixel_channel_matches_alpha_mask() {
    let alpha = render_rect_alpha(Fill::NonZero, false);
    let mut st = HeapStorage::default();
    let mut ras = Rasterizer::new();
    ras.begin(&mut st, 16, 16);
    rect(&mut ras, &mut st, 2, 3, 10, 9);
    ras.seal(&mut st);
    let mut rgba = vec![0u8; 1024];
    ras.write_rows(&st, Fill::NonZero, &mut rgba, 64, false, 4, 1);
    for y in 0..16usize {
        for x in 0..16usize {
            assert_eq!(rgba[y * 64 + x * 4 + 1], alpha[y * 16 + x]);
            assert_eq!(rgba[y * 64 + x * 4], 0, "other channels untouched");
            assert_eq!(rgba[y * 64 + x * 4 + 2], 0, "other channels untouched");
        }
    }
}

#[test]
fn scratch_reuse_is_deterministic() {
    let mut st = HeapStorage::default();
    let mut ras = Rasterizer::new();
    let mut first = Vec::new();
    for round in 0..2 {
        ras.begin(&mut st, 16, 16);
        rect(&mut ras, &mut st, 2, 3, 10, 9);
        ras.seal(&mut st);
        let mut buf = vec![0u8; 256];
        ras.write_rows(&st, Fill::NonZero, &mut buf, 16, false, 1, 0);
        if round == 0 {
            first = buf;
        } else {
            assert_eq!(first, buf, "second render over the same scratch differs");
        }
    }
}

#[test]
fn adaptive_storage_matches_heap_storage() {
    let heap = render_rect_alpha(Fill::NonZero, false);
    let mut st = AdaptiveStorage::new();
    let mut ras = Rasterizer::new();
    ras.begin(&mut st, 16, 16);
    rect(&mut ras, &mut st, 2, 3, 10, 9);
    ras.seal(&mut st);
    let mut buf = vec![0u8; 256];
    ras.write_rows(&st, Fill::NonZero, &mut buf, 16, false, 1, 0);
    assert_eq!(heap, buf);
}

#[test]
fn quadratic_curve_touches_its_bow() {
    let mut st = HeapStorage::default();
    let mut ras = Rasterizer::new();
    ras.begin(&mut st, 16, 16);
    ras.move_to(&mut st, FixedPoint::new(px(2), px(12)));
    ras.quad_to(&mut st, FixedPoint::new(px(8), px(0)), FixedPoint::new(px(14), px(12)));
    ras.close(&mut st);
    ras.seal(&mut st);
    let mut buf = vec![0u8; 256];
    ras.write_rows(&st, Fill::NonZero, &mut buf, 16, false, 1, 0);
    assert_eq!(buf[11 * 16 + 8], 255, "inside the bow");
    assert_eq!(buf[1 * 16 + 2], 0, "outside the bow");
}

#[test]
fn cubic_curve_renders_like_its_line_degenerate() {
    let mut st = HeapStorage::default();
    let mut ras = Rasterizer::new();
    ras.begin(&mut st, 12, 12);
    ras.move_to(&mut st, FixedPoint::new(px(1), px(1)));
    ras.curve_to(
        &mut st,
        FixedPoint::new(px(4), px(1)),
        FixedPoint::new(px(7), px(1)),
        FixedPoint::new(px(10), px(1)),
    );
    ras.line_to(&mut st, FixedPoint::new(px(10), px(6)));
    ras.line_to(&mut st, FixedPoint::new(px(1), px(6)));
    ras.close(&mut st);
    ras.seal(&mut st);
    let mut curved = vec![0u8; 144];
    ras.write_rows(&st, Fill::NonZero, &mut curved, 12, false, 1, 0);

    let mut st2 = HeapStorage::default();
    ras.begin(&mut st2, 12, 12);
    ras.move_to(&mut st2, FixedPoint::new(px(1), px(1)));
    ras.line_to(&mut st2, FixedPoint::new(px(10), px(1)));
    ras.line_to(&mut st2, FixedPoint::new(px(10), px(6)));
    ras.line_to(&mut st2, FixedPoint::new(px(1), px(6)));
    ras.close(&mut st2);
    ras.seal(&mut st2);
    let mut straight = vec![0u8; 144];
    ras.write_rows(&st2, Fill::NonZero, &mut straight, 12, false, 1, 0);
    assert_eq!(curved, straight, "a flat cubic renders exactly like a line");
}

#[test]
fn out_of_band_segments_are_clipped() {
    let mut st = HeapStorage::default();
    let mut ras = Rasterizer::new();
    ras.begin(&mut st, 8, 8);
    rect(&mut ras, &mut st, -20, -20, 30, 4);
    ras.seal(&mut st);
    let mut buf = vec![0u8; 64];
    ras.write_rows(&st, Fill::NonZero, &mut buf, 8, false, 1, 0);
    for y in 0..8usize {
        for x in 0..8usize {
            let expected = if y < 4 { 255 } else { 0 };
            assert_eq!(buf[y * 8 + x], expected);
        }
    }
}

#[test]
fn unwritten_bytes_keep_their_contents() {
    let mut st = HeapStorage::default();
    let mut ras = Rasterizer::new();
    ras.begin(&mut st, 8, 8);
    rect(&mut ras, &mut st, 2, 2, 4, 4);
    ras.seal(&mut st);
    let mut buf = vec![7u8; 64];
    ras.write_rows(&st, Fill::NonZero, &mut buf, 8, false, 1, 0);
    assert_eq!(buf[0], 7, "uncovered pixels keep the prior byte");
    assert_eq!(buf[2 * 8 + 2], 255);
    assert_eq!(buf[2 * 8 + 5], 7);
}

#[test]
fn open_subpaths_are_implicitly_closed() {
    let mut st = HeapStorage::default();
    let mut ras = Rasterizer::new();
    ras.begin(&mut st, 16, 16);
    ras.move_to(&mut st, FixedPoint::new(px(2), px(3)));
    ras.line_to(&mut st, FixedPoint::new(px(10), px(3)));
    ras.line_to(&mut st, FixedPoint::new(px(10), px(9)));
    ras.line_to(&mut st, FixedPoint::new(px(2), px(9)));
    ras.seal(&mut st);
    let mut buf = vec![0u8; 256];
    ras.write_rows(&st, Fill::NonZero, &mut buf, 16, false, 1, 0);
    let closed = render_rect_alpha(Fill::NonZero, false);
    assert_eq!(buf, closed, "sealing closes a dangling subpath back to its start");
}
