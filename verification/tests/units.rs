use zeno::buf::SmallBuf;
use zeno::fixed::{fract, split_quad, trunc, FixedPoint};
use zeno::raster::coverage;
use zeno::style::{Cap, Fill, Join};
use zeno::svg::{scan_svg, validate_svg, SvgArg};
use zeno::types::{ArcSize, ArcSweep, Origin, Placement, Verb};

#[test]
fn trunc_is_the_floor_of_the_pixel() {
    assert_eq!(trunc(0), 0);
    assert_eq!(trunc(255), 0);
    assert_eq!(trunc(256), 1);
    assert_eq!(trunc(257), 1);
    assert_eq!(trunc(-1), -1);
    assert_eq!(trunc(-256), -1);
    assert_eq!(trunc(-257), -2);
}

#[test]
fn fract_is_the_subpixel_remainder() {
    assert_eq!(fract(0), 0);
    assert_eq!(fract(255), 255);
    assert_eq!(fract(256), 0);
    assert_eq!(fract(-1), 255);
    assert_eq!(fract(-256), 0);
}

#[test]
fn coverage_clamps_and_mirrors() {
    // One full pixel of accumulated coverage is 2 * 256 * 256 units.
    let full = 131072;
    assert_eq!(coverage(Fill::NonZero, full), 255);
    assert_eq!(coverage(Fill::NonZero, full / 2), 128);
    assert_eq!(coverage(Fill::NonZero, -full), 255);
    assert_eq!(coverage(Fill::NonZero, 0), 0);
    assert_eq!(coverage(Fill::NonZero, 2 * full), 255);
    assert_eq!(coverage(Fill::EvenOdd, full), 255);
    assert_eq!(coverage(Fill::EvenOdd, full / 2), 128);
    // Winding two under even-odd folds back to zero.
    assert_eq!(coverage(Fill::EvenOdd, 2 * full), 0);
    assert_eq!(coverage(Fill::EvenOdd, 3 * full), 255);
    assert_eq!(coverage(Fill::EvenOdd, 512), 1);
    assert_eq!(coverage(Fill::NonZero, -512), 0);
}

#[test]
fn split_quad_halves_the_control_polygon() {
    let mut arc = [FixedPoint::new(0, 0); 8];
    // End, control, start: a quadratic from (0,0) to (1024,0) bowing up.
    arc[0] = FixedPoint::new(1024, 0);
    arc[1] = FixedPoint::new(512, 512);
    arc[2] = FixedPoint::new(0, 0);
    split_quad(&mut arc, 0);
    assert_eq!(arc[4], FixedPoint::new(0, 0), "start is kept");
    assert_eq!(arc[3], FixedPoint::new(256, 256), "first leg midpoint");
    assert_eq!(arc[2], FixedPoint::new(512, 256), "curve midpoint");
    assert_eq!(arc[1], FixedPoint::new(768, 256), "second leg midpoint");
    assert_eq!(arc[0], FixedPoint::new(1024, 0), "end is kept");
}

#[test]
fn small_buf_spills_to_the_heap() {
    let mut buf: SmallBuf<u32> = SmallBuf::new();
    assert_eq!(buf.data(), &[] as &[u32]);
    for i in 0..200u32 {
        buf.push(i);
    }
    let data = buf.data();
    assert_eq!(data.len(), 200);
    for i in 0..200usize {
        assert_eq!(data[i], i as u32);
    }
    buf.clear();
    assert_eq!(buf.data().len(), 0);
    buf.push(7);
    assert_eq!(buf.data(), &[7u32][..]);
}

#[test]
fn validate_svg_accepts_a_cubic() {
    assert_eq!(validate_svg("M10,10 C20,0 40,0 50,10"), Ok(()));
}

#[test]
fn validate_svg_reports_the_bad_byte() {
    assert_eq!(validate_svg("M10,10 X"), Err(7));
    assert_eq!(validate_svg("X"), Err(0));
}

#[test]
fn validate_svg_accepts_the_empty_path() {
    assert_eq!(validate_svg(""), Ok(()));
    assert_eq!(validate_svg("  "), Ok(()));
}

#[test]
fn validate_svg_walks_every_command_kind() {
    assert_eq!(validate_svg("M1,2 L3,4 H5 V6 C1,2 3,4 5,6 S7,8 9,10 Q1,2 3,4 T5,6 Z"), Ok(()));
    assert_eq!(validate_svg("m1,2 l3,4 h5 v6 c1,2 3,4 5,6 s7,8 9,10 q1,2 3,4 t5,6 z"), Ok(()));
    assert_eq!(validate_svg("M1,1 A10,10 0 0 1 20,20"), Ok(()));
    assert_eq!(validate_svg("M1,1 2,2 3,3"), Ok(()), "implicit line continuations");
}

#[test]
fn validate_svg_rejects_malformed_numbers() {
    assert_eq!(validate_svg("M.,1"), Err(2), "a lone dot is no number");
    // Thirty-three digits overflow the number scanner.
    assert_eq!(validate_svg("M111111111111111111111111111111111,1"), Err(33));
    // Thirty-two digits still fit.
    assert_eq!(validate_svg("M11111111111111111111111111111111,1"), Ok(()));
}

#[test]
fn scan_svg_yields_spans_and_flags() {
    let src = b"M1,2 -3.5,4 A10,10 0 0 1 20,20";
    let scan = scan_svg(src);
    assert!(!scan.error);
    assert_eq!(scan.pos, src.len());
    assert_eq!(scan.cmds.len(), 3);
    assert_eq!(scan.cmds[0].op, b'M');
    assert!(!scan.cmds[0].implicit);
    assert_eq!(scan.cmds[0].args.len(), 2);
    match scan.cmds[0].args[0] {
        SvgArg::Num(n) => {
            assert!(!n.neg);
            assert_eq!(&src[n.start..n.end], b"1");
        }
        _ => panic!("expected a number"),
    }
    assert_eq!(scan.cmds[1].op, b'M');
    assert!(scan.cmds[1].implicit, "the second pair continues the move as a line");
    match scan.cmds[1].args[0] {
        SvgArg::Num(n) => {
            assert!(n.neg);
            assert_eq!(&src[n.start..n.end], b"3.5");
        }
        _ => panic!("expected a number"),
    }
    assert_eq!(scan.cmds[2].op, b'A');
    assert_eq!(scan.cmds[2].args.len(), 7);
    assert!(matches!(scan.cmds[2].args[3], SvgArg::Flag(false)));
    assert!(matches!(scan.cmds[2].args[4], SvgArg::Flag(true)));
}

#[test]
fn plain_data_types_round_trip() {
    let p = Placement::default();
    assert_eq!(p.width, 0);
    assert_eq!(Origin::default(), Origin::TopLeft);
    assert!(Origin::BottomLeft != Origin::TopLeft);
    assert_eq!(Verb::Close, Verb::Close);
    assert!(Fill::NonZero != Fill::EvenOdd);
    assert!(Join::Miter != Join::Round);
    assert!(Cap::Butt != Cap::Square);
    assert!(ArcSize::Small != ArcSize::Large);
    assert!(ArcSweep::Positive != ArcSweep::Negative);
}
