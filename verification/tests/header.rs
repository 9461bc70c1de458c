use mtpng::plan::Plan;
use mtpng::{ColorType, ErrorKind, Header, Options};

#[test]
fn fresh_header_is_one_rgba_pixel() {
    let h = Header::new();
    assert_eq!((h.width, h.height, h.depth), (1, 1, 8));
    assert_eq!(h.color_type, ColorType::TruecolorAlpha);
    assert!(h.is_valid());
}

#[test]
fn size_must_be_positive_and_below_two_to_the_31() {
    let mut h = Header::new();
    assert!(h.set_size(0x7fff_ffff, 1).is_ok());
    assert_eq!(h.width, 0x7fff_ffff);
    for (w, hh) in [(0u32, 1u32), (1, 0), (0x8000_0000, 1), (1, 0xffff_ffff)] {
        let e = h.set_size(w, hh).unwrap_err();
        assert_eq!(e.kind(), ErrorKind::InvalidInput);
    }
    assert_eq!((h.width, h.height), (0x7fff_ffff, 1));
}

#[test]
fn color_and_depth_follow_the_png_table() {
    let all = [
        ColorType::Greyscale,
        ColorType::Truecolor,
        ColorType::IndexedColor,
        ColorType::GreyscaleAlpha,
        ColorType::TruecolorAlpha,
    ];
    for color in all {
        for depth in 0..=17u8 {
            let allowed: &[u8] = match color {
                ColorType::Greyscale => &[1, 2, 4, 8, 16],
                ColorType::IndexedColor => &[1, 2, 4, 8],
                _ => &[8, 16],
            };
            let mut h = Header::new();
            let r = h.set_color(color, depth);
            assert_eq!(r.is_ok(), allowed.contains(&depth));
            if let Err(e) = r {
                assert_eq!(e.kind(), ErrorKind::InvalidInput);
                assert_eq!(h.color_type, ColorType::TruecolorAlpha);
            }
        }
    }
}

#[test]
fn color_type_codes() {
    for (code, color) in [
        (0u8, ColorType::Greyscale),
        (2, ColorType::Truecolor),
        (3, ColorType::IndexedColor),
        (4, ColorType::GreyscaleAlpha),
        (6, ColorType::TruecolorAlpha),
    ] {
        assert_eq!(ColorType::try_from(code).unwrap(), color);
        assert_eq!(color.to_u8(), code);
    }
    for code in [1u8, 5, 7, 255] {
        assert_eq!(ColorType::try_from(code).unwrap_err().kind(), ErrorKind::InvalidInput);
    }
}

fn sized(width: u32, color: ColorType, depth: u8) -> Header {
    let mut h = Header::new();
    h.set_size(width, 1).unwrap();
    h.set_color(color, depth).unwrap();
    h
}

#[test]
fn bytes_per_row_round_up() {
    assert_eq!(sized(5, ColorType::Greyscale, 1).stride(), 1);
    assert_eq!(sized(9, ColorType::Greyscale, 1).stride(), 2);
    assert_eq!(sized(3, ColorType::IndexedColor, 4).stride(), 2);
    assert_eq!(sized(3, ColorType::Truecolor, 16).stride(), 18);
    assert_eq!(sized(1024, ColorType::TruecolorAlpha, 8).stride(), 4096);
    assert_eq!(sized(0x7fff_ffff, ColorType::TruecolorAlpha, 16).stride(), 0x3_ffff_fff8);
}

#[test]
fn bytes_per_pixel_is_at_least_one() {
    assert_eq!(sized(5, ColorType::Greyscale, 1).bpp(), 1);
    assert_eq!(sized(5, ColorType::IndexedColor, 4).bpp(), 1);
    assert_eq!(sized(5, ColorType::GreyscaleAlpha, 8).bpp(), 2);
    assert_eq!(sized(5, ColorType::Truecolor, 8).bpp(), 3);
    assert_eq!(sized(5, ColorType::Truecolor, 16).bpp(), 6);
    assert_eq!(sized(5, ColorType::TruecolorAlpha, 16).bpp(), 8);
}

fn plan(height: u32, chunk_size: usize) -> Plan {
    let mut h = Header::new();
    h.set_size(1, height).unwrap();
    h.set_color(ColorType::TruecolorAlpha, 8).unwrap();
    let mut options = Options::new();
    options.set_chunk_size(chunk_size).unwrap();
    Plan::new(&h, &options.settings()).unwrap()
}

#[test]
fn groups_hold_as_many_rows_as_fit_the_chunk_size() {
    let p = plan(10, 8);
    assert_eq!((p.stride, p.group_rows, p.groups()), (4, 2, 5));
    assert_eq!(p.first_row(0), 0);
    assert_eq!(p.first_row(3), 6);
    assert_eq!(p.first_row(5), 10);
}

#[test]
fn last_group_may_be_shorter() {
    let p = plan(10, 12);
    assert_eq!((p.group_rows, p.groups()), (3, 4));
    assert_eq!(p.first_row(3), 9);
    assert_eq!(p.first_row(4), 10);
}

#[test]
fn a_group_has_at_least_one_row() {
    let p = plan(10, 1);
    assert_eq!((p.group_rows, p.groups()), (1, 10));
    let p = plan(3, 1_000_000);
    assert_eq!(p.groups(), 1);
    assert_eq!(p.first_row(1), 3);
    assert_eq!(p.first_row(7), 3);
}

#[test]
fn plan_refuses_a_bad_header() {
    let mut h = Header::new();
    h.depth = 3;
    let options = Options::new();
    assert_eq!(Plan::new(&h, &options.settings()).unwrap_err().kind(), ErrorKind::InvalidInput);
}
