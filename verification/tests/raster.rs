use rasterize_text::compute_extents;
use rasterize_text::plan::legacy_width;
use rasterize_text::rasterize_glyphs;
use rasterize_text::Color;
use rasterize_text::Extents;
use rasterize_text::GlyphBox;
use rasterize_text::PlannedGlyph;
use rasterize_text::Sample;

fn filled_glyph(min_x: i32, min_y: i32, max_x: i32, max_y: i32, pixel: Color) -> PlannedGlyph {
    let mut samples = Vec::new();
    let w = (max_x - min_x) as u32;
    let h = (max_y - min_y) as u32;
    for y in 0..h {
        for x in 0..w {
            samples.push(Sample { x, y, pixel });
        }
    }
    PlannedGlyph {
        bounds: Some(GlyphBox { min_x, min_y, max_x, max_y }),
        samples,
    }
}

const RED: Color = Color { r: 255, g: 0, b: 0, a: 255 };
const BLUE: Color = Color { r: 0, g: 0, b: 255, a: 212 };
const CLEAR: Color = Color { r: 0, g: 0, b: 0, a: 0 };

#[test]
fn empty_layout_yields_zero_canvas() {
    let img = rasterize_glyphs(&Vec::new());
    assert_eq!(img.width(), 0);
    assert_eq!(img.height(), 0);
    assert_eq!(img.into_raw_pixels().len(), 0);
}

#[test]
fn glyph_without_bounds_contributes_nothing() {
    let glyphs = vec![PlannedGlyph { bounds: None, samples: Vec::new() }];
    let img = rasterize_glyphs(&glyphs);
    assert_eq!(img.width(), 0);
    assert_eq!(img.height(), 0);
}

#[test]
fn extents_span_all_boxes() {
    let glyphs = vec![
        filled_glyph(-2, 0, 3, 1, RED),
        PlannedGlyph { bounds: None, samples: Vec::new() },
        filled_glyph(4, -1, 6, 5, BLUE),
    ];
    let e = compute_extents(&glyphs);
    assert_eq!(e, Extents { min_x: -2, max_x: 6, min_y: -1, max_y: 5 });
    let img = rasterize_glyphs(&glyphs);
    assert_eq!(img.width(), 8);
    assert_eq!(img.height(), 6);
}

#[test]
fn unwritten_pixels_stay_transparent() {
    // One 1x1 glyph at (2, 1) inside a 4x3 canvas made by a second,
    // sample-free glyph's bounding box.
    let glyphs = vec![
        PlannedGlyph {
            bounds: Some(GlyphBox { min_x: 0, min_y: 0, max_x: 4, max_y: 3 }),
            samples: vec![Sample { x: 2, y: 1, pixel: RED }],
        },
    ];
    let img = rasterize_glyphs(&glyphs);
    assert_eq!(img.width(), 4);
    assert_eq!(img.height(), 3);
    for y in 0..3u32 {
        for x in 0..4u32 {
            let expect = if x == 2 && y == 1 {
                (255, 0, 0, 255)
            } else {
                (0, 0, 0, 0)
            };
            assert_eq!(img.get_pixel(x, y), expect);
        }
    }
}

#[test]
fn negative_origin_is_clamped_to_column_zero() {
    // A lone leading glyph whose ink starts left of the pen origin,
    // as a "T" with negative left side-bearing does: the canvas
    // reserves the overhang, but the ink lands at column zero.
    let glyphs = vec![filled_glyph(-2, 0, 3, 2, RED)];
    let img = rasterize_glyphs(&glyphs);
    assert_eq!(img.width(), 5);
    assert_eq!(img.height(), 2);
    assert_eq!(img.get_pixel(0, 0), (255, 0, 0, 255));
    assert_eq!(img.get_pixel(4, 0), (255, 0, 0, 255));
}

#[test]
fn first_writer_wins_on_overlap() {
    // Two glyphs overlap on columns 2..4; the earlier glyph's pixels
    // stay.
    let glyphs = vec![
        filled_glyph(0, 0, 4, 1, RED),
        filled_glyph(2, 0, 6, 1, BLUE),
    ];
    let img = rasterize_glyphs(&glyphs);
    assert_eq!(img.width(), 6);
    assert_eq!(img.get_pixel(2, 0), (255, 0, 0, 255));
    assert_eq!(img.get_pixel(3, 0), (255, 0, 0, 255));
    assert_eq!(img.get_pixel(4, 0), (0, 0, 255, 212));
}

#[test]
fn transparent_sample_does_not_claim_a_pixel() {
    // The first glyph writes the default pixel (zero coverage); the
    // pixel still counts as unwritten, so the second glyph paints it.
    let glyphs = vec![
        filled_glyph(0, 0, 2, 1, CLEAR),
        filled_glyph(0, 0, 2, 1, BLUE),
    ];
    let img = rasterize_glyphs(&glyphs);
    assert_eq!(img.get_pixel(0, 0), (0, 0, 255, 212));
    assert_eq!(img.get_pixel(1, 0), (0, 0, 255, 212));
}

#[test]
fn rasterization_is_deterministic() {
    let make = || vec![
        filled_glyph(-1, 0, 2, 2, RED),
        filled_glyph(1, -1, 4, 3, BLUE),
    ];
    let a = rasterize_glyphs(&make()).into_raw_pixels();
    let b = rasterize_glyphs(&make()).into_raw_pixels();
    assert_eq!(a, b);
}

#[test]
fn raw_pixels_are_row_major_rgba() {
    let glyphs = vec![
        PlannedGlyph {
            bounds: Some(GlyphBox { min_x: 0, min_y: 0, max_x: 2, max_y: 2 }),
            samples: vec![Sample { x: 1, y: 0, pixel: BLUE }],
        },
    ];
    let raw = rasterize_glyphs(&glyphs).into_raw_pixels();
    assert_eq!(raw.len(), 16);
    assert_eq!(&raw[0..4], &[0, 0, 0, 0]);
    assert_eq!(&raw[4..8], &[0, 0, 255, 212]);
    assert_eq!(&raw[8..16], &[0, 0, 0, 0, 0, 0, 0, 0]);
}

#[test]
fn legacy_width_uses_span_only_for_negative_origins() {
    assert_eq!(legacy_width(&Extents { min_x: 0, max_x: 7, min_y: 0, max_y: 1 }), 7);
    assert_eq!(legacy_width(&Extents { min_x: -2, max_x: 7, min_y: 0, max_y: 1 }), 9);
}

#[test]
fn plan_fits_accepts_well_formed_glyphs() {
    let glyphs = vec![filled_glyph(-1, 0, 2, 2, RED)];
    assert!(rasterize_text::raster::plan_fits(&glyphs));
    assert!(rasterize_text::raster::plan_fits(&Vec::new()));
}

#[test]
fn plan_fits_rejects_sample_outside_its_box() {
    let glyphs = vec![PlannedGlyph {
        bounds: Some(GlyphBox { min_x: 0, min_y: 0, max_x: 2, max_y: 2 }),
        samples: vec![Sample { x: 2, y: 0, pixel: RED }],
    }];
    assert!(!rasterize_text::raster::plan_fits(&glyphs));
}

#[test]
fn plan_fits_rejects_unordered_box() {
    let glyphs = vec![PlannedGlyph {
        bounds: Some(GlyphBox { min_x: 3, min_y: 0, max_x: 1, max_y: 2 }),
        samples: Vec::new(),
    }];
    assert!(!rasterize_text::raster::plan_fits(&glyphs));
}

#[test]
fn composite_into_uses_the_given_dimensions() {
    // A metrics-driven canvas may be shorter than the ink: samples
    // aimed below the given height are left out, the rest stay.
    let glyphs = vec![filled_glyph(0, 0, 2, 4, RED)];
    let img = rasterize_text::composite_into(2, 3, &glyphs);
    assert_eq!(img.width(), 2);
    assert_eq!(img.height(), 3);
    for y in 0..3u32 {
        for x in 0..2u32 {
            assert_eq!(img.get_pixel(x, y), (255, 0, 0, 255));
        }
    }
}

#[test]
fn negative_vertical_origin_is_clamped_to_row_zero() {
    // Ink rising above the ascent origin is clamped to row zero on
    // the vertical axis, exactly as on the horizontal one.
    let glyphs = vec![filled_glyph(0, -1, 2, 2, BLUE)];
    let img = rasterize_glyphs(&glyphs);
    assert_eq!(img.width(), 2);
    assert_eq!(img.height(), 3);
    assert_eq!(img.get_pixel(0, 0), (0, 0, 255, 212));
    assert_eq!(img.get_pixel(0, 2), (0, 0, 255, 212));
}

#[test]
fn glyphs_well_formed_matches_plan_fits_on_shape() {
    let good = vec![filled_glyph(-1, 0, 2, 2, RED)];
    assert!(rasterize_text::glyphs_well_formed(&good));
    let bad = vec![PlannedGlyph {
        bounds: Some(GlyphBox { min_x: 0, min_y: 0, max_x: 1, max_y: 1 }),
        samples: vec![Sample { x: 1, y: 0, pixel: RED }],
    }];
    assert!(!rasterize_text::glyphs_well_formed(&bad));
}
