//! The glyph compositor: maps coverage samples to canvas pixels and
//! writes them into an RGBA buffer under a first-writer-wins rule.

use crate::color::Color;
use crate::plan::compute_extents;
use crate::plan::extents_of;
use crate::plan::height_of;
use crate::plan::lemma_extents_bracket_zero;
use crate::plan::lemma_extents_cover;
use crate::plan::width_of;
use crate::plan::Extents;
use crate::plan::GlyphBox;
use crate::plan::PlannedGlyph;
use crate::plan::Sample;
use vstd::prelude::*;

verus! {

/// The canvas: a dense row-major RGBA buffer of the `image` crate,
/// held opaquely and reached only through the contracts below.
#[verifier::external_body]
pub struct Raster {
    buf: image::ImageBuffer<image::Rgba<u8>, Vec<u8>>,
}

/// The pixel grid a raster holds, keyed by column and row.
pub uninterp spec fn pixels_of(b: Raster) -> Map<(int, int), (u8, u8, u8, u8)>;

/// The width and height a raster was created with.
pub uninterp spec fn dims_of(b: Raster) -> (u32, u32);

/// The transparent default pixel.
pub open spec fn blank_px() -> (u8, u8, u8, u8) {
    (0u8, 0u8, 0u8, 0u8)
}

/// The blank canvas grid: every position of a width-by-height
/// rectangle holds the transparent default.
pub open spec fn blank_pixels(w: int, h: int) -> Map<(int, int), (u8, u8, u8, u8)> {
    Map::new(|k: (int, int)| 0 <= k.0 < w && 0 <= k.1 < h, |k: (int, int)| blank_px())
}

/// Relies on image::ImageBuffer::new: builds a width-by-height RGBA
/// buffer whose subpixels are all zero, fully transparent black.
#[verifier::external_body]
fn raster_new(width: u32, height: u32) -> (b: Raster)
    requires
        4 * (width as int) <= usize::MAX as int,
        (width as int) * (height as int) * 4 <= usize::MAX as int,
    ensures
        dims_of(b) == (width, height),
        pixels_of(b) == blank_pixels(width as int, height as int),
{
    Raster { buf: image::ImageBuffer::new(width, height) }
}

/// Relies on image::ImageBuffer::get_pixel: reads the pixel at an
/// in-bounds position.
#[verifier::external_body]
fn raster_get(b: &Raster, x: u32, y: u32) -> (p: (u8, u8, u8, u8))
    requires
        x < dims_of(*b).0,
        y < dims_of(*b).1,
    ensures
        p == pixels_of(*b)[(x as int, y as int)],
{
    let q = b.buf.get_pixel(x, y);
    (q.0[0], q.0[1], q.0[2], q.0[3])
}

/// Relies on image::ImageBuffer::put_pixel: replaces the pixel at an
/// in-bounds position and changes nothing else.
#[verifier::external_body]
fn raster_put(b: &mut Raster, x: u32, y: u32, p: (u8, u8, u8, u8))
    requires
        x < dims_of(*old(b)).0,
        y < dims_of(*old(b)).1,
    ensures
        dims_of(*final(b)) == dims_of(*old(b)),
        pixels_of(*final(b)) == pixels_of(*old(b)).insert((x as int, y as int), p),
{
    b.buf.put_pixel(x, y, image::Rgba([p.0, p.1, p.2, p.3]))
}

/// Relies on image::ImageBuffer::into_raw and the documented layout:
/// the pixels stand row by row, each as its four channels in order.
#[verifier::external_body]
fn raster_into_raw(b: Raster) -> (v: Vec<u8>)
    ensures
        v@.len() == 4 * (dims_of(b).0 as int) * (dims_of(b).1 as int),
        forall|x: int, y: int|
            0 <= x < dims_of(b).0 as int && 0 <= y < dims_of(b).1 as int
                && pixels_of(b).dom().contains((x, y)) ==> {
                let p = pixels_of(b)[(x, y)];
                let base = 4 * (y * (dims_of(b).0 as int) + x);
                v@[base] == p.0 && v@[base + 1] == p.1 && v@[base + 2] == p.2 && v@[base + 3]
                    == p.3
            },
{
    b.buf.into_raw()
}

/// Relies on image::ImageBuffer::width: it returns the width the
/// buffer was created with.
#[verifier::external_body]
fn raster_width(b: &Raster) -> (w: u32)
    ensures
        w == dims_of(*b).0,
{
    b.buf.width()
}

/// Relies on image::ImageBuffer::height: it returns the height the
/// buffer was created with.
#[verifier::external_body]
fn raster_height(b: &Raster) -> (h: u32)
    ensures
        h == dims_of(*b).1,
{
    b.buf.height()
}

impl Raster {
    /// The width of the canvas.
    pub fn width(&self) -> (w: u32)
        ensures
            w == dims_of(*self).0,
    {
        raster_width(self)
    }

    /// The height of the canvas.
    pub fn height(&self) -> (h: u32)
        ensures
            h == dims_of(*self).1,
    {
        raster_height(self)
    }

    /// The pixel at an in-bounds position, as its four channels.
    pub fn get_pixel(&self, x: u32, y: u32) -> (p: (u8, u8, u8, u8))
        requires
            x < dims_of(*self).0,
            y < dims_of(*self).1,
        ensures
            p == pixels_of(*self)[(x as int, y as int)],
    {
        raster_get(self, x, y)
    }

    /// The raw bytes of the canvas, row-major, four channels per
    /// pixel.
    pub fn into_raw_pixels(self) -> (v: Vec<u8>)
        ensures
            v@.len() == 4 * (dims_of(self).0 as int) * (dims_of(self).1 as int),
            forall|x: int, y: int|
                0 <= x < dims_of(self).0 as int && 0 <= y < dims_of(self).1 as int
                    && pixels_of(self).dom().contains((x, y)) ==> {
                    let p = pixels_of(self)[(x, y)];
                    let base = 4 * (y * (dims_of(self).0 as int) + x);
                    v@[base] == p.0 && v@[base + 1] == p.1 && v@[base + 2] == p.2 && v@[base + 3]
                        == p.3
                },
    {
        raster_into_raw(self)
    }
}

/// One coverage sample carried to canvas coordinates.
pub struct AbsSample {
    pub cx: int,
    pub cy: int,
    pub pixel: (u8, u8, u8, u8),
}

/// The four channels of a color as a plain tuple.
pub open spec fn rgba_of(c: Color) -> (u8, u8, u8, u8) {
    (c.r, c.g, c.b, c.a)
}

/// The canvas column of a sample: a non-negative box origin shifts
/// the sample by it; a negative origin is clamped to zero, placing
/// that glyph's leftmost ink at column zero.
pub open spec fn canvas_x(b: GlyphBox, sx: u32) -> int {
    if b.min_x >= 0 {
        sx + b.min_x
    } else {
        sx as int
    }
}

/// The canvas row of a sample, clamped like the column.
pub open spec fn canvas_y(b: GlyphBox, sy: u32) -> int {
    if b.min_y >= 0 {
        sy + b.min_y
    } else {
        sy as int
    }
}

/// The samples of one glyph in canvas coordinates; a glyph without a
/// bounding box contributes none.
pub open spec fn abs_samples_of(g: PlannedGlyph) -> Seq<AbsSample> {
    match g.bounds {
        None => Seq::empty(),
        Some(b) => g.samples@.map_values(
            |s: Sample|
                AbsSample { cx: canvas_x(b, s.x), cy: canvas_y(b, s.y), pixel: rgba_of(s.pixel) },
        ),
    }
}

/// All samples of a glyph sequence, in layout order.
pub open spec fn flat_samples(glyphs: Seq<PlannedGlyph>) -> Seq<AbsSample>
    decreases glyphs.len(),
{
    if glyphs.len() == 0 {
        Seq::empty()
    } else {
        flat_samples(glyphs.drop_last()) + abs_samples_of(glyphs.last())
    }
}

/// Writing one sample under the first-writer-wins rule: the pixel is
/// stored only where the canvas still holds the transparent default.
pub open spec fn write_sample(
    m: Map<(int, int), (u8, u8, u8, u8)>,
    s: AbsSample,
) -> Map<(int, int), (u8, u8, u8, u8)> {
    if m.dom().contains((s.cx, s.cy)) && m[(s.cx, s.cy)] == blank_px() {
        m.insert((s.cx, s.cy), s.pixel)
    } else {
        m
    }
}

/// Writing a sample sequence in order.
pub open spec fn write_all(
    m: Map<(int, int), (u8, u8, u8, u8)>,
    ss: Seq<AbsSample>,
) -> Map<(int, int), (u8, u8, u8, u8)>
    decreases ss.len(),
{
    if ss.len() == 0 {
        m
    } else {
        write_sample(write_all(m, ss.drop_last()), ss.last())
    }
}

/// The rasterization model: every coverage sample of every glyph, in
/// layout order, written first-writer-wins into a blank canvas whose
/// dimensions span the extents.
pub open spec fn spec_rasterize(glyphs: Seq<PlannedGlyph>) -> Map<(int, int), (u8, u8, u8, u8)> {
    write_all(
        blank_pixels(width_of(extents_of(glyphs)), height_of(extents_of(glyphs))),
        flat_samples(glyphs),
    )
}

/// A well-formed planned glyph: its box is ordered and its samples
/// lie within the box, as the font engine's rasterizer yields them.
pub open spec fn glyph_wf(g: PlannedGlyph) -> bool {
    g.bounds matches Some(b) ==> (b.min_x <= b.max_x && b.min_y <= b.max_y && (forall|i: int|
        0 <= i < g.samples@.len() ==> ((g.samples@[i].x as int) < b.max_x - b.min_x
            && (g.samples@[i].y as int) < b.max_y - b.min_y)))
}

/// A sample within a box that the extents cover lands inside the
/// canvas, on both axes, clamped or not.
proof fn lemma_sample_in_canvas(e: Extents, b: GlyphBox, sx: u32, sy: u32)
    requires
        e.min_x <= 0 <= e.max_x,
        e.min_y <= 0 <= e.max_y,
        e.min_x <= b.min_x,
        b.max_x <= e.max_x,
        e.min_y <= b.min_y,
        b.max_y <= e.max_y,
        (sx as int) < b.max_x - b.min_x,
        (sy as int) < b.max_y - b.min_y,
    ensures
        0 <= canvas_x(b, sx) < width_of(e),
        0 <= canvas_y(b, sy) < height_of(e),
{
}

/// Writing samples never adds or removes canvas positions.
proof fn lemma_write_all_dom(m: Map<(int, int), (u8, u8, u8, u8)>, ss: Seq<AbsSample>)
    ensures
        write_all(m, ss).dom() == m.dom(),
    decreases ss.len(),
{
    if ss.len() > 0 {
        lemma_write_all_dom(m, ss.drop_last());
        let w = write_all(m, ss.drop_last());
        let s = ss.last();
        if w.dom().contains((s.cx, s.cy)) && w[(s.cx, s.cy)] == blank_px() {
            assert(w.insert((s.cx, s.cy), s.pixel).dom() =~= w.dom());
        }
    }
}

/// Whether one glyph satisfies what the compositor asks of it.
fn glyph_ok(g: &PlannedGlyph) -> (ok: bool)
    ensures
        ok == glyph_wf(*g),
{
    match g.bounds {
        None => true,
        Some(b) => {
            if b.min_x > b.max_x || b.min_y > b.max_y {
                return false;
            }
            let bw = (b.max_x as i64) - (b.min_x as i64);
            let bh = (b.max_y as i64) - (b.min_y as i64);
            let mut i: usize = 0;
            while i < g.samples.len()
                invariant
                    i <= g.samples@.len(),
                    g.bounds == Some(b),
                    b.min_x <= b.max_x && b.min_y <= b.max_y,
                    bw == b.max_x - b.min_x,
                    bh == b.max_y - b.min_y,
                    forall|j: int|
                        0 <= j < i ==> ((g.samples@[j].x as int) < b.max_x - b.min_x && (
                        g.samples@[j].y as int) < b.max_y - b.min_y),
                decreases g.samples@.len() - i,
            {
                let s = g.samples[i];
                if (s.x as i64) >= bw || (s.y as i64) >= bh {
                    return false;
                }
                i = i + 1;
            }
            true
        },
    }
}

/// Whether every planned glyph has an ordered bounding box with its
/// samples inside it, as the compositor asks.
pub fn glyphs_well_formed(glyphs: &Vec<PlannedGlyph>) -> (ok: bool)
    ensures
        ok == (forall|i: int| 0 <= i < glyphs@.len() ==> glyph_wf(glyphs@[i])),
{
    let mut i: usize = 0;
    while i < glyphs.len()
        invariant
            i <= glyphs@.len(),
            forall|j: int| 0 <= j < i ==> glyph_wf(glyphs@[j]),
        decreases glyphs@.len() - i,
    {
        if !glyph_ok(&glyphs[i]) {
            return false;
        }
        i = i + 1;
    }
    true
}

/// Whether planned glyphs satisfy everything `rasterize_glyphs`
/// asks: ordered bounding boxes, samples inside their boxes, and a
/// canvas over the extents that fits in memory. The rendering
/// front-end checks this before it composites.
pub fn plan_fits(glyphs: &Vec<PlannedGlyph>) -> (ok: bool)
    ensures
        ok == ((forall|i: int| 0 <= i < glyphs@.len() ==> glyph_wf(glyphs@[i])) && 4 * width_of(
            extents_of(glyphs@),
        ) <= usize::MAX as int && width_of(extents_of(glyphs@)) * height_of(extents_of(glyphs@))
            * 4 <= usize::MAX as int),
{
    if !glyphs_well_formed(glyphs) {
        return false;
    }
    let e = compute_extents(glyphs);
    proof {
        lemma_extents_bracket_zero(glyphs@);
    }
    let w = ((e.max_x as i64) - (e.min_x as i64)) as u128;
    let h = ((e.max_y as i64) - (e.min_y as i64)) as u128;
    proof {
        assert(w == width_of(extents_of(glyphs@)));
        assert(h == height_of(extents_of(glyphs@)));
        assert(w <= 0xffff_ffff && h <= 0xffff_ffff);
        vstd::arithmetic::mul::lemma_mul_upper_bound(w as int, 0xffff_ffff, h as int, 0xffff_ffff);
    }
    4 * w <= (usize::MAX as u128) && w * h * 4 <= (usize::MAX as u128)
}

/// The pixel that the first-writer-wins rule leaves at a position:
/// the pixel of the earliest sample aimed there whose pixel is not
/// the transparent default, or the default when there is none.
pub open spec fn first_ink(ss: Seq<AbsSample>, cx: int, cy: int) -> (u8, u8, u8, u8)
    decreases ss.len(),
{
    if ss.len() == 0 {
        blank_px()
    } else if ss[0].cx == cx && ss[0].cy == cy && ss[0].pixel != blank_px() {
        ss[0].pixel
    } else {
        first_ink(ss.drop_first(), cx, cy)
    }
}

/// How the first ink at a position changes when one sample is
/// appended: not at all once ink stands there.
proof fn lemma_first_ink_push(ss: Seq<AbsSample>, e: AbsSample, cx: int, cy: int)
    ensures
        first_ink(ss.push(e), cx, cy) == (if first_ink(ss, cx, cy) != blank_px() {
            first_ink(ss, cx, cy)
        } else if e.cx == cx && e.cy == cy && e.pixel != blank_px() {
            e.pixel
        } else {
            blank_px()
        }),
    decreases ss.len(),
{
    if ss.len() == 0 {
        assert(ss.push(e)[0] == e);
        assert(ss.push(e).drop_first() =~= Seq::<AbsSample>::empty());
        assert(first_ink(Seq::<AbsSample>::empty(), cx, cy) == blank_px());
        assert(first_ink(ss, cx, cy) == blank_px());
    } else {
        assert(ss.push(e)[0] == ss[0]);
        assert(ss.push(e).drop_first() =~= ss.drop_first().push(e));
        lemma_first_ink_push(ss.drop_first(), e, cx, cy);
        if ss[0].cx == cx && ss[0].cy == cy && ss[0].pixel != blank_px() {
            assert(first_ink(ss.push(e), cx, cy) == ss[0].pixel);
            assert(first_ink(ss, cx, cy) == ss[0].pixel);
        } else {
            assert(first_ink(ss.push(e), cx, cy) == first_ink(ss.drop_first().push(e), cx, cy));
            assert(first_ink(ss, cx, cy) == first_ink(ss.drop_first(), cx, cy));
        }
    }
}

/// Writing samples over a position that starts blank leaves exactly
/// the first ink aimed there.
proof fn lemma_write_all_ink(
    m: Map<(int, int), (u8, u8, u8, u8)>,
    ss: Seq<AbsSample>,
    cx: int,
    cy: int,
)
    requires
        m.dom().contains((cx, cy)),
        m[(cx, cy)] == blank_px(),
    ensures
        write_all(m, ss).dom().contains((cx, cy)),
        write_all(m, ss)[(cx, cy)] == first_ink(ss, cx, cy),
    decreases ss.len(),
{
    lemma_write_all_dom(m, ss);
    if ss.len() > 0 {
        let init = ss.drop_last();
        let s = ss.last();
        lemma_write_all_ink(m, init, cx, cy);
        lemma_write_all_dom(m, init);
        assert(ss =~= init.push(s));
        lemma_first_ink_push(init, s, cx, cy);
        let w = write_all(m, init);
        assert(write_all(m, ss) == write_sample(w, s));
    }
}

/// Canvas defaults and first-writer-wins: in the finished canvas
/// every position holds either the transparent default or the pixel
/// of the earliest coverage sample, in layout order, that aimed ink
/// at it; samples that come later never repaint it.
pub proof fn lemma_first_writer_wins(glyphs: Seq<PlannedGlyph>, cx: int, cy: int)
    requires
        0 <= cx < width_of(extents_of(glyphs)),
        0 <= cy < height_of(extents_of(glyphs)),
    ensures
        spec_rasterize(glyphs).dom().contains((cx, cy)),
        spec_rasterize(glyphs)[(cx, cy)] == first_ink(flat_samples(glyphs), cx, cy),
{
    let blank = blank_pixels(width_of(extents_of(glyphs)), height_of(extents_of(glyphs)));
    assert(blank.dom().contains((cx, cy)));
    lemma_write_all_ink(blank, flat_samples(glyphs), cx, cy);
}

/// An inked position names the one sample that produced it.
pub proof fn lemma_ink_from_some_sample(ss: Seq<AbsSample>, cx: int, cy: int)
    requires
        first_ink(ss, cx, cy) != blank_px(),
    ensures
        exists|i: int|
            0 <= i < ss.len() && ss[i].cx == cx && ss[i].cy == cy && ss[i].pixel == first_ink(
                ss,
                cx,
                cy,
            ),
    decreases ss.len(),
{
    if ss[0].cx == cx && ss[0].cy == cy && ss[0].pixel != blank_px() {
        assert(0 <= 0 < ss.len() && ss[0].cx == cx && ss[0].cy == cy && ss[0].pixel == first_ink(
            ss,
            cx,
            cy,
        ));
    } else {
        lemma_ink_from_some_sample(ss.drop_first(), cx, cy);
        let j = choose|j: int|
            0 <= j < ss.drop_first().len() && ss.drop_first()[j].cx == cx && ss.drop_first()[j].cy
                == cy && ss.drop_first()[j].pixel == first_ink(ss.drop_first(), cx, cy);
        assert(ss[j + 1] == ss.drop_first()[j]);
    }
}

/// No out-of-bounds writes: the rasterization holds exactly the
/// positions of the blank canvas it started from.
pub proof fn lemma_no_out_of_bounds(glyphs: Seq<PlannedGlyph>)
    ensures
        spec_rasterize(glyphs).dom() == blank_pixels(
            width_of(extents_of(glyphs)),
            height_of(extents_of(glyphs)),
        ).dom(),
{
    lemma_write_all_dom(
        blank_pixels(width_of(extents_of(glyphs)), height_of(extents_of(glyphs))),
        flat_samples(glyphs),
    );
}

/// No out-of-bounds writes: every coverage sample of well-formed
/// glyphs, carried to canvas coordinates, falls inside the canvas
/// that spans their extents.
pub proof fn lemma_samples_in_bounds(glyphs: Seq<PlannedGlyph>, i: int)
    requires
        forall|k: int| 0 <= k < glyphs.len() ==> glyph_wf(glyphs[k]),
        0 <= i < flat_samples(glyphs).len(),
    ensures
        0 <= flat_samples(glyphs)[i].cx < width_of(extents_of(glyphs)),
        0 <= flat_samples(glyphs)[i].cy < height_of(extents_of(glyphs)),
    decreases glyphs.len(),
{
    let init = glyphs.drop_last();
    let last = glyphs.last();
    let ff = flat_samples(init);
    let aa = abs_samples_of(last);
    assert(flat_samples(glyphs) == ff + aa);
    if i < ff.len() {
        assert forall|k: int| 0 <= k < init.len() implies glyph_wf(init[k]) by {
            assert(init[k] == glyphs[k]);
        }
        lemma_samples_in_bounds(init, i);
        assert(flat_samples(glyphs)[i] == ff[i]);
        assert(extents_of(glyphs) == crate::plan::extend_extents(extents_of(init), last.bounds));
    } else {
        let j = i - ff.len();
        assert(flat_samples(glyphs)[i] == aa[j]);
        match last.bounds {
            None => {
                assert(aa.len() == 0);
            },
            Some(b) => {
                let s = last.samples@[j];
                assert(aa[j] == (AbsSample {
                    cx: canvas_x(b, s.x),
                    cy: canvas_y(b, s.y),
                    pixel: rgba_of(s.pixel),
                }));
                assert(glyphs[glyphs.len() - 1] == last);
                assert(glyph_wf(last));
                lemma_extents_cover(glyphs, glyphs.len() - 1);
                lemma_extents_bracket_zero(glyphs);
                lemma_sample_in_canvas(extents_of(glyphs), b, s.x, s.y);
            },
        }
    }
}

/// Determinism: the rasterization model is a function of the planned
/// glyphs alone, so two calls of `rasterize_glyphs` on equal inputs
/// return canvases with equal dimensions and equal pixels.
pub proof fn lemma_rasterize_deterministic(g1: Seq<PlannedGlyph>, g2: Seq<PlannedGlyph>)
    requires
        g1 == g2,
    ensures
        spec_rasterize(g1) == spec_rasterize(g2),
        extents_of(g1) == extents_of(g2),
{
}

/// Composite planned glyphs into a fresh canvas of the given
/// dimensions. Every pixel starts as the transparent default; each
/// coverage sample is written at its converted position — a negative
/// box origin clamped to zero on either axis — only if that pixel is
/// still the default. A sample aimed outside the canvas is left out;
/// none is when the canvas spans the extents (`lemma_samples_in_bounds`).
pub fn composite_into(width: u32, height: u32, glyphs: &Vec<PlannedGlyph>) -> (img: Raster)
    requires
        forall|i: int| 0 <= i < glyphs@.len() ==> glyph_wf(glyphs@[i]),
        4 * (width as int) <= usize::MAX as int,
        (width as int) * (height as int) * 4 <= usize::MAX as int,
    ensures
        dims_of(img) == (width, height),
        pixels_of(img) == write_all(
            blank_pixels(width as int, height as int),
            flat_samples(glyphs@),
        ),
{
    let ghost blank = blank_pixels(width as int, height as int);
    let mut img = raster_new(width, height);
    let mut gi: usize = 0;
    proof {
        assert(glyphs@.take(0) =~= Seq::<PlannedGlyph>::empty());
    }
    while gi < glyphs.len()
        invariant
            forall|i: int| 0 <= i < glyphs@.len() ==> glyph_wf(glyphs@[i]),
            gi <= glyphs@.len(),
            blank == blank_pixels(width as int, height as int),
            dims_of(img) == (width, height),
            pixels_of(img) == write_all(blank, flat_samples(glyphs@.take(gi as int))),
        decreases glyphs@.len() - gi,
    {
        let g = &glyphs[gi];
        match g.bounds {
            None => {
                proof {
                    assert(glyphs@.take(gi + 1).drop_last() =~= glyphs@.take(gi as int));
                    assert(glyphs@.take(gi + 1).last() == glyphs@[gi as int]);
                    assert(abs_samples_of(glyphs@[gi as int]) =~= Seq::<AbsSample>::empty());
                    assert(flat_samples(glyphs@.take(gi + 1)) =~= flat_samples(
                        glyphs@.take(gi as int),
                    ));
                }
            },
            Some(b) => {
                let ghost flats = flat_samples(glyphs@.take(gi as int));
                let ghost aa = abs_samples_of(glyphs@[gi as int]);
                let mut si: usize = 0;
                proof {
                    assert(aa.take(0) =~= Seq::<AbsSample>::empty());
                    assert(flats + aa.take(0) =~= flats);
                }
                while si < g.samples.len()
                    invariant
                        gi < glyphs@.len(),
                        glyph_wf(glyphs@[gi as int]),
                        glyphs@[gi as int].bounds == Some(b),
                        g.samples@ == glyphs@[gi as int].samples@,
                        si <= g.samples@.len(),
                        blank == blank_pixels(width as int, height as int),
                        aa == abs_samples_of(glyphs@[gi as int]),
                        flats == flat_samples(glyphs@.take(gi as int)),
                        dims_of(img) == (width, height),
                        pixels_of(img) == write_all(blank, flats + aa.take(si as int)),
                    decreases g.samples@.len() - si,
                {
                    let s = g.samples[si];
                    let cx = if b.min_x >= 0 {
                        s.x + (b.min_x as u32)
                    } else {
                        s.x
                    };
                    let cy = if b.min_y >= 0 {
                        s.y + (b.min_y as u32)
                    } else {
                        s.y
                    };
                    proof {
                        assert(cx as int == canvas_x(b, s.x));
                        assert(cy as int == canvas_y(b, s.y));
                        lemma_write_all_dom(blank, flats + aa.take(si as int));
                    }
                    if cx < width && cy < height {
                        proof {
                            assert(blank.dom().contains((cx as int, cy as int)));
                        }
                        let cur = raster_get(&img, cx, cy);
                        if cur.0 == 0 && cur.1 == 0 && cur.2 == 0 && cur.3 == 0 {
                            raster_put(
                                &mut img,
                                cx,
                                cy,
                                (s.pixel.r, s.pixel.g, s.pixel.b, s.pixel.a),
                            );
                        }
                    } else {
                        proof {
                            assert(!blank.dom().contains((cx as int, cy as int)));
                        }
                    }
                    proof {
                        let prevs = flats + aa.take(si as int);
                        let abs_s = aa[si as int];
                        assert(abs_s == (AbsSample {
                            cx: canvas_x(b, s.x),
                            cy: canvas_y(b, s.y),
                            pixel: rgba_of(s.pixel),
                        }));
                        assert((flats + aa.take(si + 1)).drop_last() =~= prevs);
                        assert((flats + aa.take(si + 1)).last() == abs_s);
                        assert(pixels_of(img) == write_sample(write_all(blank, prevs), abs_s));
                        assert(pixels_of(img) == write_all(blank, flats + aa.take(si + 1)));
                    }
                    si = si + 1;
                }
                proof {
                    assert(aa.take(g.samples@.len() as int) =~= aa);
                    assert(glyphs@.take(gi + 1).drop_last() =~= glyphs@.take(gi as int));
                    assert(glyphs@.take(gi + 1).last() == glyphs@[gi as int]);
                    assert(flat_samples(glyphs@.take(gi + 1)) == flats + aa);
                }
            },
        }
        gi = gi + 1;
    }
    proof {
        assert(glyphs@.take(glyphs@.len() as int) =~= glyphs@);
    }
    img
}

/// Rasterize planned glyphs into a fresh canvas that spans the
/// extents of their bounding boxes, compositing every coverage
/// sample under the first-writer-wins rule.
pub fn rasterize_glyphs(glyphs: &Vec<PlannedGlyph>) -> (img: Raster)
    requires
        forall|i: int| 0 <= i < glyphs@.len() ==> glyph_wf(glyphs@[i]),
        4 * width_of(extents_of(glyphs@)) <= usize::MAX as int,
        width_of(extents_of(glyphs@)) * height_of(extents_of(glyphs@)) * 4 <= usize::MAX as int,
    ensures
        dims_of(img).0 as int == width_of(extents_of(glyphs@)),
        dims_of(img).1 as int == height_of(extents_of(glyphs@)),
        pixels_of(img) == spec_rasterize(glyphs@),
{
    let e = compute_extents(glyphs);
    proof {
        lemma_extents_bracket_zero(glyphs@);
    }
    let width = ((e.max_x as i64) - (e.min_x as i64)) as u32;
    let height = ((e.max_y as i64) - (e.min_y as i64)) as u32;
    proof {
        assert(width as int == width_of(extents_of(glyphs@)));
        assert(height as int == height_of(extents_of(glyphs@)));
    }
    composite_into(width, height, glyphs)
}

} // verus!
