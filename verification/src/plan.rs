//! The layout plan: glyph bounding boxes, coverage samples, and the
//! canvas extents accumulated across all glyphs.

use crate::color::Color;
use vstd::prelude::*;

verus! {

/// The pixel bounding box of one glyph, in canvas-relative integer
/// coordinates.
#[derive(Clone, Copy, Debug, PartialEq, Eq, Structural)]
pub struct GlyphBox {
    pub min_x: i32,
    pub min_y: i32,
    pub max_x: i32,
    pub max_y: i32,
}

/// One coverage sample of a glyph: a position relative to the
/// glyph's bounding box and the premultiplied pixel for it.
#[derive(Clone, Copy, Debug)]
pub struct Sample {
    pub x: u32,
    pub y: u32,
    pub pixel: Color,
}

/// One glyph as the font engine laid it out: its pixel bounding box,
/// if it has ink, and its coverage samples in the engine's order. A
/// glyph without a bounding box contributes no pixels.
#[derive(Debug)]
pub struct PlannedGlyph {
    pub bounds: Option<GlyphBox>,
    pub samples: Vec<Sample>,
}

/// The extents accumulated across all glyph bounding boxes: the
/// least and greatest coordinate on each axis, starting from zero.
#[derive(Clone, Copy, Debug, PartialEq, Eq, Structural)]
pub struct Extents {
    pub min_x: i32,
    pub max_x: i32,
    pub min_y: i32,
    pub max_y: i32,
}

/// The extents before any glyph is seen.
pub open spec fn zero_extents() -> Extents {
    Extents { min_x: 0, max_x: 0, min_y: 0, max_y: 0 }
}

/// Widening the extents by one optional bounding box.
pub open spec fn extend_extents(e: Extents, bounds: Option<GlyphBox>) -> Extents {
    match bounds {
        None => e,
        Some(b) => Extents {
            min_x: if b.min_x < e.min_x {
                b.min_x
            } else {
                e.min_x
            },
            max_x: if b.max_x > e.max_x {
                b.max_x
            } else {
                e.max_x
            },
            min_y: if b.min_y < e.min_y {
                b.min_y
            } else {
                e.min_y
            },
            max_y: if b.max_y > e.max_y {
                b.max_y
            } else {
                e.max_y
            },
        },
    }
}

/// The extents of a glyph sequence, folded in layout order.
pub open spec fn extents_of(glyphs: Seq<PlannedGlyph>) -> Extents
    decreases glyphs.len(),
{
    if glyphs.len() == 0 {
        zero_extents()
    } else {
        extend_extents(extents_of(glyphs.drop_last()), glyphs.last().bounds)
    }
}

/// The canvas width: the horizontal span of the extents, including
/// any overhang left of the pen origin.
pub open spec fn width_of(e: Extents) -> int {
    e.max_x - e.min_x
}

/// The canvas height: the vertical span of the extents.
pub open spec fn height_of(e: Extents) -> int {
    e.max_y - e.min_y
}

/// The extents always bracket zero: ink left of the origin only ever
/// lowers the minimum, and ink right of it only raises the maximum.
pub proof fn lemma_extents_bracket_zero(glyphs: Seq<PlannedGlyph>)
    ensures
        extents_of(glyphs).min_x <= 0 <= extents_of(glyphs).max_x,
        extents_of(glyphs).min_y <= 0 <= extents_of(glyphs).max_y,
    decreases glyphs.len(),
{
    if glyphs.len() > 0 {
        lemma_extents_bracket_zero(glyphs.drop_last());
    }
}

/// Every bounding box in the sequence lies within the extents.
pub proof fn lemma_extents_cover(glyphs: Seq<PlannedGlyph>, i: int)
    requires
        0 <= i < glyphs.len(),
    ensures
        glyphs[i].bounds matches Some(b) ==> (extents_of(glyphs).min_x <= b.min_x
            && b.max_x <= extents_of(glyphs).max_x && extents_of(glyphs).min_y <= b.min_y
            && b.max_y <= extents_of(glyphs).max_y),
    decreases glyphs.len(),
{
    if i < glyphs.len() - 1 {
        lemma_extents_cover(glyphs.drop_last(), i);
        assert(glyphs.drop_last()[i] == glyphs[i]);
    }
}

/// Compute the extents of the planned glyphs: the least and greatest
/// bounding box coordinates on each axis, starting from zero.
pub fn compute_extents(glyphs: &Vec<PlannedGlyph>) -> (e: Extents)
    ensures
        e == extents_of(glyphs@),
{
    let mut e = Extents { min_x: 0, max_x: 0, min_y: 0, max_y: 0 };
    let mut i: usize = 0;
    proof {
        assert(glyphs@.take(0) =~= Seq::<PlannedGlyph>::empty());
    }
    while i < glyphs.len()
        invariant
            i <= glyphs@.len(),
            e == extents_of(glyphs@.take(i as int)),
        decreases glyphs@.len() - i,
    {
        let g = &glyphs[i];
        match g.bounds {
            None => {},
            Some(b) => {
                if b.min_x < e.min_x {
                    e.min_x = b.min_x;
                }
                if b.max_x > e.max_x {
                    e.max_x = b.max_x;
                }
                if b.min_y < e.min_y {
                    e.min_y = b.min_y;
                }
                if b.max_y > e.max_y {
                    e.max_y = b.max_y;
                }
            },
        }
        proof {
            assert(glyphs@.take(i + 1).drop_last() =~= glyphs@.take(i as int));
            assert(glyphs@.take(i + 1).last() == glyphs@[i as int]);
        }
        i = i + 1;
    }
    proof {
        assert(glyphs@.take(glyphs@.len() as int) =~= glyphs@);
    }
    e
}

/// The width rule of the older entry point: the right extent alone
/// when no ink starts left of the origin, the full span otherwise.
pub open spec fn spec_legacy_width(e: Extents) -> int {
    if e.min_x >= 0 {
        e.max_x as int
    } else {
        e.max_x - e.min_x
    }
}

/// Compute the older entry point's canvas width from the extents.
pub fn legacy_width(e: &Extents) -> (w: u32)
    requires
        e.min_x <= 0 <= e.max_x,
    ensures
        w as int == spec_legacy_width(*e),
{
    if e.min_x >= 0 {
        e.max_x as u32
    } else {
        ((e.max_x as i64) - (e.min_x as i64)) as u32
    }
}

} // verus!
