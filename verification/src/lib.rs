//! Rendering of a single line of Unicode text into an RGBA raster.
//!
//! The pipeline normalizes the input text, lays the glyphs out
//! horizontally, derives the canvas extents from the glyph bounding
//! boxes, and composites per-glyph coverage samples into a transparent
//! canvas under a first-writer-wins rule.

pub mod color;
pub mod font;
pub mod plan;
pub mod raster;
pub mod text;
pub mod verbosity;

pub use color::Color;
pub use color::ColorError;
pub use font::read_font_bytes;
pub use font::FontError;
pub use plan::compute_extents;
pub use plan::Extents;
pub use plan::GlyphBox;
pub use plan::PlannedGlyph;
pub use plan::Sample;
pub use raster::composite_into;
pub use raster::glyphs_well_formed;
pub use raster::plan_fits;
pub use raster::rasterize_glyphs;
pub use raster::Raster;
pub use text::normalize_nfc;
pub use verbosity::Verbosity;
