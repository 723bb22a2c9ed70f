//! The font loader: a thin adapter that produces an opaque font
//! handle from TrueType bytes through the font engine.

use vstd::prelude::*;
use vstd::slice::slice_to_vec;

verus! {

/// Declares the font handle of the `rusttype` crate, an opaque
/// parsed TrueType font.
#[verifier::external_type_specification]
#[verifier::external_body]
pub struct ExFont<'a>(rusttype::Font<'a>);

/// Why font data could not be loaded.
#[derive(Debug)]
pub enum FontError {
    /// The font file could not be read; carries the underlying
    /// input error's message and the path that was tried.
    FileReadError(String, String),
    /// The provided bytes are not a valid TrueType font.
    BytesReadError,
}

/// Whether the font engine accepts a byte sequence as TrueType font
/// data.
pub uninterp spec fn font_parses(data: Seq<u8>) -> bool;

/// Relies on rusttype::Font::try_from_vec: parses owned TrueType
/// data and returns None exactly for data the engine rejects; the
/// outcome depends on the bytes alone.
#[verifier::external_body]
fn font_from_vec(data: Vec<u8>) -> (r: Option<rusttype::Font<'static>>)
    ensures
        r is Some <==> font_parses(data@),
{
    rusttype::Font::try_from_vec(data)
}

/// Read a TrueType font from bytes, failing with `BytesReadError`
/// exactly when the font engine rejects them.
pub fn read_font_bytes(bytes: &[u8]) -> (r: Result<rusttype::Font<'static>, FontError>)
    ensures
        r is Ok <==> font_parses(bytes@),
        !font_parses(bytes@) ==> (r matches Err(FontError::BytesReadError)),
{
    match font_from_vec(slice_to_vec(bytes)) {
        Some(f) => Ok(f),
        None => Err(FontError::BytesReadError),
    }
}

} // verus!
