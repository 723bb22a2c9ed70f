//! Text preparation: Unicode normalization of the input line, and
//! small string utilities shared by the parsing front-ends.

use unicode_normalization::UnicodeNormalization;
use vstd::prelude::*;

verus! {

/// What Unicode canonical composition (NFC) yields for a character
/// sequence.
pub uninterp spec fn nfc_of(s: Seq<char>) -> Seq<char>;

/// Relies on unicode_normalization's nfc: canonical composition
/// depends on the characters alone; an empty text stays empty.
#[verifier::external_body]
fn nfc_collect(text: &str) -> (r: String)
    ensures
        r@ == nfc_of(text@),
        text@.len() == 0 ==> r@.len() == 0,
{
    text.nfc().collect()
}

/// Apply Unicode canonical composition (NFC) to the input line, the
/// first step of rasterization. Two NFC-equivalent inputs yield one
/// and the same normalized text, so the glyphs planned from them are
/// identical.
pub fn normalize_nfc(text: &str) -> (r: String)
    ensures
        r@ == nfc_of(text@),
        text@.len() == 0 ==> r@.len() == 0,
{
    nfc_collect(text)
}

/// Whether two string slices hold the same characters.
pub fn str_eq(a: &str, b: &str) -> (r: bool)
    ensures
        r == (a@ == b@),
{
    let sa = a.to_owned();
    let sb = b.to_owned();
    sa.eq(&sb)
}

} // verus!
