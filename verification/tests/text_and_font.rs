use rasterize_text::font::FontError;
use rasterize_text::normalize_nfc;
use rasterize_text::read_font_bytes;

#[test]
fn normalize_composes_decomposed_input() {
    // "A" followed by a combining ring above composes to one
    // character under NFC; the input must not come back unchanged.
    let decomposed = "A\u{30A}";
    let normalized = normalize_nfc(decomposed);
    assert_eq!(normalized, "\u{C5}");
}

#[test]
fn normalize_keeps_composed_input() {
    assert_eq!(normalize_nfc("\u{C5}"), "\u{C5}");
    assert_eq!(normalize_nfc("plain ascii!"), "plain ascii!");
}

#[test]
fn normalize_empty_stays_empty() {
    assert_eq!(normalize_nfc(""), "");
}

#[test]
fn nfc_equivalent_inputs_normalize_alike() {
    let composed = "This is a test, we love Unicode \u{C5}\u{3A9}!";
    let decomposed = "This is a test, we love Unicode A\u{30A}\u{3A9}!";
    assert_eq!(normalize_nfc(composed), normalize_nfc(decomposed));
}

#[test]
fn font_rejects_garbage_bytes() {
    assert!(matches!(
        read_font_bytes(&[0u8, 1, 2, 3, 4, 5, 6, 7]),
        Err(FontError::BytesReadError)
    ));
}

#[test]
fn font_rejects_empty_bytes() {
    assert!(matches!(
        read_font_bytes(&[]),
        Err(FontError::BytesReadError)
    ));
}
