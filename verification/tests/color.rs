use rasterize_text::Color;
use rasterize_text::ColorError;

#[test]
fn parse_four_fields() {
    let c = Color::from_str("12 34 56 78").unwrap();
    assert_eq!(c, Color { r: 12, g: 34, b: 56, a: 78 });
}

#[test]
fn parse_three_fields_is_length_error() {
    match Color::from_str("12 34 56") {
        Err(ColorError::RgbaLengthError(vals)) => assert_eq!(vals, vec![12u8, 34, 56]),
        other => panic!("expected a length error, got {:?}", other),
    }
}

#[test]
fn parse_channel_out_of_range_is_parse_error() {
    match Color::from_str("12 34 56 300") {
        Err(ColorError::RgbaParseError(original, field)) => {
            assert_eq!(original, "12 34 56 300");
            assert_eq!(field, "300");
        }
        other => panic!("expected a parse error, got {:?}", other),
    }
}

#[test]
fn parse_five_fields_is_length_error() {
    assert!(matches!(
        Color::from_str("1 2 3 4 5"),
        Err(ColorError::RgbaLengthError(_))
    ));
}

#[test]
fn parse_non_numeric_field_is_parse_error() {
    match Color::from_str("1 x 3 4") {
        Err(ColorError::RgbaParseError(original, field)) => {
            assert_eq!(original, "1 x 3 4");
            assert_eq!(field, "x");
        }
        other => panic!("expected a parse error, got {:?}", other),
    }
}

#[test]
fn parse_empty_string_is_parse_error() {
    match Color::from_str("") {
        Err(ColorError::RgbaParseError(_, field)) => assert_eq!(field, ""),
        other => panic!("expected a parse error, got {:?}", other),
    }
}

#[test]
fn parse_double_space_makes_empty_field() {
    match Color::from_str("1  2 3 4") {
        Err(ColorError::RgbaParseError(_, field)) => assert_eq!(field, ""),
        other => panic!("expected a parse error, got {:?}", other),
    }
}

#[test]
fn parse_accepts_leading_plus_and_zeros() {
    let c = Color::from_str("+12 007 0 255").unwrap();
    assert_eq!(c, Color { r: 12, g: 7, b: 0, a: 255 });
}

#[test]
fn parse_rejects_lone_plus() {
    assert!(matches!(
        Color::from_str("+ 0 0 0"),
        Err(ColorError::RgbaParseError(_, _))
    ));
}

#[test]
fn format_canonical() {
    let c = Color { r: 255, g: 0, b: 0, a: 255 };
    assert_eq!(c.to_text(), "255 0 0 255");
    let c = Color { r: 0, g: 12, b: 120, a: 7 };
    assert_eq!(c.to_text(), "0 12 120 7");
}

#[test]
fn default_is_opaque_black() {
    let c = Color::default();
    assert_eq!(c, Color { r: 0, g: 0, b: 0, a: 255 });
    assert_eq!(c.to_text(), "0 0 0 255");
}

#[test]
fn round_trip_parse_of_format() {
    let samples = [
        Color { r: 0, g: 0, b: 0, a: 0 },
        Color { r: 255, g: 255, b: 255, a: 255 },
        Color { r: 1, g: 10, b: 100, a: 200 },
        Color { r: 99, g: 9, b: 250, a: 128 },
    ];
    for c in samples {
        assert_eq!(Color::from_str(&c.to_text()).unwrap(), c);
    }
}

#[test]
fn round_trip_format_of_canonical_parse() {
    let s = "12 34 56 78";
    assert_eq!(Color::from_str(s).unwrap().to_text(), s);
}
