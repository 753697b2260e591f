use unicode_converter::unicode_encoding::UnicodeEncodingError;
use unicode_converter::utf_16::{compatible_codepoints, utf_16_glyph_to_utf_32, utf_32_glyph_to_utf_16};

fn double_conv(glyph: u32) {
    let conv = utf_32_glyph_to_utf_16(glyph).unwrap();
    let (conv_back, len) = utf_16_glyph_to_utf_32(&conv, 0);
    println!("len of glyph {}: {}", conv_back, len);
    assert_eq!(glyph, conv_back);
}

/// Test that the conversion of glyphs between UTF-16 and UTF-32 works.
#[test]
fn test_utf_16_to_utf_32_and_back() {
    let code_to_test: [u32; 3] = [0x0012, 0xEFFF, 0x1ABCD];
    for glyph in code_to_test {
        double_conv(glyph);
    }
}

/// Test that unpaired surrogates panic in basic conversion.
#[test]
#[should_panic]
fn test_invalid_utf16_glyphs_1() {
    let glyph: u32 = 0x0000_D7FF + 10;
    utf_32_glyph_to_utf_16(glyph).unwrap();
}

/// Test that very big code points panic.
#[test]
#[should_panic]
fn test_invalid_utf16_glyphs_2() {
    let glyph: u32 = 0x0010_FFFF + 10;
    utf_32_glyph_to_utf_16(glyph).unwrap();
}

/// A high surrogate with nothing after it decodes as a single leftover
/// code point, consuming one unit.
#[test]
fn test_unpaired_high_surrogate_at_end() {
    let units: Vec<u16> = vec![0xD800];
    let (glyph, len) = utf_16_glyph_to_utf_32(&units, 0);
    assert_eq!(glyph, 0xD800);
    assert_eq!(len, 1);
}

/// A leftover surrogate alone has no standalone UTF-16 encoding.
#[test]
fn test_unpaired_surrogate_notification() {
    let res = utf_32_glyph_to_utf_16(0xD800);
    assert_eq!(res, Err(UnicodeEncodingError::UnpairedSurrogateNotification));
}

/// The adjacency policy: two leftover surrogates are ambiguous, anything
/// else passes, values above the ceiling are rejected.
#[test]
fn test_compatible_codepoints_policy() {
    assert_eq!(compatible_codepoints(0x41, 0x42), UnicodeEncodingError::NoError);
    assert_eq!(compatible_codepoints(0xD800, 0x41), UnicodeEncodingError::NoError);
    assert_eq!(
        compatible_codepoints(0xD800, 0xDC00),
        UnicodeEncodingError::AmbiguousUnpairedSurrogates
    );
    assert_eq!(
        compatible_codepoints(0x110000, 0x41),
        UnicodeEncodingError::InvalidCodepointTooManyBits
    );
    assert_eq!(
        compatible_codepoints(0xDC00, 0x110000),
        UnicodeEncodingError::InvalidCodepointTooManyBits
    );
    assert_eq!(
        compatible_codepoints(0x41, 0x200000),
        UnicodeEncodingError::InvalidCodepointTooManyBits
    );
    assert_eq!(
        compatible_codepoints(0x41, 0x110000),
        UnicodeEncodingError::InvalidCodepointTooManyBits
    );
}
