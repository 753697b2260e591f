use unicode_converter::cesu_8::{check_cesu8_encodable, utf_32_glyph_to_cesu_8, Cesu8};
use unicode_converter::unicode_encoding::UnicodeEncoding;
use unicode_converter::unicode_encoding::UnicodeEncodingError;
use unicode_converter::unicode_encoding::content_eq;
use unicode_converter::utf_32::Utf32;

#[test]
fn test_utf_32_glyph_to_cesu_8() {
    let g1: u32 = 0x0045;
    let v1: Vec<u8> = vec![0x45];
    assert_eq!(v1, utf_32_glyph_to_cesu_8(g1));

    let g2: u32 = 0x0205;
    let v2: Vec<u8> = vec![0xC8, 0x85];
    assert_eq!(v2, utf_32_glyph_to_cesu_8(g2));

    let g3: u32 = 0x10400;
    let v3: Vec<u8> = vec![0xED, 0xA0, 0x81, 0xED, 0xB0, 0x80];
    assert_eq!(v3, utf_32_glyph_to_cesu_8(g3));
}

fn conv_two_ways(glyph: u32) {
    let v = utf_32_glyph_to_cesu_8(glyph);
    let cesu = Cesu8::from_bytes_no_check(&v, false).unwrap();
    let utf32 = cesu.to_utf_32();
    let glyph_back = utf32.data[0];
    assert_eq!(glyph_back, glyph);
}

#[test]
fn test_utf32_to_cesu_8_and_back() {
    conv_two_ways(0x0045);
    conv_two_ways(0x0205);
    conv_two_ways(0x10400);
}

/// CESU-8 stores a supplementary-plane code point as six bytes and reads
/// it back through the checked path.
#[test]
fn test_cesu_8_checked_round_trip() {
    let source = Utf32 { data: vec![0x41, 0x10400, 0xFFFF] };
    let cesu = Cesu8::from_utf_32(&source);
    let bytes = cesu.to_bytes(false);
    assert_eq!(bytes, vec![0x41, 0xED, 0xA0, 0x81, 0xED, 0xB0, 0x80, 0xEF, 0xBF, 0xBF]);
    let back = Cesu8::from_bytes(&bytes, false).unwrap();
    assert!(content_eq(&back, &source));
}

/// A leftover surrogate right before a supplementary-plane code point
/// cannot be stored as CESU-8; everything else valid can.
#[test]
fn test_check_cesu8_encodable() {
    let fine = Utf32 { data: vec![0x41, 0xD800, 0x42, 0x10400] };
    assert!(check_cesu8_encodable(&fine));
    let clash = Utf32 { data: vec![0xDC00, 0x10000] };
    assert!(!check_cesu8_encodable(&clash));
    let invalid = Utf32 { data: vec![0x110000] };
    assert!(!check_cesu8_encodable(&invalid));
}

/// Two adjacent low surrogates in CESU-8 data cannot be re-paired.
#[test]
fn test_cesu_8_unresolvable_adjacency() {
    // The 3-byte UTF-8 forms of 0xDC00 and 0xDC01.
    let bytes: Vec<u8> = vec![0xED, 0xB0, 0x80, 0xED, 0xB0, 0x81];
    let res = Cesu8::from_bytes_no_check(&bytes, false);
    assert!(matches!(res, Err(UnicodeEncodingError::AmbiguousUnpairedSurrogates)));
}
