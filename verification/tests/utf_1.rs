use unicode_converter::utf_1::{t, u, utf_1_glyph_to_utf_32, utf_32_glyph_to_utf_1};
use unicode_converter::unicode_encoding::{content_eq, UnicodeEncoding, UnicodeEncodingError};
use unicode_converter::utf_1::Utf1;
use unicode_converter::utf_32::Utf32;

fn simple_conv(glyph: u32, vec: Vec<u8>) {
    let conv = utf_32_glyph_to_utf_1(glyph);
    assert_eq!(conv, vec);
}

/// Test that various code points are converted right.
#[test]
fn test_utf_32_to_utf_1_raw() {
    simple_conv(0x000045, vec![0x45]);
    simple_conv(0x00007F, vec![0x7F]);
    simple_conv(0x000080, vec![0x80]);
    simple_conv(0x00009F, vec![0x9F]);
    simple_conv(0x0000A0, vec![0xA0, 0xA0]);
    simple_conv(0x0000BF, vec![0xA0, 0xBF]);
    simple_conv(0x0000C0, vec![0xA0, 0xC0]);
    simple_conv(0x0000FF, vec![0xA0, 0xFF]);
    simple_conv(0x000100, vec![0xA1, 0x21]);
    simple_conv(0x00015D, vec![0xA1, 0x7E]);
    simple_conv(0x0001BD, vec![0xA1, 0xFF]);
    simple_conv(0x0001BE, vec![0xA2, 0x21]);
    simple_conv(0x0007FF, vec![0xAA, 0x72]);
    simple_conv(0x000800, vec![0xAA, 0x73]);
    simple_conv(0x000FFF, vec![0xB5, 0x48]);
    simple_conv(0x001000, vec![0xB5, 0x49]);
    simple_conv(0x00D7FF, vec![0xF7, 0x2F, 0xC3]);
    simple_conv(0x00FDEF, vec![0xF7, 0x62, 0xD9]);
    simple_conv(0x038E2D, vec![0xFB, 0xFF, 0xFF]);
    simple_conv(0x038E2E, vec![0xFC, 0x21, 0x21, 0x21, 0x21]);
    simple_conv(0x10FFFF, vec![0xFC, 0x21, 0x39, 0x6E, 0x6C]);
}

/// Tests that t and u are indeed the inverse of one another.
#[test]
fn test_u_v() {
    for i in 0..0x100 {
        let i_u8 = i as u8;
        assert_eq!(t(u(i_u8)), i_u8);
    }
}

fn double_conv(glyph: u32) {
    let conv = utf_32_glyph_to_utf_1(glyph);
    let (conv_back, size) = utf_1_glyph_to_utf_32(&conv, 0);
    assert_eq!(glyph, conv_back);
    assert_eq!(size, conv.len());
}

/// Test that various code points are converted back right.
#[test]
fn test_utf_32_to_utf_1_and_back() {
    double_conv(0x000045);
    double_conv(0x00007F);
    double_conv(0x000080);
    double_conv(0x00009F);
    double_conv(0x0000A0);
    double_conv(0x0000BF);
    double_conv(0x0000C0);
    double_conv(0x0000FF);
    double_conv(0x000100);
    double_conv(0x00015D);
    double_conv(0x0001BD);
    double_conv(0x0001BE);
    double_conv(0x0007FF);
    double_conv(0x000800);
    double_conv(0x000FFF);
    double_conv(0x001000);
    double_conv(0x00D7FF);
    double_conv(0x00FDEF);
    double_conv(0x038E2D);
    double_conv(0x038E2E);
    double_conv(0x10FFFF);
}

/// A UTF-1 glyph cut short by the end of the buffer is rejected by the
/// checked deserialization.
#[test]
fn test_utf_1_truncated_glyph() {
    let bytes: [u8; 2] = [0xFC, 0x21];
    let res = Utf1::from_bytes(&bytes, false);
    assert!(matches!(res, Err(UnicodeEncodingError::MissingEncodedBytes)));
}

/// UTF-1 round trip through the whole codec.
#[test]
fn test_utf_1_codec_round_trip() {
    let source = Utf32 { data: vec![0x41, 0x100, 0x4016, 0xD7FF, 0x10FFFF] };
    let utf1 = Utf1::from_utf_32(&source);
    let bytes = utf1.to_bytes(false);
    let back = Utf1::from_bytes(&bytes, false).unwrap();
    assert!(content_eq(&back, &source));
}
