use unicode_converter::unicode_encoding::UnicodeEncodingError;
use unicode_converter::utf_8::{utf_32_glyph_to_utf_8, utf_8_glyph_to_utf_32, Utf8};

fn double_conv_print(glyph: u32) {
    let conv = utf_32_glyph_to_utf_8(glyph);
    let (conv_back, len) = utf_8_glyph_to_utf_32(&conv, 0).unwrap();
    println!("len of glyph {}: {}", conv_back, len);
    assert_eq!(glyph, conv_back);
}

/// Test that the conversion of glyphs between UTF-8 and UTF-32 works.
#[test]
fn test_utf_32_to_utf_8_and_back() {
    let code_to_test: [u32; 8] =
        ['a' as u32, 'e' as u32, 0x00E9, 0x00A4, 0x3162, 0x315F, 0x1F60E, 0x1F424];
    for glyph in code_to_test {
        double_conv_print(glyph);
    }
}

/// Test that the conversion from string to UTF-8 and back works.
#[test]
fn str_to_utf_8_and_back() {
    let s = "Laé§çà→̉ỏ";
    let conv = Utf8::from_string(s).unwrap();
    let conv_back = conv.to_string();
    assert_eq!(s, conv_back);
}

fn simple_conv(glyph: u32, vec: Vec<u8>) {
    let conv = utf_32_glyph_to_utf_8(glyph);
    assert_eq!(conv, vec);
}

/// Test that various code points are converted right.
#[test]
fn test_utf_32_to_utf_8_raw() {
    simple_conv(0x000045, vec![0x45]);
    simple_conv(0x00007F, vec![0x7F]);
    simple_conv(0x000080, vec![0xC2, 0x80]);
    simple_conv(0x00009F, vec![0xC2, 0x9F]);
    simple_conv(0x0000A0, vec![0xC2, 0xA0]);
    simple_conv(0x0000BF, vec![0xC2, 0xBF]);
    simple_conv(0x0000C0, vec![0xC3, 0x80]);
    simple_conv(0x0000FF, vec![0xC3, 0xBF]);
    simple_conv(0x000100, vec![0xC4, 0x80]);
    simple_conv(0x00015D, vec![0xC5, 0x9D]);
    simple_conv(0x0001BD, vec![0xC6, 0xBD]);
    simple_conv(0x0001BE, vec![0xC6, 0xBE]);
    simple_conv(0x000205, vec![0xC8, 0x85]);
    simple_conv(0x0007FF, vec![0xDF, 0xBF]);
    simple_conv(0x000800, vec![0xE0, 0xA0, 0x80]);
    simple_conv(0x000FFF, vec![0xE0, 0xBF, 0xBF]);
    simple_conv(0x001000, vec![0xE1, 0x80, 0x80]);
    simple_conv(0x010400, vec![0xF0, 0x90, 0x90, 0x80]);
    simple_conv(0x10FFFF, vec![0xF4, 0x8F, 0xBF, 0xBF]);
}

fn double_conv(glyph: u32) {
    let conv = utf_32_glyph_to_utf_8(glyph);
    let (conv_back, size) = utf_8_glyph_to_utf_32(&conv, 0).unwrap();
    assert_eq!(conv_back, glyph);
    assert_eq!(conv.len(), size);
}

/// Test that various code points are converted right both ways.
#[test]
fn test_utf_32_to_utf_8_and_back_plus() {
    double_conv(0x000045);
    double_conv(0x00007F);
    double_conv(0x000080);
    double_conv(0x00009F);
    double_conv(0x0000A0);
    double_conv(0x0000BF);
    double_conv(0x0000C0);
    double_conv(0x0000FF);
    double_conv(0x000100);
    double_conv(0x00015D);
    double_conv(0x0001BD);
    double_conv(0x0001BE);
    double_conv(0x000205);
    double_conv(0x0007FF);
    double_conv(0x000800);
    double_conv(0x000FFF);
    double_conv(0x001000);
    double_conv(0x010400);
    double_conv(0x10FFFF);
}

/// A lead byte matching no prefix template is rejected.
#[test]
fn test_invalid_utf8_prefix() {
    let bad: Vec<u8> = vec![0xFF];
    let res = utf_8_glyph_to_utf_32(&bad, 0);
    assert_eq!(res, Err(UnicodeEncodingError::InvalidUtf8Prefix));
}

/// A continuation byte not matching its template is rejected.
#[test]
fn test_incoherent_utf8_codepoint() {
    let bad: Vec<u8> = vec![0xC2, 0x20];
    let res = utf_8_glyph_to_utf_32(&bad, 0);
    assert_eq!(res, Err(UnicodeEncodingError::IncoherentUtf8Codepoint));
}

/// A glyph cut short by the end of the buffer is rejected.
#[test]
fn test_missing_encoded_bytes() {
    let bad: Vec<u8> = vec![0xE0, 0xA0];
    let res = utf_8_glyph_to_utf_32(&bad, 0);
    assert_eq!(res, Err(UnicodeEncodingError::MissingEncodedBytes));
}
