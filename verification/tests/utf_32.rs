use unicode_converter::unicode_encoding::UnicodeEncodingError;
use unicode_converter::utf_32::Utf32;
use unicode_converter::unicode_encoding::UnicodeEncoding;

#[test]
fn test_data_content() {
    let data: [u8; 4] = [0, 1, 2, 3];
    let utf_32_glyph = Utf32::from_bytes(data.as_slice(), false).unwrap();
    assert_eq!(utf_32_glyph.data[0], 0x03020100);
}

/// A byte count that is no multiple of four cannot be UTF-32.
#[test]
fn test_utf_32_invalid_stream_size() {
    let data: [u8; 3] = [0, 1, 2];
    let res = Utf32::from_bytes(data.as_slice(), false);
    assert!(matches!(res, Err(UnicodeEncodingError::InvalidStreamSize)));
}

/// The validator reports each kind of bad content.
#[test]
fn test_check_sanity_verdicts() {
    let clean = Utf32 { data: vec![0x41, 0xD800, 0x42] };
    assert_eq!(clean.check_sanity_utf32(), UnicodeEncodingError::NoError);
    let too_big = Utf32 { data: vec![0x41, 0x110000] };
    assert_eq!(
        too_big.check_sanity_utf32(),
        UnicodeEncodingError::InvalidCodepointTooManyBits
    );
    let ambiguous = Utf32 { data: vec![0xD800, 0xDC00] };
    assert_eq!(
        ambiguous.check_sanity_utf32(),
        UnicodeEncodingError::AmbiguousUnpairedSurrogates
    );
}

/// Big-endian serialization lays the bytes out most significant first.
#[test]
fn test_utf_32_big_endian() {
    let v = Utf32 { data: vec![0x0102_0304] };
    assert_eq!(v.to_bytes(true), vec![0x01, 0x02, 0x03, 0x04]);
    assert_eq!(v.to_bytes(false), vec![0x04, 0x03, 0x02, 0x01]);
    let back = Utf32::from_bytes(&[0x01, 0x02, 0x03, 0x04], true).unwrap();
    assert_eq!(back.data, vec![0x0102_0304]);
}
