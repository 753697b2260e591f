use unicode_converter::unicode_encoding::{
    content_eq, convert_to, UnicodeEncoding, UnicodeEncodingError,
};
use unicode_converter::utf_16::Utf16;
use unicode_converter::utf_32::Utf32;
use unicode_converter::utf_8::Utf8;
use unicode_converter::{decode, encode};

/// Cross-codec equivalence on concrete content: UTF-8 bytes, carried
/// through the canonical form to UTF-16, on to UTF-32 and back to UTF-8,
/// are reproduced exactly.
fn cross_codec(reference: &str) {
    let utf8 = Utf8::from_string(reference).unwrap();
    let original_bytes = utf8.to_bytes(false);
    let utf16: Utf16 = convert_to(&utf8);
    let utf32: Utf32 = convert_to(&utf16);
    let back: Utf8 = convert_to(&utf32);
    assert_eq!(back.to_bytes(false), original_bytes);
    assert!(content_eq(&back, &utf8));
}

#[test]
fn test_cross_codec_equivalence() {
    cross_codec("plain ascii");
    cross_codec("déjà vu £¥§");
    cross_codec("𐐷𝄞😀");
}

/// The conversion facade recognizes every encoding name and rejects the
/// rest.
#[test]
fn test_decode_by_name() {
    let bytes: [u8; 3] = [0x61, 0x62, 0x63];
    let decoded = decode(&bytes, "UTF-8", false).unwrap().unwrap();
    assert_eq!(decoded.data, vec![0x61, 0x62, 0x63]);
    assert!(decode(&bytes, "EBCDIC", false).is_none());
    let bad = decode(&[0xFF], "UTF-8", false).unwrap();
    assert!(matches!(bad, Err(UnicodeEncodingError::InvalidUtf8Prefix)));
    let odd = decode(&[0x00, 0x61, 0x00], "UTF-16_be", false).unwrap();
    assert!(matches!(odd, Err(UnicodeEncodingError::InvalidStreamSize)));
}

/// The facade validates UTF-32 input like every other encoding: values
/// over the ceiling and ambiguous adjacent surrogates are rejected.
#[test]
fn test_decode_utf_32_by_name_validates() {
    let over_ceiling: [u8; 4] = [0x00, 0x00, 0x11, 0x00];
    let res = decode(&over_ceiling, "UTF-32", false).unwrap();
    assert!(matches!(res, Err(UnicodeEncodingError::InvalidCodepointTooManyBits)));
    let ambiguous: [u8; 8] = [0x00, 0xD8, 0x00, 0x00, 0x00, 0xDC, 0x00, 0x00];
    let res = decode(&ambiguous, "UTF-32", false).unwrap();
    assert!(matches!(res, Err(UnicodeEncodingError::AmbiguousUnpairedSurrogates)));
    let over_ceiling_be: [u8; 4] = [0x00, 0x11, 0x00, 0x00];
    let res = decode(&over_ceiling_be, "UTF-32_be", false).unwrap();
    assert!(matches!(res, Err(UnicodeEncodingError::InvalidCodepointTooManyBits)));
}

#[test]
fn test_encode_by_name() {
    let seq = Utf32 { data: vec![0x61, 0x205] };
    assert_eq!(encode(&seq, "UTF-8", false).unwrap(), vec![0x61, 0xC8, 0x85]);
    assert_eq!(encode(&seq, "UTF-16", false).unwrap(), vec![0x61, 0x00, 0x05, 0x02]);
    assert_eq!(encode(&seq, "UTF-16_be", false).unwrap(), vec![0x00, 0x61, 0x02, 0x05]);
    assert_eq!(
        encode(&seq, "UTF-32", false).unwrap(),
        vec![0x61, 0x00, 0x00, 0x00, 0x05, 0x02, 0x00, 0x00]
    );
    assert_eq!(encode(&seq, "UTF-1", false).unwrap(), vec![0x61, 0xA2, 0x68]);
    assert!(encode(&seq, "latin1", false).is_none());
}

/// Decoding what encode produced recovers the canonical content, for each
/// named encoding.
#[test]
fn test_decode_encode_by_name_round_trip() {
    let seq = Utf32 { data: vec![0x41, 0xE9, 0x3162, 0x10400] };
    for name in ["UTF-8", "UTF-1", "CESU-8", "UTF-16", "UTF-32", "UTF-16_be", "UTF-32_be"] {
        let bytes = encode(&seq, name, false).unwrap();
        let back = decode(&bytes, name, false).unwrap().unwrap();
        assert!(back == seq);
    }
}

/// Content equality looks through the storage encoding.
#[test]
fn test_content_eq_across_encodings() {
    let a = Utf8::from_string("same text").unwrap();
    let b: Utf16 = convert_to(&a);
    let c = Utf8::from_string("other text").unwrap();
    assert!(content_eq(&a, &b));
    assert!(!content_eq(&b, &c));
}

/// A leftover surrogate round-trips through UTF-16 storage.
#[test]
fn test_unpaired_surrogate_passthrough() {
    let seq = Utf32 { data: vec![0x41, 0xD800, 0x42] };
    let utf16 = Utf16::from_utf_32(&seq);
    let back = utf16.to_utf_32();
    assert!(back == seq);
}
