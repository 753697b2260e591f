use unicode_converter::endian_aware_byte_streamer::{cut_int, from_bytes, to_bytes};
use unicode_converter::unicode_encoding::UnicodeEncodingError;

#[test]
fn test_cut_int() {
    let i1: u16 = 0x1234;
    let v1 = cut_int(i1 as u64, 2);
    assert_eq!(v1, vec![0x34, 0x12]);
    let i2: u64 = 0xAB_CD_EF_01_23_45_67_89;
    let v2 = cut_int(i2, 8);
    assert_eq!(v2, vec![0x89, 0x67, 0x45, 0x23, 0x01, 0xEF, 0xCD, 0xAB]);
}

#[test]
fn test_to_bytes() {
    let nums: Vec<u64> = vec![0x1234, 0xABCD];
    let conv_le = to_bytes(&nums, 2, false);
    let conv_be = to_bytes(&nums, 2, true);
    assert_eq!(conv_le, vec![0x34, 0x12, 0xCD, 0xAB]);
    assert_eq!(conv_be, vec![0x12, 0x34, 0xAB, 0xCD]);
}

#[test]
fn test_from_bytes() {
    let bytes: Vec<u8> = vec![0x01, 0x23, 0x45, 0x67, 0x89, 0xAB, 0xCD, 0xEF];
    let conv_le = from_bytes(&bytes, 4, false).unwrap();
    let conv_be = from_bytes(&bytes, 4, true).unwrap();
    assert_eq!(conv_le, vec![0x67452301, 0xEFCDAB89]);
    assert_eq!(conv_be, vec![0x0123_4567, 0x89AB_CDEF]);
}

fn pack_unpack(xs: &Vec<u64>, width: usize, big_endian: bool) {
    let packed = to_bytes(xs, width, big_endian);
    assert_eq!(packed.len(), xs.len() * width);
    let unpacked = from_bytes(&packed, width, big_endian).unwrap();
    assert_eq!(&unpacked, xs);
}

#[test]
fn test_pack_unpack_symmetry() {
    let narrow: Vec<u64> = vec![0x00, 0x7F, 0x80, 0xFF];
    let medium: Vec<u64> = vec![0x0000, 0x1234, 0xABCD, 0xFFFF];
    let wide: Vec<u64> = vec![0x0000_0000, 0x0001_0000, 0xDEAD_BEEF, 0xFFFF_FFFF];
    for be in [false, true] {
        pack_unpack(&narrow, 1, be);
        pack_unpack(&medium, 2, be);
        pack_unpack(&wide, 4, be);
    }
}

#[test]
fn test_from_bytes_bad_stream_size() {
    let bytes: Vec<u8> = vec![0x01, 0x23, 0x45];
    let res = from_bytes(&bytes, 2, false);
    assert_eq!(res, Err(UnicodeEncodingError::InvalidStreamSize));
}
