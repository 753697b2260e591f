//! Conversion between Unicode transfer encodings (UTF-8, UTF-16, UTF-32,
//! CESU-8 and the legacy UTF-1) through a single canonical representation:
//! an ordered sequence of code point values stored as UTF-32.
//!
//! Every codec converts only to and from the canonical form, so any pair of
//! encodings can be bridged through it.  Each codec states what it produces
//! and accepts as a contract over mathematical sequences of bytes and code
//! point values, and the round-trip laws are proved from those contracts.

/// The common capability contract shared by all Unicode encodings in this
/// crate, together with the error taxonomy and the code point validator.
pub mod unicode_encoding;

/// Packing and unpacking of fixed-width unsigned integers to and from byte
/// buffers with a chosen endianness.
pub mod endian_aware_byte_streamer;

/// The UTF-32 codec: the canonical form that all other codecs convert to
/// and from.
pub mod utf_32;

/// The UTF-8 codec, which also bridges the other encodings to Rust's own
/// strings.
pub mod utf_8;

/// The UTF-16 codec, whose surrogate-pair rules also drive the validator
/// and the CESU-8 codec.
pub mod utf_16;

/// The now deprecated UTF-1 codec.
pub mod utf_1;

/// The CESU-8 codec, built by composing the UTF-16 splitting rule with the
/// short UTF-8 byte forms.
pub mod cesu_8;

use vstd::prelude::*;
use crate::unicode_encoding::{
    UnicodeEncoding, UnicodeEncodingError, checked_decode, valid_codepoint_seq, sanity_of,
};
use crate::utf_32::Utf32;
use crate::utf_8::Utf8;
use crate::utf_16::Utf16;
use crate::utf_1::Utf1;
use crate::cesu_8::Cesu8;

verus! {

/// Compare two string slices character by character.
fn str_eq(a: &str, b: &str) -> (r: bool)
    ensures
        r == (a@ == b@),
{
    let ab = a.as_bytes();
    let bb = b.as_bytes();
    proof {
        assert(a@ == b@ ==> ab@ == bb@);
    }
    if ab.len() != bb.len() {
        return false;
    }
    let mut i: usize = 0;
    while i < ab.len()
        invariant
            i <= ab@.len(),
            ab@.len() == bb@.len(),
            ab@ == vstd::utf8::encode_utf8(a@),
            bb@ == vstd::utf8::encode_utf8(b@),
            forall|k: int| 0 <= k < i ==> ab@[k] == bb@[k],
        decreases ab@.len() - i,
    {
        if ab[i] != bb[i] {
            proof {
                assert(a@ == b@ ==> ab@ == bb@);
            }
            return false;
        }
        i = i + 1;
    }
    proof {
        assert(ab@ =~= bb@);
        vstd::utf8::encode_utf8_decode_utf8(a@);
        vstd::utf8::encode_utf8_decode_utf8(b@);
    }
    true
}

/// True when the name denotes one of the encodings this crate recognizes.
pub open spec fn encoding_known(name: Seq<char>) -> bool {
    ||| name == "UTF-8"@
    ||| name == "UTF-1"@
    ||| name == "CESU-8"@
    ||| name == "UTF-16"@
    ||| name == "UTF-32"@
    ||| name == "UTF-16_be"@
    ||| name == "UTF-32_be"@
}

/// The canonical code points that decoding `bytes` under the named
/// encoding yields, or the first structural or validity error.  The `_be`
/// names force big-endian deserialization.
pub open spec fn decode_spec(bytes: Seq<u8>, name: Seq<char>, big_endian: bool) -> Result<
    Seq<u32>,
    UnicodeEncodingError,
>
    recommends
        encoding_known(name),
{
    if name == "UTF-8"@ {
        checked_decode::<Utf8>(bytes, big_endian)
    } else if name == "UTF-1"@ {
        checked_decode::<Utf1>(bytes, big_endian)
    } else if name == "CESU-8"@ {
        checked_decode::<Cesu8>(bytes, big_endian)
    } else if name == "UTF-16"@ {
        checked_decode::<Utf16>(bytes, big_endian)
    } else if name == "UTF-32"@ {
        checked_decode::<Utf32>(bytes, big_endian)
    } else if name == "UTF-16_be"@ {
        checked_decode::<Utf16>(bytes, true)
    } else {
        checked_decode::<Utf32>(bytes, true)
    }
}

/// The bytes that encoding the canonical code points `s` under the named
/// encoding yields.  The `_be` names force big-endian serialization.
pub open spec fn encode_spec(s: Seq<u32>, name: Seq<char>, big_endian: bool) -> Seq<u8>
    recommends
        encoding_known(name),
{
    if name == "UTF-8"@ {
        <Utf8 as UnicodeEncoding>::encoded(s, big_endian)
    } else if name == "UTF-1"@ {
        <Utf1 as UnicodeEncoding>::encoded(s, big_endian)
    } else if name == "CESU-8"@ {
        <Cesu8 as UnicodeEncoding>::encoded(s, big_endian)
    } else if name == "UTF-16"@ {
        <Utf16 as UnicodeEncoding>::encoded(s, big_endian)
    } else if name == "UTF-32"@ {
        <Utf32 as UnicodeEncoding>::encoded(s, big_endian)
    } else if name == "UTF-16_be"@ {
        <Utf16 as UnicodeEncoding>::encoded(s, true)
    } else {
        <Utf32 as UnicodeEncoding>::encoded(s, true)
    }
}

/// Decode a byte stream under the encoding named by `encoding_name` and
/// return its content in canonical form.  An unrecognized name yields
/// `None`; a recognized one yields the decoded code points or the first
/// structural or validity error.
pub fn decode(bytes: &[u8], encoding_name: &str, big_endian: bool) -> (r: Option<
    Result<Utf32, UnicodeEncodingError>,
>)
    ensures
        r is Some <==> encoding_known(encoding_name@),
        match r {
            Some(Ok(v)) => decode_spec(bytes@, encoding_name@, big_endian) == Ok::<
                Seq<u32>,
                UnicodeEncodingError,
            >(v@),
            Some(Err(e)) => decode_spec(bytes@, encoding_name@, big_endian) == Err::<
                Seq<u32>,
                UnicodeEncodingError,
            >(e),
            None => true,
        },
{
    if str_eq(encoding_name, "UTF-8") {
        Some(
            match Utf8::from_bytes(bytes, big_endian) {
                Ok(x) => Ok(x.to_utf_32()),
                Err(e) => Err(e),
            },
        )
    } else if str_eq(encoding_name, "UTF-1") {
        Some(
            match Utf1::from_bytes(bytes, big_endian) {
                Ok(x) => Ok(x.to_utf_32()),
                Err(e) => Err(e),
            },
        )
    } else if str_eq(encoding_name, "CESU-8") {
        Some(
            match Cesu8::from_bytes(bytes, big_endian) {
                Ok(x) => Ok(x.to_utf_32()),
                Err(e) => Err(e),
            },
        )
    } else if str_eq(encoding_name, "UTF-16") {
        Some(
            match Utf16::from_bytes(bytes, big_endian) {
                Ok(x) => Ok(x.to_utf_32()),
                Err(e) => Err(e),
            },
        )
    } else if str_eq(encoding_name, "UTF-32") {
        Some(
            match <Utf32 as UnicodeEncoding>::from_bytes(bytes, big_endian) {
                Ok(x) => Ok(x),
                Err(e) => Err(e),
            },
        )
    } else if str_eq(encoding_name, "UTF-16_be") {
        Some(
            match Utf16::from_bytes(bytes, true) {
                Ok(x) => Ok(x.to_utf_32()),
                Err(e) => Err(e),
            },
        )
    } else if str_eq(encoding_name, "UTF-32_be") {
        Some(
            match <Utf32 as UnicodeEncoding>::from_bytes(bytes, true) {
                Ok(x) => Ok(x),
                Err(e) => Err(e),
            },
        )
    } else {
        None
    }
}

/// Encode canonical content under the encoding named by `encoding_name`.
/// An unrecognized name yields `None`.  The content must be valid, and for
/// CESU-8 no leftover surrogate may immediately precede a
/// supplementary-plane code point.
pub fn encode(seq: &Utf32, encoding_name: &str, big_endian: bool) -> (r: Option<Vec<u8>>)
    requires
        valid_codepoint_seq(seq@),
        encoding_name@ == "CESU-8"@ ==> crate::cesu_8::cesu8_encodable(seq@),
    ensures
        r is Some <==> encoding_known(encoding_name@),
        match r {
            Some(v) => v@ == encode_spec(seq@, encoding_name@, big_endian),
            None => true,
        },
{
    if str_eq(encoding_name, "UTF-8") {
        Some(Utf8::from_utf_32(seq).to_bytes(big_endian))
    } else if str_eq(encoding_name, "UTF-1") {
        Some(Utf1::from_utf_32(seq).to_bytes(big_endian))
    } else if str_eq(encoding_name, "CESU-8") {
        Some(Cesu8::from_utf_32(seq).to_bytes(big_endian))
    } else if str_eq(encoding_name, "UTF-16") {
        Some(Utf16::from_utf_32(seq).to_bytes(big_endian))
    } else if str_eq(encoding_name, "UTF-32") {
        Some(Utf32::from_utf_32(seq).to_bytes(big_endian))
    } else if str_eq(encoding_name, "UTF-16_be") {
        Some(Utf16::from_utf_32(seq).to_bytes(true))
    } else if str_eq(encoding_name, "UTF-32_be") {
        Some(Utf32::from_utf_32(seq).to_bytes(true))
    } else {
        None
    }
}

/// Cross-codec equivalence: bytes encoded as UTF-8, carried through the
/// canonical form to UTF-16 and on to UTF-32 — which stores the canonical
/// form verbatim — and encoded back as UTF-8, are reproduced exactly.
pub proof fn lemma_cross_codec_equivalence(s: Seq<u32>)
    requires
        valid_codepoint_seq(s),
    ensures
        crate::utf_8::utf8_encode_seq(
            crate::utf_16::utf16_decode(
                crate::utf_16::utf16_encode_seq(
                    crate::utf_8::utf8_codepoints(crate::utf_8::utf8_encode_seq(s)),
                ),
            ),
        ) == crate::utf_8::utf8_encode_seq(s),
{
    assert forall|i: int| 0 <= i < s.len() implies #[trigger] s[i] < 0x200000 by {
        assert(s[i] <= 0x10FFFF);
    }
    crate::utf_8::lemma_utf8_decode_of_encode(s);
    crate::utf_16::lemma_utf16_decode_of_encode(s);
}

} // verus!
