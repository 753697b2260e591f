//! The error taxonomy shared by all codecs and the validity notions for
//! canonical code point sequences.

use vstd::prelude::*;
use crate::utf_32::Utf32;

verus! {

/// Everything that can go wrong while decoding or validating Unicode data,
/// plus `NoError`, which the validator returns on clean data.
#[derive(Debug, Clone, Copy, PartialEq, Eq, Structural)]
pub enum UnicodeEncodingError {
    /// The data is valid.
    NoError,
    /// A code point value exceeds the UTF-16 ceiling of `0x10FFFF`.
    InvalidCodepointTooManyBits,
    /// The byte count is not a multiple of the fixed code unit width.
    InvalidStreamSize,
    /// A lead byte matches none of the UTF-8 prefix templates.
    InvalidUtf8Prefix,
    /// A continuation byte does not match the `10xxxxxx` template.
    IncoherentUtf8Codepoint,
    /// The buffer ends before the announced glyph is complete.
    MissingEncodedBytes,
    /// Two adjacent code points are each leftover surrogates, which UTF-16
    /// storage could not tell apart from a deliberate surrogate pair.
    AmbiguousUnpairedSurrogates,
    /// Internal signal: a single code point is a leftover surrogate that has
    /// no standalone UTF-16 encoding; callers may pass it through verbatim.
    UnpairedSurrogateNotification,
}

/// True when `g` lies in the UTF-16 surrogate range `0xD800..=0xDFFF`.
pub open spec fn is_surrogate_value(g: u32) -> bool {
    0xD800 <= g <= 0xDFFF
}

/// True when `g` is a Unicode scalar value: at most `0x10FFFF` and not a
/// surrogate.  Rust's `char` holds exactly these values.
pub open spec fn is_scalar_value(g: u32) -> bool {
    g <= 0x10FFFF && !is_surrogate_value(g)
}

/// True when every element of `s` is a Unicode scalar value.
pub open spec fn scalar_value_seq(s: Seq<u32>) -> bool {
    forall|i: int| 0 <= i < s.len() ==> is_scalar_value(#[trigger] s[i])
}

/// What the validator accepts: every code point is at most `0x10FFFF`, and
/// no two adjacent code points are both leftover surrogates.
pub open spec fn valid_codepoint_seq(s: Seq<u32>) -> bool {
    &&& forall|i: int| 0 <= i < s.len() ==> #[trigger] s[i] <= 0x10FFFF
    &&& forall|i: int|
        0 <= i < s.len() - 1 ==> !(is_surrogate_value(#[trigger] s[i]) && is_surrogate_value(
            s[i + 1],
        ))
}

/// The first error the validator meets while scanning `s` left to right from
/// position `i`: a too-large code point at the position itself, or an
/// ambiguous pair starting there.
pub open spec fn sanity_from(s: Seq<u32>, i: int) -> UnicodeEncodingError
    decreases s.len() - i,
{
    if i >= s.len() {
        UnicodeEncodingError::NoError
    } else if s[i] > 0x10FFFF {
        UnicodeEncodingError::InvalidCodepointTooManyBits
    } else if i + 1 < s.len() && is_surrogate_value(s[i]) && is_surrogate_value(s[i + 1]) {
        UnicodeEncodingError::AmbiguousUnpairedSurrogates
    } else {
        sanity_from(s, i + 1)
    }
}

/// The validator's verdict on the whole sequence.
pub open spec fn sanity_of(s: Seq<u32>) -> UnicodeEncodingError {
    sanity_from(s, 0)
}

proof fn lemma_sanity_from_no_error(s: Seq<u32>, i: int)
    requires
        0 <= i <= s.len(),
    ensures
        sanity_from(s, i) == UnicodeEncodingError::NoError <==> ((forall|j: int|
            i <= j < s.len() ==> #[trigger] s[j] <= 0x10FFFF) && (forall|j: int|
            i <= j < s.len() - 1 ==> !(is_surrogate_value(#[trigger] s[j]) && is_surrogate_value(
                s[j + 1],
            )))),
    decreases s.len() - i,
{
    if i < s.len() {
        lemma_sanity_from_no_error(s, i + 1);
    }
}

/// The validator finds no error exactly on the valid sequences.
pub proof fn lemma_sanity_no_error_iff_valid(s: Seq<u32>)
    ensures
        sanity_of(s) == UnicodeEncodingError::NoError <==> valid_codepoint_seq(s),
{
    lemma_sanity_from_no_error(s, 0);
}

/// The code point values of a character sequence.
pub open spec fn codepoints_of_chars(cs: Seq<char>) -> Seq<u32> {
    cs.map_values(|c: char| c as u32)
}

/// A sequence of scalar values is in particular a valid code point sequence.
pub proof fn lemma_scalar_seq_is_valid(s: Seq<u32>)
    requires
        scalar_value_seq(s),
    ensures
        valid_codepoint_seq(s),
{
}

/// The basic capabilities shared by all the Unicode encodings in this
/// crate: converting from and to the canonical UTF-32 form, and reading and
/// writing raw bytes.  Each codec gives meaning to the shared contract
/// through its spec functions: the code points a value represents, the
/// bytes it serializes to, and what structural deserialization yields.
pub trait UnicodeEncoding: Sized {
    /// The canonical code point sequence this value represents.
    spec fn codepoints(&self) -> Seq<u32>;

    /// Structural well-formedness of the stored data: decoding it back to
    /// code points cannot fail.
    spec fn wf(&self) -> bool;

    /// The code point sequences this codec stores and reproduces exactly.
    spec fn encodable(s: Seq<u32>) -> bool;

    /// The bytes that freshly encoding `s` produces.
    spec fn encoded(s: Seq<u32>, big_endian: bool) -> Seq<u8>
        recommends
            Self::encodable(s),
    ;

    /// The bytes this value serializes to.
    spec fn serialized(&self, big_endian: bool) -> Seq<u8>
        recommends
            self.wf(),
    ;

    /// What structural deserialization makes of `bytes`: the code points it
    /// stores, or the structural error it reports.
    spec fn decode_check(bytes: Seq<u8>, big_endian: bool) -> Result<Seq<u32>, UnicodeEncodingError>;

    /// Every sequence of scalar values is encodable, whatever the codec;
    /// in particular everything that comes from a host string is.
    proof fn lemma_scalar_seq_encodable(s: Seq<u32>)
        requires
            scalar_value_seq(s),
        ensures
            Self::encodable(s),
    ;

    /// The function `from_utf_32` takes a `Utf32` value and encodes its
    /// content in this encoding, exactly: decoding the result yields the
    /// same code points.  It should always be implemented by the encoding's
    /// type.
    fn from_utf_32(data_utf_32: &Utf32) -> (r: Self)
        requires
            Self::encodable(data_utf_32@),
        ensures
            r.wf(),
            r.codepoints() == data_utf_32@,
            r.serialized(false) == Self::encoded(data_utf_32@, false),
            r.serialized(true) == Self::encoded(data_utf_32@, true),
    ;

    /// The function `to_utf_32` decodes this value into the canonical
    /// UTF-32 form.  It should always be implemented by the encoding's
    /// type.
    fn to_utf_32(&self) -> (r: Utf32)
        requires
            self.wf(),
        ensures
            r@ == self.codepoints(),
    ;

    /// The function `from_bytes_no_check` interprets a stream of bytes as
    /// this encoding, with only the structural checks deserialization
    /// itself needs and no validity check on the code points.
    fn from_bytes_no_check(bytes: &[u8], big_endian: bool) -> (r: Result<
        Self,
        UnicodeEncodingError,
    >)
        ensures
            match r {
                Ok(v) => {
                    &&& v.wf()
                    &&& Self::decode_check(bytes@, big_endian) == Ok::<
                        Seq<u32>,
                        UnicodeEncodingError,
                    >(v.codepoints())
                    &&& v.serialized(big_endian) == bytes@
                },
                Err(e) => Self::decode_check(bytes@, big_endian) == Err::<
                    Seq<u32>,
                    UnicodeEncodingError,
                >(e),
            },
    ;

    /// The function `to_bytes` serializes the encoded content to raw
    /// bytes; it never fails.
    fn to_bytes(&self, big_endian: bool) -> (r: Vec<u8>)
        requires
            self.wf(),
        ensures
            r@ == self.serialized(big_endian),
    ;

    /// Checks that the Unicode data is valid: every code point within the
    /// ceiling and no ambiguous adjacent leftover surrogates.
    fn check_sanity(&self) -> (r: UnicodeEncodingError)
        requires
            self.wf(),
        ensures
            r == sanity_of(self.codepoints()),
    {
        let utf32 = self.to_utf_32();
        utf32.check_sanity_utf32()
    }

    /// The function `from_bytes` interprets a stream of bytes as this
    /// encoding and then validates the decoded code points, returning the
    /// first structural or validity error found.
    fn from_bytes(bytes: &[u8], big_endian: bool) -> (r: Result<Self, UnicodeEncodingError>)
        ensures
            match r {
                Ok(v) => {
                    &&& v.wf()
                    &&& Self::decode_check(bytes@, big_endian) == Ok::<
                        Seq<u32>,
                        UnicodeEncodingError,
                    >(v.codepoints())
                    &&& v.serialized(big_endian) == bytes@
                    &&& sanity_of(v.codepoints()) == UnicodeEncodingError::NoError
                },
                Err(e) => match Self::decode_check(bytes@, big_endian) {
                    Ok(s) => e == sanity_of(s) && e != UnicodeEncodingError::NoError,
                    Err(e2) => e == e2,
                },
            },
    {
        let ret = match Self::from_bytes_no_check(bytes, big_endian) {
            Ok(x) => x,
            Err(e) => {
                return Err(e);
            },
        };
        match ret.check_sanity() {
            UnicodeEncodingError::NoError => Ok(ret),
            x => Err(x),
        }
    }
}

/// What a validating decode yields on `bytes`: the structural parse
/// followed by the validator's verdict, the first error winning.
pub open spec fn checked_decode<T: UnicodeEncoding>(bytes: Seq<u8>, big_endian: bool) -> Result<
    Seq<u32>,
    UnicodeEncodingError,
> {
    match T::decode_check(bytes, big_endian) {
        Err(e) => Err(e),
        Ok(s) => if sanity_of(s) == UnicodeEncodingError::NoError {
            Ok(s)
        } else {
            Err(sanity_of(s))
        },
    }
}

/// Converts content from one Unicode encoding to another, through the
/// canonical form: the result represents the same code points.
pub fn convert_to<A: UnicodeEncoding, B: UnicodeEncoding>(source: &A) -> (r: B)
    requires
        source.wf(),
        B::encodable(source.codepoints()),
    ensures
        r.wf(),
        r.codepoints() == source.codepoints(),
        r.serialized(false) == B::encoded(source.codepoints(), false),
        r.serialized(true) == B::encoded(source.codepoints(), true),
{
    let utf32 = source.to_utf_32();
    B::from_utf_32(&utf32)
}

/// Converts encoded Unicode content to a Rust string, through UTF-8.  The
/// content must hold scalar values only, which is what every string-derived
/// or validated surrogate-free content holds.
pub fn to_string<A: UnicodeEncoding>(source: &A) -> (r: String)
    requires
        source.wf(),
        scalar_value_seq(source.codepoints()),
    ensures
        codepoints_of_chars(r@) == source.codepoints(),
{
    let utf8: crate::utf_8::Utf8 = convert_to(source);
    utf8.to_string()
}

/// Takes a Rust string and converts it into Unicode content in the chosen
/// encoding, through UTF-8; this never fails.
pub fn from_string<B: UnicodeEncoding>(s: &str) -> (r: Result<B, UnicodeEncodingError>)
    ensures
        match r {
            Ok(v) => {
                &&& v.wf()
                &&& v.codepoints() == codepoints_of_chars(s@)
                &&& v.serialized(false) == B::encoded(codepoints_of_chars(s@), false)
                &&& v.serialized(true) == B::encoded(codepoints_of_chars(s@), true)
            },
            Err(_) => false,
        },
{
    let utf8 = match crate::utf_8::Utf8::from_string(s) {
        Ok(x) => x,
        Err(e) => {
            return Err(e);
        },
    };
    proof {
        crate::utf_8::lemma_chars_are_scalar(s@);
        B::lemma_scalar_seq_encodable(codepoints_of_chars(s@));
    }
    Ok(convert_to(&utf8))
}

/// Tells whether two encoded contents are equal, regardless of the
/// encodings they are stored in.
pub fn content_eq<A: UnicodeEncoding, B: UnicodeEncoding>(a: &A, b: &B) -> (r: bool)
    requires
        a.wf(),
        b.wf(),
    ensures
        r == (a.codepoints() == b.codepoints()),
{
    let a32 = a.to_utf_32();
    let b32 = b.to_utf_32();
    a32 == b32
}

} // verus!
