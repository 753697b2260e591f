//! The UTF-32 codec and the canonical form itself.  Every other codec
//! converts only to and from UTF-32, so this module only reads and writes
//! code point values from and to byte streams.

use vstd::prelude::*;
use crate::unicode_encoding::{UnicodeEncoding, UnicodeEncodingError, sanity_of, sanity_from};
use crate::endian_aware_byte_streamer;
use crate::endian_aware_byte_streamer::{
    pack_spec, unpack_spec, lemma_pack_unpack, lemma_unpack_spec_bounds,
    lemma_pow256_value_8,
};

verus! {

/// A very basic wrapper for UTF-32 encoded data.
pub struct Utf32 {
    /// The Unicode glyphs as code point values, as UTF-32 defines them.
    pub data: Vec<u32>,
}

impl View for Utf32 {
    type V = Seq<u32>;

    open spec fn view(&self) -> Seq<u32> {
        self.data@
    }
}

/// The bytes that serializing a code point sequence as UTF-32 produces.
pub open spec fn utf32_bytes(s: Seq<u32>, big_endian: bool) -> Seq<u8> {
    pack_spec(s.map_values(|g: u32| g as u64), 4, big_endian)
}

/// Copy a vector of code points element by element.
fn copy_u32_vec(v: &Vec<u32>) -> (r: Vec<u32>)
    ensures
        r@ == v@,
{
    let mut ret: Vec<u32> = Vec::new();
    let mut i: usize = 0;
    while i < v.len()
        invariant
            i <= v@.len(),
            ret@ == v@.take(i as int),
        decreases v@.len() - i,
    {
        ret.push(v[i]);
        i = i + 1;
        proof {
            assert(ret@ =~= v@.take(i as int));
        }
    }
    proof {
        assert(ret@ =~= v@);
    }
    ret
}

/// Widen code points to the streamer's unit values.
fn u32s_to_u64s(v: &Vec<u32>) -> (r: Vec<u64>)
    ensures
        r@ == v@.map_values(|g: u32| g as u64),
{
    let mut ret: Vec<u64> = Vec::new();
    let mut i: usize = 0;
    while i < v.len()
        invariant
            i <= v@.len(),
            ret@.len() == i,
            forall|k: int| 0 <= k < i ==> ret@[k] == (#[trigger] v@[k]) as u64,
        decreases v@.len() - i,
    {
        ret.push(v[i] as u64);
        i = i + 1;
    }
    proof {
        assert(ret@ =~= v@.map_values(|g: u32| g as u64));
    }
    ret
}

/// Narrow the streamer's unit values back to code points; values are
/// truncated to 32 bits, as the cast does.
fn u64s_to_u32s(v: &Vec<u64>) -> (r: Vec<u32>)
    ensures
        r@ == v@.map_values(|x: u64| x as u32),
{
    let mut ret: Vec<u32> = Vec::new();
    let mut i: usize = 0;
    while i < v.len()
        invariant
            i <= v@.len(),
            ret@.len() == i,
            forall|k: int| 0 <= k < i ==> ret@[k] == (#[trigger] v@[k]) as u32,
        decreases v@.len() - i,
    {
        ret.push(v[i] as u32);
        i = i + 1;
    }
    proof {
        assert(ret@ =~= v@.map_values(|x: u64| x as u32));
    }
    ret
}

impl PartialEq for Utf32 {
    fn eq(&self, other: &Utf32) -> (r: bool) {
        if self.data.len() != other.data.len() {
            return false;
        }
        let mut i: usize = 0;
        while i < self.data.len()
            invariant
                i <= self.data@.len(),
                self.data@.len() == other.data@.len(),
                forall|k: int| 0 <= k < i ==> self.data@[k] == other.data@[k],
            decreases self.data@.len() - i,
        {
            if self.data[i] != other.data[i] {
                return false;
            }
            i = i + 1;
        }
        proof {
            assert(self.data@ =~= other.data@);
        }
        true
    }
}

impl vstd::std_specs::cmp::PartialEqSpecImpl for Utf32 {
    open spec fn obeys_eq_spec() -> bool {
        true
    }

    open spec fn eq_spec(&self, other: &Utf32) -> bool {
        self.data@ == other.data@
    }
}

impl Clone for Utf32 {
    /// Cloning copies the code points exactly.
    fn clone(&self) -> (r: Utf32)
        ensures
            r@ == self@,
    {
        Utf32 { data: copy_u32_vec(&self.data) }
    }
}

impl Utf32 {
    /// Takes a Rust string and converts it to the canonical form: one code
    /// point per character.
    pub fn from_string(s: &str) -> (r: Result<Utf32, UnicodeEncodingError>)
        ensures
            match r {
                Ok(v) => v@ == crate::unicode_encoding::codepoints_of_chars(s@),
                Err(_) => false,
            },
    {
        crate::unicode_encoding::from_string(s)
    }

    /// Converts the canonical content to a Rust string.
    pub fn to_string(&self) -> (r: String)
        requires
            crate::unicode_encoding::scalar_value_seq(self@),
        ensures
            crate::unicode_encoding::codepoints_of_chars(r@) == self@,
    {
        crate::unicode_encoding::to_string(self)
    }

    /// Scan the code points left to right and report the first validity
    /// error: a value above the UTF-16 ceiling, or two adjacent leftover
    /// surrogates.
    pub fn check_sanity_utf32(&self) -> (r: UnicodeEncodingError)
        ensures
            r == sanity_of(self.data@),
    {
        let n = self.data.len();
        let mut i: usize = 0;
        while i < n
            invariant
                i <= n,
                n == self.data@.len(),
                sanity_of(self.data@) == sanity_from(self.data@, i as int),
            decreases n - i,
        {
            if self.data[i] > 0x10FFFF {
                return UnicodeEncodingError::InvalidCodepointTooManyBits;
            }
            if i + 1 < n {
                let a = self.data[i];
                let b = self.data[i + 1];
                if 0xD800 <= a && a <= 0xDFFF && 0xD800 <= b && b <= 0xDFFF {
                    return UnicodeEncodingError::AmbiguousUnpairedSurrogates;
                }
            }
            i = i + 1;
        }
        UnicodeEncodingError::NoError
    }

    /// Structural deserialization of raw UTF-32 code units.  UTF-32 stores
    /// code points verbatim, so no validity check is run here; this shadows
    /// the checked `from_bytes` of the shared contract, as callers of the
    /// UTF-32 type read raw values.
    pub fn from_bytes(bytes: &[u8], big_endian: bool) -> (r: Result<Utf32, UnicodeEncodingError>)
        ensures
            match r {
                Ok(v) => bytes@.len() as int % 4 == 0 && v@ == unpack_spec(
                    bytes@,
                    4,
                    big_endian,
                ).map_values(|x: u64| x as u32) && utf32_bytes(v@, big_endian) == bytes@,
                Err(e) => e == UnicodeEncodingError::InvalidStreamSize && bytes@.len() as int % 4
                    != 0,
            },
    {
        <Utf32 as UnicodeEncoding>::from_bytes_no_check(bytes, big_endian)
    }
}

impl UnicodeEncoding for Utf32 {
    open spec fn codepoints(&self) -> Seq<u32> {
        self.data@
    }

    open spec fn wf(&self) -> bool {
        true
    }

    open spec fn encodable(s: Seq<u32>) -> bool {
        true
    }

    open spec fn encoded(s: Seq<u32>, big_endian: bool) -> Seq<u8> {
        utf32_bytes(s, big_endian)
    }

    open spec fn serialized(&self, big_endian: bool) -> Seq<u8> {
        utf32_bytes(self.data@, big_endian)
    }

    open spec fn decode_check(bytes: Seq<u8>, big_endian: bool) -> Result<
        Seq<u32>,
        UnicodeEncodingError,
    > {
        if bytes.len() % 4 != 0 {
            Err(UnicodeEncodingError::InvalidStreamSize)
        } else {
            Ok(unpack_spec(bytes, 4, big_endian).map_values(|x: u64| x as u32))
        }
    }

    proof fn lemma_scalar_seq_encodable(s: Seq<u32>) {
    }

    /// A quite dummy function to comply with the shared contract: UTF-32
    /// already is the canonical form.
    fn from_utf_32(data_utf_32: &Utf32) -> (r: Self) {
        data_utf_32.clone()
    }

    /// A quite dummy function to comply with the shared contract.
    fn to_utf_32(&self) -> (r: Utf32) {
        self.clone()
    }

    fn from_bytes_no_check(bytes: &[u8], big_endian: bool) -> (r: Result<
        Self,
        UnicodeEncodingError,
    >) {
        let units = match endian_aware_byte_streamer::from_bytes(bytes, 4, big_endian) {
            Ok(u) => u,
            Err(e) => {
                return Err(e);
            },
        };
        let data = u64s_to_u32s(&units);
        let ret = Utf32 { data };
        proof {
            lemma_unpack_spec_bounds(bytes@, 4, big_endian);
            lemma_pow256_value_8();
            assert(ret.data@.map_values(|g: u32| g as u64) =~= units@);
            lemma_pack_unpack(bytes@, 4, big_endian);
        }
        Ok(ret)
    }

    fn to_bytes(&self, big_endian: bool) -> (r: Vec<u8>) {
        let units = u32s_to_u64s(&self.data);
        endian_aware_byte_streamer::to_bytes(&units, 4, big_endian)
    }
}

} // verus!
