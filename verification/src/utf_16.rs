//! The UTF-16 codec.  Code points up to `0xFFFF` are stored as one 16-bit
//! unit; supplementary-plane code points become a high/low surrogate pair.
//! Leftover surrogate code points pass through verbatim, trusting the
//! validator to have ruled out ambiguous adjacency.

use vstd::prelude::*;
use crate::unicode_encoding::{
    UnicodeEncoding, UnicodeEncodingError, is_surrogate_value, scalar_value_seq,
    valid_codepoint_seq, codepoints_of_chars,
};
use crate::utf_32::Utf32;
use crate::endian_aware_byte_streamer;
use crate::endian_aware_byte_streamer::{
    pack_spec, unpack_spec, lemma_pack_unpack, lemma_unpack_spec_bounds,
    lemma_pow256_value_8,
};

verus! {

/// True when `u` is a high (leading) surrogate unit.
pub open spec fn is_high_surrogate(u: u16) -> bool {
    0xD800 <= u <= 0xDBFF
}

/// True when `u` is a low (trailing) surrogate unit.
pub open spec fn is_low_surrogate(u: u16) -> bool {
    0xDC00 <= u <= 0xDFFF
}

/// The supplementary-plane code point a high/low surrogate pair stands for.
pub open spec fn surrogate_pair_value(hs: u16, ls: u16) -> u32
    recommends
        is_high_surrogate(hs),
        is_low_surrogate(ls),
{
    (0x10000 + (hs - 0xD800) * 0x400 + (ls - 0xDC00)) as u32
}

/// The UTF-16 units of one code point: the value itself below `0x10000`
/// (leftover surrogates included, verbatim), a surrogate pair above.
pub open spec fn utf16_encode_glyph(g: u32) -> Seq<u16>
    recommends
        g <= 0x10FFFF,
{
    if g < 0x10000 {
        seq![g as u16]
    } else {
        seq![
            (0xD800 + (g - 0x10000) / 0x400) as u16,
            (0xDC00 + (g - 0x10000) % 0x400) as u16,
        ]
    }
}

/// The UTF-16 units of a whole code point sequence.
pub open spec fn utf16_encode_seq(s: Seq<u32>) -> Seq<u16>
    decreases s.len(),
{
    if s.len() == 0 {
        Seq::empty()
    } else {
        utf16_encode_glyph(s[0]) + utf16_encode_seq(s.drop_first())
    }
}

/// The first code point stored in a unit sequence and how many units it
/// takes: a high surrogate followed by a low one combines, anything else
/// stands alone.  Decoding never fails.
pub open spec fn utf16_parse_front(units: Seq<u16>) -> (u32, int)
    recommends
        units.len() > 0,
{
    if is_high_surrogate(units[0]) && units.len() >= 2 && is_low_surrogate(units[1]) {
        (surrogate_pair_value(units[0], units[1]), 2)
    } else {
        (units[0] as u32, 1)
    }
}

/// All the code points a unit sequence stores.
pub open spec fn utf16_decode(units: Seq<u16>) -> Seq<u32>
    decreases units.len(),
{
    if units.len() == 0 {
        Seq::empty()
    } else {
        let (g, l) = utf16_parse_front(units);
        seq![g] + utf16_decode(units.skip(l))
    }
}

/// Round trip per UTF-16 glyph: the units of `g`, followed by units that do
/// not start with a low surrogate when `g` is a leftover high surrogate,
/// parse back to exactly `g`.
pub proof fn lemma_utf16_glyph_round_trip(g: u32, rest: Seq<u16>)
    requires
        g <= 0x10FFFF,
        0xD800 <= g <= 0xDBFF ==> rest.len() == 0 || !is_low_surrogate(rest[0]),
    ensures
        1 <= utf16_encode_glyph(g).len() <= 2,
        utf16_parse_front(utf16_encode_glyph(g) + rest) == (g, utf16_encode_glyph(g).len() as int),
    decreases g,
{
    let enc = utf16_encode_glyph(g);
    let units = enc + rest;
    if g < 0x10000 {
        assert(units[0] == g as u16);
    } else {
        let y = g - 0x10000;
        assert(y < 0x100000);
        assert(y / 0x400 <= 0x3FF) by {
            vstd::arithmetic::div_mod::lemma_div_is_ordered(y as int, 0xFFFFF, 0x400);
        }
        assert(units[0] == (0xD800 + y / 0x400) as u16);
        assert(units[1] == (0xDC00 + y % 0x400) as u16);
        assert(is_high_surrogate(units[0]));
        assert(is_low_surrogate(units[1]));
        vstd::arithmetic::div_mod::lemma_fundamental_div_mod(y as int, 0x400);
        assert(surrogate_pair_value(units[0], units[1]) == g);
    }
}

/// The first unit of an encoded sequence is never a low surrogate unless
/// its first code point itself is one.
proof fn lemma_encode_seq_first_unit(s: Seq<u32>)
    requires
        s.len() > 0,
        forall|i: int| 0 <= i < s.len() ==> #[trigger] s[i] <= 0x10FFFF,
    ensures
        utf16_encode_seq(s).len() > 0,
        is_low_surrogate(utf16_encode_seq(s)[0]) ==> 0xDC00 <= s[0] <= 0xDFFF,
{
    assert(s[0] <= 0x10FFFF);
    if s[0] >= 0x10000 {
        let y = s[0] - 0x10000;
        assert(y / 0x400 <= 0x3FF) by {
            vstd::arithmetic::div_mod::lemma_div_is_ordered(y as int, 0xFFFFF, 0x400);
        }
        assert(y / 0x400 >= 0) by {
            vstd::arithmetic::div_mod::lemma_div_pos_is_pos(y as int, 0x400);
        }
        assert(utf16_encode_seq(s)[0] == (0xD800 + y / 0x400) as u16);
    } else {
        assert(utf16_encode_seq(s)[0] == s[0] as u16);
    }
}

/// Round trip for whole sequences: decoding the encoded units of a valid
/// code point sequence yields it back.
pub proof fn lemma_utf16_decode_of_encode(s: Seq<u32>)
    requires
        valid_codepoint_seq(s),
    ensures
        utf16_decode(utf16_encode_seq(s)) == s,
    decreases s.len(),
{
    if s.len() == 0 {
        assert(utf16_decode(utf16_encode_seq(s)) =~= s);
    } else {
        let enc = utf16_encode_glyph(s[0]);
        let tail = s.drop_first();
        let rest = utf16_encode_seq(tail);
        assert(forall|i: int| 0 <= i < tail.len() ==> #[trigger] tail[i] == s[i + 1]);
        if 0xD800 <= s[0] <= 0xDBFF && tail.len() > 0 {
            assert(is_surrogate_value(s[0]) && !is_surrogate_value(s[1]));
            lemma_encode_seq_first_unit(tail);
            assert(!is_low_surrogate(rest[0]));
        }
        lemma_utf16_glyph_round_trip(s[0], rest);
        lemma_utf16_decode_of_encode(tail);
        let units = utf16_encode_seq(s);
        assert(units == enc + rest);
        assert(units.skip(enc.len() as int) =~= rest);
        assert(utf16_parse_front(units) == (s[0], enc.len() as int));
        assert(seq![s[0]] + tail =~= s);
    }
}

/// Encoding one more code point appends its units.
pub proof fn lemma_utf16_encode_seq_push(s: Seq<u32>, g: u32)
    ensures
        utf16_encode_seq(s.push(g)) == utf16_encode_seq(s) + utf16_encode_glyph(g),
    decreases s.len(),
{
    let all = s.push(g);
    if s.len() == 0 {
        assert(all.len() == 1);
        assert(all[0] == g);
        assert(all.drop_first() =~= Seq::<u32>::empty());
        assert(utf16_encode_seq(all) == utf16_encode_glyph(g) + utf16_encode_seq(
            Seq::<u32>::empty(),
        ));
        assert(utf16_encode_seq(all) =~= utf16_encode_seq(s) + utf16_encode_glyph(g));
    } else {
        lemma_utf16_encode_seq_push(s.drop_first(), g);
        assert(all[0] == s[0]);
        assert(all.drop_first() =~= s.drop_first().push(g));
        assert(utf16_encode_glyph(s[0]) + (utf16_encode_seq(s.drop_first())
            + utf16_encode_glyph(g)) =~= (utf16_encode_glyph(s[0]) + utf16_encode_seq(
            s.drop_first(),
        )) + utf16_encode_glyph(g));
    }
}

/// A very basic wrapper for UTF-16 encoded data.
pub struct Utf16 {
    /// The list of 16-bit UTF-16 code units.
    pub data: Vec<u16>,
}

/// Push the content of `vec2` onto the end of `vec1`.
fn transvase(vec1: &mut Vec<u16>, vec2: &Vec<u16>)
    ensures
        final(vec1)@ == old(vec1)@ + vec2@,
{
    let ghost base = vec1@;
    let mut i: usize = 0;
    proof {
        assert(base + vec2@.take(0) =~= base);
    }
    while i < vec2.len()
        invariant
            i <= vec2@.len(),
            vec1@ == base + vec2@.take(i as int),
        decreases vec2@.len() - i,
    {
        vec1.push(vec2[i]);
        i = i + 1;
        proof {
            assert(base + vec2@.take(i as int) =~= vec1@);
        }
    }
    proof {
        assert(vec2@.take(vec2@.len() as int) =~= vec2@);
    }
}

/// Widen units to the streamer's values.
fn u16s_to_u64s(v: &Vec<u16>) -> (r: Vec<u64>)
    ensures
        r@ == v@.map_values(|u: u16| u as u64),
{
    let mut ret: Vec<u64> = Vec::new();
    let mut i: usize = 0;
    while i < v.len()
        invariant
            i <= v@.len(),
            ret@.len() == i,
            forall|k: int| 0 <= k < i ==> ret@[k] == (#[trigger] v@[k]) as u64,
        decreases v@.len() - i,
    {
        ret.push(v[i] as u64);
        i = i + 1;
    }
    proof {
        assert(ret@ =~= v@.map_values(|u: u16| u as u64));
    }
    ret
}

/// Narrow the streamer's values back to units; values are truncated to 16
/// bits, as the cast does.
fn u64s_to_u16s(v: &Vec<u64>) -> (r: Vec<u16>)
    ensures
        r@ == v@.map_values(|x: u64| x as u16),
{
    let mut ret: Vec<u16> = Vec::new();
    let mut i: usize = 0;
    while i < v.len()
        invariant
            i <= v@.len(),
            ret@.len() == i,
            forall|k: int| 0 <= k < i ==> ret@[k] == (#[trigger] v@[k]) as u16,
        decreases v@.len() - i,
    {
        ret.push(v[i] as u16);
        i = i + 1;
    }
    proof {
        assert(ret@ =~= v@.map_values(|x: u64| x as u16));
    }
    ret
}

/// What the UTF-16 policy says of one code point: whether it stands alone
/// as a unit, needs a surrogate pair, is itself a leftover surrogate, or
/// exceeds the ceiling.
pub open spec fn glyph_to_utf16_spec(g: u32) -> Result<Seq<u16>, UnicodeEncodingError> {
    if is_surrogate_value(g) {
        Err(UnicodeEncodingError::UnpairedSurrogateNotification)
    } else if g > 0x10FFFF {
        Err(UnicodeEncodingError::InvalidCodepointTooManyBits)
    } else {
        Ok(utf16_encode_glyph(g))
    }
}

/// Turn a UTF-32 glyph into one or two 16-bit UTF-16 units.  A leftover
/// surrogate has no standalone encoding and reports
/// `UnpairedSurrogateNotification`; a value above the ceiling reports
/// `InvalidCodepointTooManyBits`.
pub fn utf_32_glyph_to_utf_16(glyph: u32) -> (r: Result<Vec<u16>, UnicodeEncodingError>)
    ensures
        match r {
            Ok(v) => glyph_to_utf16_spec(glyph) == Ok::<Seq<u16>, UnicodeEncodingError>(v@),
            Err(e) => glyph_to_utf16_spec(glyph) == Err::<Seq<u16>, UnicodeEncodingError>(e),
        },
{
    let mut ret: Vec<u16> = Vec::new();
    if glyph <= 0xD7FF || (0xE000 <= glyph && glyph <= 0xFFFF) {
        ret.push(glyph as u16);
        proof {
            assert(ret@ =~= utf16_encode_glyph(glyph));
        }
        Ok(ret)
    } else if 0x10000 <= glyph && glyph <= 0x10FFFF {
        let (high_surrogate, low_surrogate) = glyph_into_surrogates(glyph);
        ret.push(high_surrogate);
        ret.push(low_surrogate);
        proof {
            assert(ret@ =~= utf16_encode_glyph(glyph));
        }
        Ok(ret)
    } else if glyph > 0xD7FF && glyph < 0xE000 {
        Err(UnicodeEncodingError::UnpairedSurrogateNotification)
    } else {
        Err(UnicodeEncodingError::InvalidCodepointTooManyBits)
    }
}

/// What the validator asks of two adjacent code points:
/// `InvalidCodepointTooManyBits` when either of the two exceeds the
/// ceiling; otherwise `AmbiguousUnpairedSurrogates` exactly when both are
/// leftover surrogates; otherwise `NoError`.
pub open spec fn compatible_spec(glyph1: u32, glyph2: u32) -> UnicodeEncodingError {
    if glyph1 > 0x10FFFF || glyph2 > 0x10FFFF {
        UnicodeEncodingError::InvalidCodepointTooManyBits
    } else if is_surrogate_value(glyph1) && is_surrogate_value(glyph2) {
        UnicodeEncodingError::AmbiguousUnpairedSurrogates
    } else {
        UnicodeEncodingError::NoError
    }
}

/// Tells whether two code points can stand next to one another without the
/// ambiguity of two adjacent leftover surrogates, which UTF-16 storage
/// could not tell apart from a deliberate surrogate pair.  A code point
/// over the ceiling on either side is reported first.
pub fn compatible_codepoints(glyph1: u32, glyph2: u32) -> (r: UnicodeEncodingError)
    ensures
        r == compatible_spec(glyph1, glyph2),
{
    let first = utf_32_glyph_to_utf_16(glyph1);
    let second = utf_32_glyph_to_utf_16(glyph2);
    match first {
        Err(UnicodeEncodingError::InvalidCodepointTooManyBits) => {
            return UnicodeEncodingError::InvalidCodepointTooManyBits;
        },
        _ => {},
    }
    match second {
        Err(UnicodeEncodingError::InvalidCodepointTooManyBits) => {
            return UnicodeEncodingError::InvalidCodepointTooManyBits;
        },
        _ => {},
    }
    match first {
        Err(UnicodeEncodingError::UnpairedSurrogateNotification) => match second {
            Err(UnicodeEncodingError::UnpairedSurrogateNotification) => {
                UnicodeEncodingError::AmbiguousUnpairedSurrogates
            },
            _ => UnicodeEncodingError::NoError,
        },
        _ => UnicodeEncodingError::NoError,
    }
}

/// Turn a supplementary-plane code point into its high and low surrogates.
fn glyph_into_surrogates(glyph: u32) -> (r: (u16, u16))
    requires
        0x10000 <= glyph <= 0x10FFFF,
    ensures
        r.0 == (0xD800 + (glyph - 0x10000) / 0x400) as u16,
        r.1 == (0xDC00 + (glyph - 0x10000) % 0x400) as u16,
{
    let based_glyph = glyph - 0x10000;
    proof {
        vstd::arithmetic::div_mod::lemma_div_is_ordered(based_glyph as int, 0xFFFFF, 0x400);
    }
    let glyph_10_msb = (based_glyph / 0x400) as u16;
    let glyph_10_lsb = (based_glyph % 0x400) as u16;
    let high_surrogate = glyph_10_msb + 0xD800;
    let low_surrogate = glyph_10_lsb + 0xDC00;
    (high_surrogate, low_surrogate)
}

/// Turn a high and a low surrogate back into a supplementary-plane code
/// point.
fn surrogates_to_glyph(high_surrogate: u16, low_surrogate: u16) -> (r: u32)
    requires
        is_high_surrogate(high_surrogate),
        is_low_surrogate(low_surrogate),
    ensures
        r == surrogate_pair_value(high_surrogate, low_surrogate),
{
    let stripped_hs = (high_surrogate - 0xD800) as u32;
    let stripped_ls = (low_surrogate - 0xDC00) as u32;
    stripped_hs * 0x400 + stripped_ls + 0x10000
}

/// Turn the first glyph in a stream of UTF-16 units into a UTF-32 code
/// point, and tell how many units form that glyph.
pub fn utf_16_glyph_to_utf_32(utf16_data: &Vec<u16>, start: usize) -> (r: (u32, usize))
    requires
        start < utf16_data@.len(),
    ensures
        1 <= r.1 <= 2,
        start + r.1 <= utf16_data@.len(),
        (r.0, r.1 as int) == utf16_parse_front(utf16_data@.skip(start as int)),
{
    let ghost sub = utf16_data@.skip(start as int);
    proof {
        assert(sub[0] == utf16_data@[start as int]);
    }
    let u0 = utf16_data[start];
    if 0xD800 <= u0 && u0 <= 0xDBFF {
        if utf16_data.len() - 1 == start {
            // No unit follows: a leftover surrogate, returned as-is.
            (u0 as u32, 1)
        } else {
            let u1 = utf16_data[start + 1];
            proof {
                assert(sub[1] == utf16_data@[start + 1]);
            }
            if 0xDC00 <= u1 && u1 <= 0xDFFF {
                (surrogates_to_glyph(u0, u1), 2)
            } else {
                (u0 as u32, 1)
            }
        }
    } else {
        (u0 as u32, 1)
    }
}

impl Utf16 {
    /// Takes a Rust string and converts it into UTF-16 content.
    pub fn from_string(s: &str) -> (r: Result<Utf16, UnicodeEncodingError>)
        ensures
            match r {
                Ok(v) => v.wf() && v.codepoints() == codepoints_of_chars(s@),
                Err(_) => false,
            },
    {
        crate::unicode_encoding::from_string(s)
    }

    /// Converts the UTF-16 content to a Rust string.
    pub fn to_string(&self) -> (r: String)
        requires
            self.wf(),
            scalar_value_seq(self.codepoints()),
        ensures
            codepoints_of_chars(r@) == self.codepoints(),
    {
        crate::unicode_encoding::to_string(self)
    }
}

impl UnicodeEncoding for Utf16 {
    open spec fn codepoints(&self) -> Seq<u32> {
        utf16_decode(self.data@)
    }

    open spec fn wf(&self) -> bool {
        true
    }

    open spec fn encodable(s: Seq<u32>) -> bool {
        valid_codepoint_seq(s)
    }

    open spec fn encoded(s: Seq<u32>, big_endian: bool) -> Seq<u8> {
        pack_spec(utf16_encode_seq(s).map_values(|u: u16| u as u64), 2, big_endian)
    }

    open spec fn serialized(&self, big_endian: bool) -> Seq<u8> {
        pack_spec(self.data@.map_values(|u: u16| u as u64), 2, big_endian)
    }

    open spec fn decode_check(bytes: Seq<u8>, big_endian: bool) -> Result<
        Seq<u32>,
        UnicodeEncodingError,
    > {
        if bytes.len() % 2 != 0 {
            Err(UnicodeEncodingError::InvalidStreamSize)
        } else {
            Ok(utf16_decode(unpack_spec(bytes, 2, big_endian).map_values(|x: u64| x as u16)))
        }
    }

    proof fn lemma_scalar_seq_encodable(s: Seq<u32>) {
        crate::unicode_encoding::lemma_scalar_seq_is_valid(s);
    }

    /// Convert UTF-32 data to UTF-16.
    fn from_utf_32(data_utf_32: &Utf32) -> (r: Self) {
        let mut data: Vec<u16> = Vec::new();
        let n = data_utf_32.data.len();
        let mut i: usize = 0;
        proof {
            assert(data_utf_32.data@.take(0) =~= Seq::<u32>::empty());
            assert(data@ =~= utf16_encode_seq(data_utf_32.data@.take(0)));
        }
        while i < n
            invariant
                i <= n,
                n == data_utf_32.data@.len(),
                valid_codepoint_seq(data_utf_32.data@),
                data@ == utf16_encode_seq(data_utf_32.data@.take(i as int)),
            decreases n - i,
        {
            let glyph = data_utf_32.data[i];
            match utf_32_glyph_to_utf_16(glyph) {
                Ok(new_glyph) => {
                    transvase(&mut data, &new_glyph);
                },
                Err(UnicodeEncodingError::UnpairedSurrogateNotification) => {
                    // Sanitized data has no ambiguous adjacency, so a
                    // leftover surrogate can pass through verbatim.
                    data.push(glyph as u16);
                    proof {
                        assert(seq![glyph as u16] =~= utf16_encode_glyph(glyph));
                    }
                },
                Err(_) => {
                    proof {
                        assert(glyph <= 0x10FFFF);
                        assert(false);
                    }
                },
            }
            i = i + 1;
            proof {
                let t = data_utf_32.data@.take(i as int);
                assert(t.drop_last() =~= data_utf_32.data@.take(i - 1));
                assert(t.last() == data_utf_32.data@[i - 1]);
                lemma_utf16_encode_seq_push(t.drop_last(), t.last());
                assert(t.drop_last().push(t.last()) =~= t);
            }
        }
        proof {
            assert(data_utf_32.data@.take(n as int) =~= data_utf_32.data@);
            lemma_utf16_decode_of_encode(data_utf_32.data@);
        }
        Utf16 { data }
    }

    /// Convert UTF-16 data to UTF-32.
    fn to_utf_32(&self) -> (r: Utf32) {
        let n = self.data.len();
        let mut index: usize = 0;
        let mut data: Vec<u32> = Vec::new();
        proof {
            assert(self.data@.skip(0) =~= self.data@);
            assert(data@ + utf16_decode(self.data@.skip(0)) =~= utf16_decode(self.data@));
        }
        while index < n
            invariant
                index <= n,
                n == self.data@.len(),
                utf16_decode(self.data@) == data@ + utf16_decode(self.data@.skip(index as int)),
            decreases n - index,
        {
            let ghost sub = self.data@.skip(index as int);
            let (glyph, len) = utf_16_glyph_to_utf_32(&self.data, index);
            data.push(glyph);
            proof {
                assert(sub.skip(len as int) =~= self.data@.skip(index + len));
                let rest = utf16_decode(self.data@.skip(index + len));
                assert(utf16_decode(sub) =~= seq![glyph] + rest);
                assert(data@ + rest =~= utf16_decode(self.data@));
            }
            index = index + len;
        }
        proof {
            assert(self.data@.skip(n as int) =~= Seq::<u16>::empty());
            assert(data@ =~= utf16_decode(self.data@));
        }
        Utf32 { data }
    }

    fn from_bytes_no_check(bytes: &[u8], big_endian: bool) -> (r: Result<
        Self,
        UnicodeEncodingError,
    >) {
        let units = match endian_aware_byte_streamer::from_bytes(bytes, 2, big_endian) {
            Ok(u) => u,
            Err(e) => {
                return Err(e);
            },
        };
        let data = u64s_to_u16s(&units);
        let ret = Utf16 { data };
        proof {
            lemma_unpack_spec_bounds(bytes@, 2, big_endian);
            lemma_pow256_value_8();
            assert(ret.data@.map_values(|u: u16| u as u64) =~= units@);
            lemma_pack_unpack(bytes@, 2, big_endian);
        }
        Ok(ret)
    }

    fn to_bytes(&self, big_endian: bool) -> (r: Vec<u8>) {
        let units = u16s_to_u64s(&self.data);
        endian_aware_byte_streamer::to_bytes(&units, 2, big_endian)
    }
}

} // verus!
