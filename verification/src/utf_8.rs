//! The UTF-8 codec.  It is quite important, as it also bridges the other
//! encodings to Rust's own strings.
//!
//! The decoder here is deliberately permissive, as the shared contract asks
//! only for structural checks: it accepts any lead byte matching one of the
//! four prefix templates with well-formed continuation bytes, which includes
//! over-long forms and code points up to the 21-bit ceiling.  Validity of
//! the decoded code points is the validator's business.

use vstd::prelude::*;
use vstd::utf8::{
    is_leading_byte_width_1, is_leading_byte_width_2, is_leading_byte_width_3,
    is_leading_byte_width_4, is_continuation_byte, codepoint_width_1, codepoint_width_2,
    codepoint_width_3, codepoint_width_4, decode_first_codepoint, leading_byte_width_1,
    leading_byte_width_2, leading_byte_width_3, leading_byte_width_4, last_continuation_byte,
    second_last_continuation_byte, third_last_continuation_byte, encode_scalar, encode_utf8,
    valid_utf8, decode_utf8, is_scalar, char_is_scalar, char_u32_cast, encode_utf8_valid_utf8,
    encode_utf8_decode_utf8,
};
use vstd::arithmetic::power2::{pow2, lemma2_to64, lemma_pow2_strictly_increases, lemma_pow2_adds};
use crate::unicode_encoding::{
    UnicodeEncoding, UnicodeEncodingError, is_scalar_value, is_surrogate_value, scalar_value_seq,
    codepoints_of_chars,
};
use crate::utf_32::Utf32;

verus! {

/// The byte length a UTF-8 lead byte announces; 0 when it matches none of
/// the four prefix templates.
pub open spec fn utf8_glyph_len(b: u8) -> int {
    if is_leading_byte_width_1(b) {
        1
    } else if is_leading_byte_width_2(b) {
        2
    } else if is_leading_byte_width_3(b) {
        3
    } else if is_leading_byte_width_4(b) {
        4
    } else {
        0
    }
}

/// Structural parse of the first glyph of `bytes`: the code point it holds
/// and its byte length, or the first structural error in the order the
/// decoder meets them.
pub open spec fn utf8_parse_front(bytes: Seq<u8>) -> Result<(u32, int), UnicodeEncodingError>
    recommends
        bytes.len() > 0,
{
    let l = utf8_glyph_len(bytes[0]);
    if l == 0 {
        Err(UnicodeEncodingError::InvalidUtf8Prefix)
    } else if l > bytes.len() {
        Err(UnicodeEncodingError::MissingEncodedBytes)
    } else if (l >= 2 && !is_continuation_byte(bytes[1])) || (l >= 3 && !is_continuation_byte(
        bytes[2],
    )) || (l >= 4 && !is_continuation_byte(bytes[3])) {
        Err(UnicodeEncodingError::IncoherentUtf8Codepoint)
    } else {
        Ok((decode_first_codepoint(bytes), l))
    }
}

/// Structural decode of a whole UTF-8 buffer into code point values, or the
/// first structural error met scanning left to right.
pub open spec fn utf8_decode_res(bytes: Seq<u8>) -> Result<Seq<u32>, UnicodeEncodingError>
    decreases bytes.len(),
{
    if bytes.len() == 0 {
        Ok(Seq::empty())
    } else {
        match utf8_parse_front(bytes) {
            Err(e) => Err(e),
            Ok((g, l)) => match utf8_decode_res(bytes.skip(l)) {
                Err(e) => Err(e),
                Ok(rest) => Ok(seq![g] + rest),
            },
        }
    }
}

/// True when the whole buffer parses as UTF-8 glyphs.
pub open spec fn utf8_wf(bytes: Seq<u8>) -> bool {
    utf8_decode_res(bytes) is Ok
}

/// The code points a well-formed UTF-8 buffer holds.
pub open spec fn utf8_codepoints(bytes: Seq<u8>) -> Seq<u32>
    recommends
        utf8_wf(bytes),
{
    utf8_decode_res(bytes)->Ok_0
}

/// The UTF-8 bytes of one code point, under the permissive 21-bit rule:
/// over-long never, but surrogates and anything below `0x200000` encode.
pub open spec fn utf8_encode_glyph(g: u32) -> Seq<u8>
    recommends
        g < 0x200000,
{
    if g <= 0x7F {
        seq![leading_byte_width_1(g)]
    } else if g <= 0x7FF {
        seq![leading_byte_width_2(g), last_continuation_byte(g)]
    } else if g <= 0xFFFF {
        seq![
            leading_byte_width_3(g),
            second_last_continuation_byte(g),
            last_continuation_byte(g),
        ]
    } else {
        seq![
            leading_byte_width_4(g),
            third_last_continuation_byte(g),
            second_last_continuation_byte(g),
            last_continuation_byte(g),
        ]
    }
}

/// The UTF-8 bytes of a whole code point sequence.
pub open spec fn utf8_encode_seq(s: Seq<u32>) -> Seq<u8>
    decreases s.len(),
{
    if s.len() == 0 {
        Seq::empty()
    } else {
        utf8_encode_glyph(s[0]) + utf8_encode_seq(s.drop_first())
    }
}

proof fn lemma_glyph_rt_1(g: u32)
    by (bit_vector)
    requires
        g <= 0x7F,
    ensures
        ({
            let b1 = leading_byte_width_1(g);
            &&& is_leading_byte_width_1(b1)
            &&& codepoint_width_1(b1) == g
        }),
{
}

proof fn lemma_glyph_rt_2(g: u32)
    by (bit_vector)
    requires
        0x80 <= g <= 0x7FF,
    ensures
        ({
            let b1 = leading_byte_width_2(g);
            let b2 = last_continuation_byte(g);
            &&& is_leading_byte_width_2(b1)
            &&& is_continuation_byte(b2)
            &&& codepoint_width_2(b1, b2) == g
        }),
{
}

proof fn lemma_glyph_rt_3(g: u32)
    by (bit_vector)
    requires
        0x800 <= g <= 0xFFFF,
    ensures
        ({
            let b1 = leading_byte_width_3(g);
            let b2 = second_last_continuation_byte(g);
            let b3 = last_continuation_byte(g);
            &&& is_leading_byte_width_3(b1)
            &&& is_continuation_byte(b2)
            &&& is_continuation_byte(b3)
            &&& codepoint_width_3(b1, b2, b3) == g
        }),
{
}

proof fn lemma_glyph_rt_4(g: u32)
    by (bit_vector)
    requires
        0x10000 <= g <= 0x1FFFFF,
    ensures
        ({
            let b1 = leading_byte_width_4(g);
            let b2 = third_last_continuation_byte(g);
            let b3 = second_last_continuation_byte(g);
            let b4 = last_continuation_byte(g);
            &&& is_leading_byte_width_4(b1)
            &&& is_continuation_byte(b2)
            &&& is_continuation_byte(b3)
            &&& is_continuation_byte(b4)
            &&& codepoint_width_4(b1, b2, b3, b4) == g
        }),
{
}

/// Round trip per UTF-8 glyph: the encoding of `g`, followed by anything,
/// parses back to exactly `g`, consuming exactly the bytes the encoder
/// produced.
pub proof fn lemma_utf8_glyph_round_trip(g: u32, rest: Seq<u8>)
    requires
        g < 0x200000,
    ensures
        1 <= utf8_encode_glyph(g).len() <= 4,
        utf8_parse_front(utf8_encode_glyph(g) + rest) == Ok::<(u32, int), UnicodeEncodingError>(
            (g, utf8_encode_glyph(g).len() as int),
        ),
{
    let enc = utf8_encode_glyph(g);
    let bytes = enc + rest;
    if g <= 0x7F {
        lemma_glyph_rt_1(g);
        assert(bytes[0] == leading_byte_width_1(g));
    } else if g <= 0x7FF {
        lemma_glyph_rt_2(g);
        assert(bytes[0] == leading_byte_width_2(g));
        assert(bytes[1] == last_continuation_byte(g));
    } else if g <= 0xFFFF {
        lemma_glyph_rt_3(g);
        assert(bytes[0] == leading_byte_width_3(g));
        assert(bytes[1] == second_last_continuation_byte(g));
        assert(bytes[2] == last_continuation_byte(g));
    } else {
        lemma_glyph_rt_4(g);
        assert(bytes[0] == leading_byte_width_4(g));
        assert(bytes[1] == third_last_continuation_byte(g));
        assert(bytes[2] == second_last_continuation_byte(g));
        assert(bytes[3] == last_continuation_byte(g));
    }
}

/// Round trip for whole sequences: decoding an encoded sequence of code
/// points below the 21-bit ceiling yields it back, with no error.
pub proof fn lemma_utf8_decode_of_encode(s: Seq<u32>)
    requires
        forall|i: int| 0 <= i < s.len() ==> #[trigger] s[i] < 0x200000,
    ensures
        utf8_decode_res(utf8_encode_seq(s)) == Ok::<Seq<u32>, UnicodeEncodingError>(s),
    decreases s.len(),
{
    if s.len() == 0 {
        assert(s =~= Seq::<u32>::empty());
    } else {
        let enc = utf8_encode_glyph(s[0]);
        let tail = s.drop_first();
        let rest = utf8_encode_seq(tail);
        lemma_utf8_glyph_round_trip(s[0], rest);
        assert forall|i: int| 0 <= i < tail.len() implies #[trigger] tail[i] < 0x200000 by {
            assert(tail[i] == s[i + 1]);
        }
        lemma_utf8_decode_of_encode(tail);
        let bytes = utf8_encode_seq(s);
        assert(bytes == enc + rest);
        assert(bytes.len() > 0);
        assert(bytes.skip(enc.len() as int) =~= rest);
        assert(utf8_parse_front(bytes) == Ok::<(u32, int), UnicodeEncodingError>(
            (s[0], enc.len() as int),
        ));
        assert(utf8_decode_res(bytes.skip(enc.len() as int)) == Ok::<
            Seq<u32>,
            UnicodeEncodingError,
        >(tail));
        assert(utf8_decode_res(bytes) == Ok::<Seq<u32>, UnicodeEncodingError>(
            seq![s[0]] + tail,
        ));
        assert(seq![s[0]] + tail =~= s);
    }
}

/// On scalar values the permissive encoder agrees with the canonical one.
proof fn lemma_encode_glyph_scalar(g: u32)
    requires
        is_scalar(g),
    ensures
        utf8_encode_glyph(g) == encode_scalar(g),
{
}

/// Encoding a character sequence glyph by glyph is exactly its canonical
/// UTF-8 byte form.
pub proof fn lemma_encode_seq_encode_utf8(chars: Seq<char>)
    ensures
        utf8_encode_seq(codepoints_of_chars(chars)) == encode_utf8(chars),
    decreases chars.len(),
{
    let s = codepoints_of_chars(chars);
    if chars.len() == 0 {
        assert(utf8_encode_seq(s) =~= encode_utf8(chars));
    } else {
        char_is_scalar(chars[0]);
        lemma_encode_glyph_scalar(chars[0] as u32);
        lemma_encode_seq_encode_utf8(chars.drop_first());
        assert(s.drop_first() =~= codepoints_of_chars(chars.drop_first()));
        assert(s[0] == chars[0] as u32);
    }
}

/// The code points of a character sequence are scalar values.
pub proof fn lemma_chars_are_scalar(chars: Seq<char>)
    ensures
        scalar_value_seq(codepoints_of_chars(chars)),
{
    let s = codepoints_of_chars(chars);
    assert forall|i: int| 0 <= i < s.len() implies is_scalar_value(#[trigger] s[i]) by {
        char_is_scalar(chars[i]);
        assert(s[i] == chars[i] as u32);
    }
}

/// Encoding one more code point appends its glyph's bytes.
pub proof fn lemma_encode_seq_push(s: Seq<u32>, g: u32)
    ensures
        utf8_encode_seq(s.push(g)) == utf8_encode_seq(s) + utf8_encode_glyph(g),
    decreases s.len(),
{
    let all = s.push(g);
    if s.len() == 0 {
        assert(all.len() == 1);
        assert(all[0] == g);
        assert(all.drop_first() =~= Seq::<u32>::empty());
        assert(utf8_encode_seq(all) == utf8_encode_glyph(g) + utf8_encode_seq(
            Seq::<u32>::empty(),
        ));
        assert(utf8_encode_seq(all) =~= utf8_encode_seq(s) + utf8_encode_glyph(g));
    } else {
        lemma_encode_seq_push(s.drop_first(), g);
        assert(all[0] == s[0]);
        assert(all.drop_first() =~= s.drop_first().push(g));
        assert(utf8_encode_glyph(s[0]) + (utf8_encode_seq(s.drop_first()) + utf8_encode_glyph(g))
            =~= (utf8_encode_glyph(s[0]) + utf8_encode_seq(s.drop_first())) + utf8_encode_glyph(
            g,
        ));
    }
}

/// Encoding distributes over concatenation of code point sequences.
pub proof fn lemma_utf8_encode_seq_concat(a: Seq<u32>, b: Seq<u32>)
    ensures
        utf8_encode_seq(a + b) == utf8_encode_seq(a) + utf8_encode_seq(b),
    decreases a.len(),
{
    if a.len() == 0 {
        assert(a + b =~= b);
        assert(utf8_encode_seq(a) + utf8_encode_seq(b) =~= utf8_encode_seq(b));
    } else {
        lemma_utf8_encode_seq_concat(a.drop_first(), b);
        assert((a + b)[0] == a[0]);
        assert((a + b).drop_first() =~= a.drop_first() + b);
        assert(utf8_encode_glyph(a[0]) + (utf8_encode_seq(a.drop_first()) + utf8_encode_seq(b))
            =~= (utf8_encode_glyph(a[0]) + utf8_encode_seq(a.drop_first())) + utf8_encode_seq(b));
    }
}

/// The error a structural decode reports, with `NoError` standing for a
/// clean parse.
pub open spec fn decode_status(r: Result<Seq<u32>, UnicodeEncodingError>) -> UnicodeEncodingError {
    match r {
        Ok(_) => UnicodeEncodingError::NoError,
        Err(e) => e,
    }
}

/// A failed structural decode never reports `NoError`, so its status tells
/// the two cases apart.
pub proof fn lemma_decode_status_faithful(bytes: Seq<u8>)
    ensures
        utf8_decode_res(bytes) matches Err(e) ==> e != UnicodeEncodingError::NoError,
        utf8_wf(bytes) <==> decode_status(utf8_decode_res(bytes)) == UnicodeEncodingError::NoError,
    decreases bytes.len(),
{
    if bytes.len() == 0 {
    } else {
        match utf8_parse_front(bytes) {
            Err(_) => {},
            Ok((g, l)) => {
                lemma_decode_status_faithful(bytes.skip(l));
            },
        }
    }
}

/// A very basic wrapper for UTF-8 encoded data.
pub struct Utf8 {
    /// The raw UTF-8 encoded bytes.
    pub data: Vec<u8>,
}

/// Copy a byte vector element by element.
fn copy_u8_vec(v: &Vec<u8>) -> (r: Vec<u8>)
    ensures
        r@ == v@,
{
    let mut ret: Vec<u8> = Vec::new();
    let mut i: usize = 0;
    while i < v.len()
        invariant
            i <= v@.len(),
            ret@ == v@.take(i as int),
        decreases v@.len() - i,
    {
        ret.push(v[i]);
        i = i + 1;
        proof {
            assert(ret@ =~= v@.take(i as int));
        }
    }
    proof {
        assert(ret@ =~= v@);
    }
    ret
}

/// Relies on `str::from_utf8` (and `to_string` on the result): it accepts
/// exactly valid UTF-8 and returns the string whose characters those bytes
/// encode.
#[verifier::external_body]
fn string_from_utf8(bytes: &Vec<u8>) -> (r: String)
    requires
        valid_utf8(bytes@),
    ensures
        r@ == decode_utf8(bytes@),
{
    std::str::from_utf8(bytes).unwrap().to_string()
}

/// Count the number of used bits in a number, assuming all left-padding
/// zeros are unused.
pub fn number_non_nul_bits(n: u32) -> (r: usize)
    ensures
        r <= 32,
        (n as nat) < pow2(r as nat),
        r > 0 ==> pow2((r - 1) as nat) <= n as nat,
{
    proof {
        lemma2_to64();
    }
    let mut m: u32 = n;
    let mut r: usize = 0;
    while m > 0
        invariant
            r <= 32,
            m as nat == (n as nat) / pow2(r as nat),
            m > 0 ==> r < 32,
            r > 0 ==> pow2((r - 1) as nat) <= n as nat,
        decreases m,
    {
        proof {
            lemma2_to64();
            assert(pow2((r + 1) as nat) == pow2(r as nat) * 2) by {
                lemma_pow2_adds(r as nat, 1);
            }
            vstd::arithmetic::div_mod::lemma_div_denominator(
                n as int,
                pow2(r as nat) as int,
                2,
            );
            assert((n as nat) >= pow2(r as nat)) by {
                vstd::arithmetic::div_mod::lemma_fundamental_div_mod(
                    n as int,
                    pow2(r as nat) as int,
                );
                assert((pow2(r as nat) as int) * ((n as nat) / pow2(r as nat)) as int >= pow2(
                    r as nat,
                ) as int) by (nonlinear_arith)
                    requires
                        ((n as nat) / pow2(r as nat)) as int >= 1,
                        pow2(r as nat) as int >= 1,
                ;
            }
            if r + 1 == 32 {
                assert((n as nat) < pow2(32));
            } else if r + 1 > 32 {
                lemma_pow2_strictly_increases(32, (r + 1) as nat);
                assert(false);
            }
        }
        m = m / 2;
        r = r + 1;
        proof {
            if m > 0 && r >= 32 {
                lemma2_to64();
                assert((n as nat) / pow2(32) == 0) by {
                    vstd::arithmetic::div_mod::lemma_basic_div(n as int, pow2(32) as int);
                }
                assert(false);
            }
        }
    }
    proof {
        assert((n as nat) / pow2(r as nat) == 0);
        vstd::arithmetic::div_mod::lemma_fundamental_div_mod(n as int, pow2(r as nat) as int);
    }
    r
}

/// Convert a UTF-32 glyph into the equivalent UTF-8 bytes.
pub fn utf_32_glyph_to_utf_8(glyph: u32) -> (r: Vec<u8>)
    requires
        glyph < 0x200000,
    ensures
        r@ == utf8_encode_glyph(glyph),
{
    proof {
        lemma2_to64();
    }
    let mut ret: Vec<u8> = Vec::new();
    let nnnb = number_non_nul_bits(glyph);
    proof {
        if nnnb > 7 && nnnb - 1 > 7 {
            lemma_pow2_strictly_increases(7, (nnnb - 1) as nat);
        }
        if nnnb > 11 && nnnb - 1 > 11 {
            lemma_pow2_strictly_increases(11, (nnnb - 1) as nat);
        }
        if nnnb > 16 && nnnb - 1 > 16 {
            lemma_pow2_strictly_increases(16, (nnnb - 1) as nat);
        }
    }
    if nnnb <= 7 {
        ret.push((glyph & 0x7F) as u8);
    } else if nnnb <= 11 {
        ret.push(0xC0 | (((glyph >> 6) & 0x1F) as u8));
        ret.push(0x80 | ((glyph & 0x3F) as u8));
    } else if nnnb <= 16 {
        ret.push(0xE0 | (((glyph >> 12) & 0x0F) as u8));
        ret.push(0x80 | (((glyph >> 6) & 0x3F) as u8));
        ret.push(0x80 | ((glyph & 0x3F) as u8));
    } else {
        ret.push(0xF0 | (((glyph >> 18) & 0x07) as u8));
        ret.push(0x80 | (((glyph >> 12) & 0x3F) as u8));
        ret.push(0x80 | (((glyph >> 6) & 0x3F) as u8));
        ret.push(0x80 | ((glyph & 0x3F) as u8));
    }
    proof {
        assert(ret@ =~= utf8_encode_glyph(glyph));
    }
    ret
}

/// Convert the first UTF-8 glyph at `start` into a UTF-32 code point, and
/// tell how many bytes make that glyph; a malformed glyph reports the
/// structural error instead.
pub fn utf_8_glyph_to_utf_32(utf8_data: &Vec<u8>, start: usize) -> (r: Result<
    (u32, usize),
    UnicodeEncodingError,
>)
    requires
        start < utf8_data@.len(),
    ensures
        match r {
            Ok((g, l)) => 1 <= l <= 4 && start + l <= utf8_data@.len() && utf8_parse_front(
                utf8_data@.skip(start as int),
            ) == Ok::<(u32, int), UnicodeEncodingError>((g, l as int)),
            Err(e) => utf8_parse_front(utf8_data@.skip(start as int)) == Err::<
                (u32, int),
                UnicodeEncodingError,
            >(e),
        },
{
    let ghost sub = utf8_data@.skip(start as int);
    let n = utf8_data.len();
    let b0 = utf8_data[start];
    proof {
        assert(sub[0] == utf8_data@[start as int]);
    }
    let glyph_len: usize = if b0 <= 0x7F {
        1
    } else if 0xC0 <= b0 && b0 <= 0xDF {
        2
    } else if 0xE0 <= b0 && b0 <= 0xEF {
        3
    } else if 0xF0 <= b0 && b0 <= 0xF7 {
        4
    } else {
        return Err(UnicodeEncodingError::InvalidUtf8Prefix);
    };
    if glyph_len > n - start {
        return Err(UnicodeEncodingError::MissingEncodedBytes);
    }
    proof {
        assert(forall|j: int|
            1 <= j < glyph_len ==> #[trigger] sub[j] == utf8_data@[start + j]);
    }
    if glyph_len >= 2 {
        let b1 = utf8_data[start + 1];
        if !(0x80 <= b1 && b1 <= 0xBF) {
            return Err(UnicodeEncodingError::IncoherentUtf8Codepoint);
        }
    }
    if glyph_len >= 3 {
        let b2 = utf8_data[start + 2];
        if !(0x80 <= b2 && b2 <= 0xBF) {
            return Err(UnicodeEncodingError::IncoherentUtf8Codepoint);
        }
    }
    if glyph_len >= 4 {
        let b3 = utf8_data[start + 3];
        if !(0x80 <= b3 && b3 <= 0xBF) {
            return Err(UnicodeEncodingError::IncoherentUtf8Codepoint);
        }
    }
    let glyph: u32 = if glyph_len == 1 {
        (b0 & 0x7F) as u32
    } else if glyph_len == 2 {
        ((((b0 & 0x1F) as u32) << 6u32) | ((utf8_data[start + 1] & 0x3F) as u32))
    } else if glyph_len == 3 {
        ((((b0 & 0x0F) as u32) << 12u32) | (((utf8_data[start + 1] & 0x3F) as u32) << 6u32) | ((
        utf8_data[start + 2] & 0x3F) as u32))
    } else {
        ((((b0 & 0x07) as u32) << 18u32) | (((utf8_data[start + 1] & 0x3F) as u32) << 12u32) | (((
        utf8_data[start + 2] & 0x3F) as u32) << 6u32) | ((utf8_data[start + 3] & 0x3F) as u32))
    };
    Ok((glyph, glyph_len))
}

impl Utf8 {
    /// Converts a Rust string into a `Utf8` value: the stored bytes are
    /// exactly the string's own UTF-8 encoding, so this never fails.
    pub fn from_string(s: &str) -> (r: Result<Self, UnicodeEncodingError>)
        ensures
            match r {
                Ok(v) => {
                    &&& v.data@ == encode_utf8(s@)
                    &&& utf8_wf(v.data@)
                    &&& utf8_codepoints(v.data@) == codepoints_of_chars(s@)
                },
                Err(_) => false,
            },
    {
        let bytes = vstd::slice::slice_to_vec(s.as_bytes());
        let utf = Utf8 { data: bytes };
        proof {
            lemma_encode_seq_encode_utf8(s@);
            lemma_chars_are_scalar(s@);
            assert forall|i: int|
                0 <= i < codepoints_of_chars(s@).len() implies #[trigger] codepoints_of_chars(
                s@,
            )[i] < 0x200000 by {
                assert(is_scalar_value(codepoints_of_chars(s@)[i]));
            }
            lemma_utf8_decode_of_encode(codepoints_of_chars(s@));
            lemma_decode_status_faithful(utf.data@);
        }
        match utf.check_sanity_utf8() {
            UnicodeEncodingError::NoError => Ok(utf),
            x => {
                proof {
                    assert(false);
                }
                Err(x)
            },
        }
    }

    /// Converts a `Utf8` value to a Rust string.  The stored bytes must be
    /// the canonical encoding of scalar values, which holds of everything
    /// built from a string or from validated data.
    pub fn to_string(&self) -> (r: String)
        requires
            utf8_wf(self.data@),
            scalar_value_seq(utf8_codepoints(self.data@)),
            self.data@ == utf8_encode_seq(utf8_codepoints(self.data@)),
        ensures
            codepoints_of_chars(r@) == utf8_codepoints(self.data@),
            self.data@ == encode_utf8(r@),
    {
        let ghost cps = utf8_codepoints(self.data@);
        let ghost chars = cps.map_values(|g: u32| g as char);
        proof {
            assert(codepoints_of_chars(chars) =~= cps) by {
                assert forall|i: int|
                    0 <= i < chars.len() implies #[trigger] codepoints_of_chars(chars)[i]
                    == cps[i] by {
                    assert(is_scalar_value(cps[i]));
                    assert(chars[i] == cps[i] as char);
                }
            }
            lemma_encode_seq_encode_utf8(chars);
            encode_utf8_valid_utf8(chars);
            encode_utf8_decode_utf8(chars);
        }
        let s = string_from_utf8(&self.data);
        s
    }

    /// Walk the whole buffer and report the first structural error, or
    /// `NoError` when every glyph is well formed.
    fn check_sanity_utf8(&self) -> (r: UnicodeEncodingError)
        ensures
            r == decode_status(utf8_decode_res(self.data@)),
    {
        let n = self.data.len();
        let mut index: usize = 0;
        proof {
            assert(self.data@.skip(0) =~= self.data@);
        }
        while index < n
            invariant
                index <= n,
                n == self.data@.len(),
                decode_status(utf8_decode_res(self.data@)) == decode_status(
                    utf8_decode_res(self.data@.skip(index as int)),
                ),
            decreases n - index,
        {
            let ghost sub = self.data@.skip(index as int);
            match utf_8_glyph_to_utf_32(&self.data, index) {
                Err(e) => {
                    return e;
                },
                Ok((_glyph, len)) => {
                    proof {
                        assert(sub.skip(len as int) =~= self.data@.skip(index + len));
                    }
                    index = index + len;
                },
            };
        }
        proof {
            assert(self.data@.skip(n as int) =~= Seq::<u8>::empty());
        }
        UnicodeEncodingError::NoError
    }
}

impl UnicodeEncoding for Utf8 {
    open spec fn codepoints(&self) -> Seq<u32> {
        utf8_codepoints(self.data@)
    }

    open spec fn wf(&self) -> bool {
        utf8_wf(self.data@)
    }

    open spec fn encodable(s: Seq<u32>) -> bool {
        forall|i: int| 0 <= i < s.len() ==> #[trigger] s[i] < 0x200000
    }

    open spec fn encoded(s: Seq<u32>, big_endian: bool) -> Seq<u8> {
        utf8_encode_seq(s)
    }

    open spec fn serialized(&self, big_endian: bool) -> Seq<u8> {
        self.data@
    }

    open spec fn decode_check(bytes: Seq<u8>, big_endian: bool) -> Result<
        Seq<u32>,
        UnicodeEncodingError,
    > {
        utf8_decode_res(bytes)
    }

    proof fn lemma_scalar_seq_encodable(s: Seq<u32>) {
        assert forall|i: int| 0 <= i < s.len() implies #[trigger] s[i] < 0x200000 by {
            assert(is_scalar_value(s[i]));
        }
    }

    /// Convert UTF-32 data to UTF-8.
    fn from_utf_32(data_utf_32: &Utf32) -> (r: Self) {
        let mut data: Vec<u8> = Vec::new();
        let n = data_utf_32.data.len();
        let mut i: usize = 0;
        proof {
            assert(data_utf_32.data@.take(0) =~= Seq::<u32>::empty());
            assert(data@ =~= utf8_encode_seq(data_utf_32.data@.take(0)));
        }
        while i < n
            invariant
                i <= n,
                n == data_utf_32.data@.len(),
                forall|k: int|
                    0 <= k < data_utf_32.data@.len() ==> #[trigger] data_utf_32.data@[k]
                        < 0x200000,
                data@ == utf8_encode_seq(data_utf_32.data@.take(i as int)),
            decreases n - i,
        {
            let mut glyph_bytes = utf_32_glyph_to_utf_8(data_utf_32.data[i]);
            data.append(&mut glyph_bytes);
            i = i + 1;
            proof {
                let t = data_utf_32.data@.take(i as int);
                assert(t.drop_last() =~= data_utf_32.data@.take(i - 1));
                assert(t.last() == data_utf_32.data@[i - 1]);
                lemma_encode_seq_push(t.drop_last(), t.last());
                assert(t.drop_last().push(t.last()) =~= t);
            }
        }
        proof {
            assert(data_utf_32.data@.take(n as int) =~= data_utf_32.data@);
            lemma_utf8_decode_of_encode(data_utf_32.data@);
        }
        Utf8 { data }
    }

    /// Convert UTF-8 data to UTF-32.
    fn to_utf_32(&self) -> (r: Utf32) {
        let n = self.data.len();
        let mut index: usize = 0;
        let mut data: Vec<u32> = Vec::new();
        proof {
            assert(self.data@.skip(0) =~= self.data@);
            assert(data@ + utf8_codepoints(self.data@.skip(0)) =~= utf8_codepoints(self.data@));
        }
        while index < n
            invariant
                index <= n,
                n == self.data@.len(),
                utf8_wf(self.data@),
                utf8_wf(self.data@.skip(index as int)),
                utf8_codepoints(self.data@) == data@ + utf8_codepoints(
                    self.data@.skip(index as int),
                ),
            decreases n - index,
        {
            let ghost sub = self.data@.skip(index as int);
            match utf_8_glyph_to_utf_32(&self.data, index) {
                Err(_) => {
                    proof {
                        assert(false);
                    }
                },
                Ok((glyph, len)) => {
                    data.push(glyph);
                    proof {
                        assert(sub.skip(len as int) =~= self.data@.skip(index + len));
                        let rest = utf8_codepoints(self.data@.skip(index + len));
                        assert(utf8_codepoints(sub) =~= seq![glyph] + rest);
                        assert(data@ + rest =~= utf8_codepoints(self.data@));
                    }
                    index = index + len;
                },
            };
        }
        proof {
            assert(self.data@.skip(n as int) =~= Seq::<u8>::empty());
            assert(data@ =~= utf8_codepoints(self.data@));
        }
        Utf32 { data }
    }

    fn from_bytes_no_check(bytes: &[u8], big_endian: bool) -> (r: Result<
        Self,
        UnicodeEncodingError,
    >) {
        let data = vstd::slice::slice_to_vec(bytes);
        let ret = Utf8 { data };
        proof {
            lemma_decode_status_faithful(bytes@);
        }
        match ret.check_sanity_utf8() {
            UnicodeEncodingError::NoError => Ok(ret),
            x => Err(x),
        }
    }

    /// Convert the stored UTF-8 bytes to a byte vector; no transformation
    /// is needed.
    fn to_bytes(&self, big_endian: bool) -> (r: Vec<u8>) {
        copy_u8_vec(&self.data)
    }
}

} // verus!
