//! The now deprecated UTF-1 encoding: a five-category variable-length
//! scheme over the modulus `0xBE`, whose continuation digits run through
//! the byte-remapping bijection `t` and its inverse `u`.
//!
//! The category boundaries, left-inclusive over code point values, are:
//! one literal byte below `0xA0`; the marker `0xA0` plus a literal byte up
//! to `0xFF`; two bytes up to `0x4015`; three bytes up to `0x38E2D`; and
//! five bytes beyond.  The largest boundary follows the value validated
//! against worked conversion examples, `0x38E2E`.

use vstd::prelude::*;
use vstd::arithmetic::div_mod::{
    lemma_fundamental_div_mod, lemma_div_is_ordered, lemma_div_pos_is_pos, lemma_div_denominator,
    lemma_div_nonincreasing,
};
use crate::unicode_encoding::{
    UnicodeEncoding, UnicodeEncodingError, scalar_value_seq, codepoints_of_chars,
};
use crate::utf_32::Utf32;
use crate::utf_8::decode_status;

verus! {

/// The digit-remapping transform for UTF-1 continuation bytes: a
/// piecewise-linear bijection over one byte.
pub open spec fn utf1_t(z: u8) -> u8 {
    if z < 0x5E {
        (z + 0x21) as u8
    } else if z < 0xBE {
        (z + 0x42) as u8
    } else if z < 0xDF {
        (z - 0xBE) as u8
    } else {
        (z - 0x60) as u8
    }
}

/// The exact inverse of the digit-remapping transform.
pub open spec fn utf1_u(z: u8) -> u8 {
    if z < 0x21 {
        (z + 0xBE) as u8
    } else if z < 0x7F {
        (z - 0x21) as u8
    } else if z < 0xA0 {
        (z + 0x60) as u8
    } else {
        (z - 0x42) as u8
    }
}

/// The transform and its inverse compose to the identity: `t(u(b)) == b`
/// for every byte value `b`.
pub proof fn lemma_t_u_bijection(b: u8)
    ensures
        utf1_t(utf1_u(b)) == b,
{
}

/// The inverse composes the other way round as well: `u(t(b)) == b` for
/// every byte value `b`.
pub proof fn lemma_u_t_bijection(b: u8)
    ensures
        utf1_u(utf1_t(b)) == b,
{
}

/// The UTF-1 bytes of one code point, by its category.
pub open spec fn utf1_encode_glyph(g: u32) -> Seq<u8> {
    if g < 0xA0 {
        seq![g as u8]
    } else if g < 0x100 {
        seq![0xA0u8, g as u8]
    } else if g < 0x4016 {
        let y = g - 0x100;
        seq![(0xA1 + y / 0xBE) as u8, utf1_t((y % 0xBE) as u8)]
    } else if g < 0x38E2E {
        let y = g - 0x4016;
        seq![
            (0xF6 + y / ((0xBE as int) * 0xBE)) as u8,
            utf1_t(((y / 0xBE) % 0xBE) as u8),
            utf1_t((y % 0xBE) as u8),
        ]
    } else {
        let y = g - 0x38E2E;
        seq![
            (0xFC + y / ((0xBE as int) * 0xBE * 0xBE * 0xBE)) as u8,
            utf1_t(((y / ((0xBE as int) * 0xBE * 0xBE)) % 0xBE) as u8),
            utf1_t(((y / ((0xBE as int) * 0xBE)) % 0xBE) as u8),
            utf1_t(((y / 0xBE) % 0xBE) as u8),
            utf1_t((y % 0xBE) as u8),
        ]
    }
}

/// The UTF-1 bytes of a whole code point sequence.
pub open spec fn utf1_encode_seq(s: Seq<u32>) -> Seq<u8>
    decreases s.len(),
{
    if s.len() == 0 {
        Seq::empty()
    } else {
        utf1_encode_glyph(s[0]) + utf1_encode_seq(s.drop_first())
    }
}

/// Structural parse of the first UTF-1 glyph: its code point value and
/// byte length, classified by the lead byte's range; a glyph cut short
/// reports `MissingEncodedBytes`, and a five-byte value beyond 32 bits
/// reports `InvalidCodepointTooManyBits`.
pub open spec fn utf1_parse_front(bytes: Seq<u8>) -> Result<(u32, int), UnicodeEncodingError>
    recommends
        bytes.len() > 0,
{
    let b0 = bytes[0];
    if b0 < 0xA0 {
        Ok((b0 as u32, 1))
    } else if b0 == 0xA0 {
        if bytes.len() >= 2 {
            Ok((bytes[1] as u32, 2))
        } else {
            Err(UnicodeEncodingError::MissingEncodedBytes)
        }
    } else if b0 < 0xF6 {
        if bytes.len() >= 2 {
            Ok((((b0 - 0xA1) * 0xBE + utf1_u(bytes[1]) + 0x100) as u32, 2))
        } else {
            Err(UnicodeEncodingError::MissingEncodedBytes)
        }
    } else if b0 < 0xFC {
        if bytes.len() >= 3 {
            Ok(
                (((b0 - 0xF6) * ((0xBE as int) * 0xBE) + utf1_u(bytes[1]) * 0xBE + utf1_u(bytes[2])
                    + 0x4016) as u32, 3),
            )
        } else {
            Err(UnicodeEncodingError::MissingEncodedBytes)
        }
    } else {
        if bytes.len() >= 5 {
            let v = (b0 - 0xFC) * ((0xBE as int) * 0xBE * 0xBE * 0xBE) + utf1_u(bytes[1]) * ((0xBE as int) * 0xBE
                * 0xBE) + utf1_u(bytes[2]) * ((0xBE as int) * 0xBE) + utf1_u(bytes[3]) * 0xBE + utf1_u(
                bytes[4],
            ) + 0x38E2E;
            if v <= 0xFFFFFFFF {
                Ok((v as u32, 5))
            } else {
                Err(UnicodeEncodingError::InvalidCodepointTooManyBits)
            }
        } else {
            Err(UnicodeEncodingError::MissingEncodedBytes)
        }
    }
}

/// Structural decode of a whole UTF-1 buffer into code point values, or
/// the first structural error met scanning left to right.
pub open spec fn utf1_decode_res(bytes: Seq<u8>) -> Result<Seq<u32>, UnicodeEncodingError>
    decreases bytes.len(),
{
    if bytes.len() == 0 {
        Ok(Seq::empty())
    } else {
        match utf1_parse_front(bytes) {
            Err(e) => Err(e),
            Ok((g, l)) => match utf1_decode_res(bytes.skip(l)) {
                Err(e) => Err(e),
                Ok(rest) => Ok(seq![g] + rest),
            },
        }
    }
}

/// True when the whole buffer parses as UTF-1 glyphs.
pub open spec fn utf1_wf(bytes: Seq<u8>) -> bool {
    utf1_decode_res(bytes) is Ok
}

/// The code points a well-formed UTF-1 buffer holds.
pub open spec fn utf1_codepoints(bytes: Seq<u8>) -> Seq<u32>
    recommends
        utf1_wf(bytes),
{
    utf1_decode_res(bytes)->Ok_0
}

/// A failed structural decode never reports `NoError`, so its status tells
/// the two cases apart.
proof fn lemma_utf1_status_faithful(bytes: Seq<u8>)
    ensures
        utf1_decode_res(bytes) matches Err(e) ==> e != UnicodeEncodingError::NoError,
        utf1_wf(bytes) <==> decode_status(utf1_decode_res(bytes)) == UnicodeEncodingError::NoError,
    decreases bytes.len(),
{
    if bytes.len() == 0 {
    } else {
        match utf1_parse_front(bytes) {
            Err(_) => {},
            Ok((g, l)) => {
                lemma_utf1_status_faithful(bytes.skip(l));
            },
        }
    }
}

/// The positional base-`0xBE` decomposition of a nonnegative value, one
/// digit at a time.
proof fn lemma_utf1_digits(y: int)
    requires
        y >= 0,
    ensures
        y == (y / 0xBE) * 0xBE + y % 0xBE,
        y / 0xBE == (y / ((0xBE as int) * 0xBE)) * 0xBE + (y / 0xBE) % 0xBE,
        y / ((0xBE as int) * 0xBE) == (y / ((0xBE as int) * 0xBE * 0xBE)) * 0xBE + (y / ((0xBE as int) * 0xBE)) % 0xBE,
        y / ((0xBE as int) * 0xBE * 0xBE) == (y / ((0xBE as int) * 0xBE * 0xBE * 0xBE)) * 0xBE + (y / ((0xBE as int) * 0xBE
            * 0xBE)) % 0xBE,
        0 <= y % 0xBE < 0xBE,
        0 <= (y / 0xBE) % 0xBE < 0xBE,
        0 <= (y / ((0xBE as int) * 0xBE)) % 0xBE < 0xBE,
        0 <= (y / ((0xBE as int) * 0xBE * 0xBE)) % 0xBE < 0xBE,
        0 <= y / 0xBE,
        0 <= y / ((0xBE as int) * 0xBE),
        0 <= y / ((0xBE as int) * 0xBE * 0xBE),
        0 <= y / ((0xBE as int) * 0xBE * 0xBE * 0xBE),
{
    lemma_fundamental_div_mod(y, 0xBE);
    lemma_div_pos_is_pos(y, 0xBE);
    lemma_div_denominator(y, 0xBE, 0xBE);
    lemma_fundamental_div_mod(y / 0xBE, 0xBE);
    lemma_div_pos_is_pos(y / 0xBE, 0xBE);
    lemma_div_denominator(y, (0xBE as int) * 0xBE, 0xBE);
    lemma_fundamental_div_mod(y / ((0xBE as int) * 0xBE), 0xBE);
    lemma_div_pos_is_pos(y / ((0xBE as int) * 0xBE), 0xBE);
    lemma_div_denominator(y, (0xBE as int) * 0xBE * 0xBE, 0xBE);
    lemma_fundamental_div_mod(y / ((0xBE as int) * 0xBE * 0xBE), 0xBE);
    lemma_div_pos_is_pos(y / ((0xBE as int) * 0xBE * 0xBE), 0xBE);
}

/// Round trip per UTF-1 glyph: the encoding of any 32-bit code point,
/// followed by anything, parses back to exactly that code point,
/// consuming exactly the bytes the encoder produced.
#[verifier::rlimit(60)]
pub proof fn lemma_utf1_glyph_round_trip(g: u32, rest: Seq<u8>)
    ensures
        1 <= utf1_encode_glyph(g).len() <= 5,
        utf1_parse_front(utf1_encode_glyph(g) + rest) == Ok::<(u32, int), UnicodeEncodingError>(
            (g, utf1_encode_glyph(g).len() as int),
        ),
{
    let enc = utf1_encode_glyph(g);
    let bytes = enc + rest;
    if g < 0xA0 {
        assert(bytes[0] == g as u8);
        assert(utf1_parse_front(bytes) == Ok::<(u32, int), UnicodeEncodingError>(
            (g, enc.len() as int),
        ));
    } else if g < 0x100 {
        assert(bytes[0] == 0xA0);
        assert(bytes[1] == g as u8);
        assert(utf1_parse_front(bytes) == Ok::<(u32, int), UnicodeEncodingError>(
            (g, enc.len() as int),
        ));
    } else if g < 0x4016 {
        let y = (g - 0x100) as int;
        lemma_utf1_digits(y);
        lemma_div_is_ordered(y, 0x3F15, 0xBE);
        assert(bytes[0] == (0xA1 + y / 0xBE) as u8);
        assert(bytes[1] == utf1_t((y % 0xBE) as u8));
        lemma_u_t_bijection((y % 0xBE) as u8);
        assert(0xA0 < bytes[0] < 0xF6);
        assert(utf1_parse_front(bytes) == Ok::<(u32, int), UnicodeEncodingError>(
            (g, enc.len() as int),
        ));
    } else if g < 0x38E2E {
        let y = (g - 0x4016) as int;
        lemma_utf1_digits(y);
        lemma_div_is_ordered(y, 0x34E17, (0xBE as int) * 0xBE);
        assert(bytes[0] == (0xF6 + y / ((0xBE as int) * 0xBE)) as u8);
        assert(bytes[1] == utf1_t(((y / 0xBE) % 0xBE) as u8));
        assert(bytes[2] == utf1_t((y % 0xBE) as u8));
        lemma_u_t_bijection(((y / 0xBE) % 0xBE) as u8);
        lemma_u_t_bijection((y % 0xBE) as u8);
        assert(0xF6 <= bytes[0] < 0xFC);
        assert(utf1_parse_front(bytes) == Ok::<(u32, int), UnicodeEncodingError>(
            (g, enc.len() as int),
        ));
    } else {
        let y = (g - 0x38E2E) as int;
        lemma_utf1_digits(y);
        lemma_div_is_ordered(y, 0xFFFFFFFF - 0x38E2E, (0xBE as int) * 0xBE * 0xBE * 0xBE);
        assert(bytes[0] == (0xFC + y / ((0xBE as int) * 0xBE * 0xBE * 0xBE)) as u8);
        assert(bytes[1] == utf1_t(((y / ((0xBE as int) * 0xBE * 0xBE)) % 0xBE) as u8));
        assert(bytes[2] == utf1_t(((y / ((0xBE as int) * 0xBE)) % 0xBE) as u8));
        assert(bytes[3] == utf1_t(((y / 0xBE) % 0xBE) as u8));
        assert(bytes[4] == utf1_t((y % 0xBE) as u8));
        lemma_u_t_bijection(((y / ((0xBE as int) * 0xBE * 0xBE)) % 0xBE) as u8);
        lemma_u_t_bijection(((y / ((0xBE as int) * 0xBE)) % 0xBE) as u8);
        lemma_u_t_bijection(((y / 0xBE) % 0xBE) as u8);
        lemma_u_t_bijection((y % 0xBE) as u8);
        assert(bytes[0] >= 0xFC);
        let b: int = 0xBE;
        let q1 = y / b;
        let q2 = y / (b * b);
        let q3 = y / (b * b * b);
        let q4 = y / (b * b * b * b);
        assert(y == q4 * (b * b * b * b) + (q3 % b) * (b * b * b) + (q2 % b) * (b * b) + (q1 % b)
            * b + y % b) by (nonlinear_arith)
            requires
                b == 0xBE,
                y == q1 * b + y % b,
                q1 == q2 * b + q1 % b,
                q2 == q3 * b + q2 % b,
                q3 == q4 * b + q3 % b,
        ;
        assert(utf1_parse_front(bytes) == Ok::<(u32, int), UnicodeEncodingError>(
            (g, enc.len() as int),
        ));
    }
}

/// Round trip for whole sequences: decoding an encoded sequence of code
/// points yields it back, with no error.
pub proof fn lemma_utf1_decode_of_encode(s: Seq<u32>)
    ensures
        utf1_decode_res(utf1_encode_seq(s)) == Ok::<Seq<u32>, UnicodeEncodingError>(s),
    decreases s.len(),
{
    if s.len() == 0 {
        assert(s =~= Seq::<u32>::empty());
    } else {
        let enc = utf1_encode_glyph(s[0]);
        let tail = s.drop_first();
        let rest = utf1_encode_seq(tail);
        lemma_utf1_glyph_round_trip(s[0], rest);
        lemma_utf1_decode_of_encode(tail);
        let bytes = utf1_encode_seq(s);
        assert(bytes == enc + rest);
        assert(bytes.len() > 0);
        assert(bytes.skip(enc.len() as int) =~= rest);
        assert(seq![s[0]] + tail =~= s);
    }
}

/// Encoding one more code point appends its glyph's bytes.
pub proof fn lemma_utf1_encode_seq_push(s: Seq<u32>, g: u32)
    ensures
        utf1_encode_seq(s.push(g)) == utf1_encode_seq(s) + utf1_encode_glyph(g),
    decreases s.len(),
{
    let all = s.push(g);
    if s.len() == 0 {
        assert(all.len() == 1);
        assert(all[0] == g);
        assert(all.drop_first() =~= Seq::<u32>::empty());
        assert(utf1_encode_seq(all) == utf1_encode_glyph(g) + utf1_encode_seq(
            Seq::<u32>::empty(),
        ));
        assert(utf1_encode_seq(all) =~= utf1_encode_seq(s) + utf1_encode_glyph(g));
    } else {
        lemma_utf1_encode_seq_push(s.drop_first(), g);
        assert(all[0] == s[0]);
        assert(all.drop_first() =~= s.drop_first().push(g));
        assert(utf1_encode_glyph(s[0]) + (utf1_encode_seq(s.drop_first()) + utf1_encode_glyph(g))
            =~= (utf1_encode_glyph(s[0]) + utf1_encode_seq(s.drop_first())) + utf1_encode_glyph(
            g,
        ));
    }
}

/// A very basic wrapper for UTF-1 encoded data.
pub struct Utf1 {
    /// The raw UTF-1 encoded bytes.
    pub data: Vec<u8>,
}

/// Transform function for UTF-1 continuation digits.
pub fn t(z: u8) -> (r: u8)
    ensures
        r == utf1_t(z),
{
    if z < 0x5E {
        z + 0x21
    } else if z < 0xBE {
        z + 0x42
    } else if z < 0xDF {
        z - 0xBE
    } else {
        z - 0x60
    }
}

/// Inverse transform of `t`.
pub fn u(z: u8) -> (r: u8)
    ensures
        r == utf1_u(z),
{
    if z < 0x21 {
        z + 0xBE
    } else if z < 0x7F {
        z - 0x21
    } else if z < 0xA0 {
        z + 0x60
    } else {
        z - 0x42
    }
}

/// `u` widened to a code point value.
fn uu(z: u8) -> (r: u32)
    ensures
        r == utf1_u(z) as u32,
{
    u(z) as u32
}

/// Convert a UTF-32 glyph into the equivalent UTF-1 bytes.  Every 32-bit
/// value has an encoding, as the last category is open-ended.
pub fn utf_32_glyph_to_utf_1(glyph: u32) -> (r: Vec<u8>)
    ensures
        r@ == utf1_encode_glyph(glyph),
{
    let mut ret: Vec<u8> = Vec::new();
    if glyph < 0xA0 {
        ret.push(glyph as u8);
    } else if glyph < 0x100 {
        ret.push(0xA0);
        ret.push(glyph as u8);
    } else if glyph < 0x4016 {
        let y = glyph - 0x100;
        proof {
            lemma_utf1_digits(y as int);
            lemma_div_is_ordered(y as int, 0x3F15, 0xBE);
        }
        ret.push((0xA1 + y / 0xBE) as u8);
        ret.push(t((y % 0xBE) as u8));
    } else if glyph < 0x38E2E {
        let y = glyph - 0x4016;
        proof {
            lemma_utf1_digits(y as int);
            lemma_div_is_ordered(y as int, 0x34E17, (0xBE as int) * 0xBE);
            lemma_div_denominator(y as int, 0xBE, 0xBE);
        }
        ret.push((0xF6 + y / 0xBE / 0xBE) as u8);
        ret.push(t(((y / 0xBE) % 0xBE) as u8));
        ret.push(t((y % 0xBE) as u8));
    } else {
        let y = glyph - 0x38E2E;
        proof {
            lemma_utf1_digits(y as int);
            lemma_div_is_ordered(y as int, 0xFFFFFFFF - 0x38E2E, (0xBE as int) * 0xBE * 0xBE * 0xBE);
            lemma_div_denominator(y as int, 0xBE, 0xBE);
            lemma_div_denominator(y as int, (0xBE as int) * 0xBE, 0xBE);
            lemma_div_denominator(y as int, (0xBE as int) * 0xBE * 0xBE, 0xBE);
            lemma_div_nonincreasing(y as int, 0xBE);
        }
        ret.push((0xFC + y / 0xBE / 0xBE / 0xBE / 0xBE) as u8);
        ret.push(t(((y / 0xBE / 0xBE / 0xBE) % 0xBE) as u8));
        ret.push(t(((y / 0xBE / 0xBE) % 0xBE) as u8));
        ret.push(t(((y / 0xBE) % 0xBE) as u8));
        ret.push(t((y % 0xBE) as u8));
    }
    proof {
        assert(ret@ =~= utf1_encode_glyph(glyph));
    }
    ret
}

/// Parse the first UTF-1 glyph at `start`, reporting a glyph cut short or
/// a five-byte value beyond 32 bits as an error.
fn utf_1_parse_step(utf1_data: &Vec<u8>, start: usize) -> (r: Result<
    (u32, usize),
    UnicodeEncodingError,
>)
    requires
        start < utf1_data@.len(),
    ensures
        match r {
            Ok((g, l)) => 1 <= l <= 5 && start + l <= utf1_data@.len() && utf1_parse_front(
                utf1_data@.skip(start as int),
            ) == Ok::<(u32, int), UnicodeEncodingError>((g, l as int)),
            Err(e) => utf1_parse_front(utf1_data@.skip(start as int)) == Err::<
                (u32, int),
                UnicodeEncodingError,
            >(e),
        },
{
    let ghost sub = utf1_data@.skip(start as int);
    let n = utf1_data.len();
    let first_byte = utf1_data[start];
    proof {
        assert(sub[0] == utf1_data@[start as int]);
        assert(forall|j: int| 0 <= j < sub.len() ==> #[trigger] sub[j] == utf1_data@[start + j]);
    }
    if first_byte < 0xA0 {
        Ok((first_byte as u32, 1))
    } else if first_byte == 0xA0 {
        if n - start < 2 {
            return Err(UnicodeEncodingError::MissingEncodedBytes);
        }
        Ok((utf1_data[start + 1] as u32, 2))
    } else if first_byte < 0xF6 {
        if n - start < 2 {
            return Err(UnicodeEncodingError::MissingEncodedBytes);
        }
        let ret = ((first_byte - 0xA1) as u32) * 0xBE + uu(utf1_data[start + 1]) + 0x100;
        proof {
            assert(sub[1] == utf1_data@[start + 1]);
            assert(ret == ((sub[0] - 0xA1) * 0xBE + utf1_u(sub[1]) + 0x100) as u32);
            assert(utf1_parse_front(sub) == Ok::<(u32, int), UnicodeEncodingError>((ret, 2)));
        }
        Ok((ret, 2))
    } else if first_byte < 0xFC {
        if n - start < 3 {
            return Err(UnicodeEncodingError::MissingEncodedBytes);
        }
        let mut ret = ((first_byte - 0xF6) as u32) * 0xBE;
        ret = (ret + uu(utf1_data[start + 1])) * 0xBE;
        ret = ret + uu(utf1_data[start + 2]) + 0x4016;
        proof {
            assert(sub[1] == utf1_data@[start + 1]);
            assert(sub[2] == utf1_data@[start + 2]);
            assert(ret == ((sub[0] - 0xF6) * ((0xBE as int) * 0xBE) + utf1_u(sub[1]) * 0xBE
                + utf1_u(sub[2]) + 0x4016) as u32);
            assert(utf1_parse_front(sub) == Ok::<(u32, int), UnicodeEncodingError>((ret, 3)));
        }
        Ok((ret, 3))
    } else {
        if n - start < 5 {
            return Err(UnicodeEncodingError::MissingEncodedBytes);
        }
        let x0: u64 = (first_byte - 0xFC) as u64;
        let d1: u64 = uu(utf1_data[start + 1]) as u64;
        let d2: u64 = uu(utf1_data[start + 2]) as u64;
        let d3: u64 = uu(utf1_data[start + 3]) as u64;
        let d4: u64 = uu(utf1_data[start + 4]) as u64;
        let w1: u64 = x0 * 0xBE + d1;
        let w2: u64 = w1 * 0xBE + d2;
        let w3: u64 = w2 * 0xBE + d3;
        let wide: u64 = w3 * 0xBE + d4 + 0x38E2E;
        proof {
            assert(sub[1] == utf1_data@[start + 1]);
            assert(sub[2] == utf1_data@[start + 2]);
            assert(sub[3] == utf1_data@[start + 3]);
            assert(sub[4] == utf1_data@[start + 4]);
            assert(wide as int == (x0 as int) * ((0xBE as int) * 0xBE * 0xBE * 0xBE) + (
            d1 as int) * ((0xBE as int) * 0xBE * 0xBE) + (d2 as int) * ((0xBE as int) * 0xBE) + (
            d3 as int) * 0xBE + (d4 as int) + 0x38E2E) by (nonlinear_arith)
                requires
                    w1 == x0 * 0xBE + d1,
                    w2 == w1 * 0xBE + d2,
                    w3 == w2 * 0xBE + d3,
                    wide == w3 * 0xBE + d4 + 0x38E2E,
                    x0 <= 3,
                    d1 <= 0xFF,
                    d2 <= 0xFF,
                    d3 <= 0xFF,
                    d4 <= 0xFF,
            ;
        }
        if wide > 0xFFFFFFFF {
            return Err(UnicodeEncodingError::InvalidCodepointTooManyBits);
        }
        Ok((wide as u32, 5))
    }
}

/// Convert the first UTF-1 glyph at `start` into a UTF-32 code point, and
/// tell how many bytes make that glyph.  The glyph must be structurally
/// complete, which holds of every well-formed buffer.
pub fn utf_1_glyph_to_utf_32(utf1_data: &Vec<u8>, start: usize) -> (r: (u32, usize))
    requires
        start < utf1_data@.len(),
        utf1_parse_front(utf1_data@.skip(start as int)) is Ok,
    ensures
        1 <= r.1 <= 5,
        start + r.1 <= utf1_data@.len(),
        utf1_parse_front(utf1_data@.skip(start as int)) == Ok::<(u32, int), UnicodeEncodingError>(
            (r.0, r.1 as int),
        ),
{
    match utf_1_parse_step(utf1_data, start) {
        Ok(p) => p,
        Err(_) => {
            proof {
                assert(false);
            }
            (0, 1)
        },
    }
}

impl Utf1 {
    /// Takes a Rust string and converts it into UTF-1 content.
    pub fn from_string(s: &str) -> (r: Result<Utf1, UnicodeEncodingError>)
        ensures
            match r {
                Ok(v) => v.wf() && v.codepoints() == codepoints_of_chars(s@),
                Err(_) => false,
            },
    {
        crate::unicode_encoding::from_string(s)
    }

    /// Converts the UTF-1 content to a Rust string.
    pub fn to_string(&self) -> (r: String)
        requires
            self.wf(),
            scalar_value_seq(self.codepoints()),
        ensures
            codepoints_of_chars(r@) == self.codepoints(),
    {
        crate::unicode_encoding::to_string(self)
    }
}

impl UnicodeEncoding for Utf1 {
    open spec fn codepoints(&self) -> Seq<u32> {
        utf1_codepoints(self.data@)
    }

    open spec fn wf(&self) -> bool {
        utf1_wf(self.data@)
    }

    open spec fn encodable(s: Seq<u32>) -> bool {
        true
    }

    open spec fn encoded(s: Seq<u32>, big_endian: bool) -> Seq<u8> {
        utf1_encode_seq(s)
    }

    open spec fn serialized(&self, big_endian: bool) -> Seq<u8> {
        self.data@
    }

    open spec fn decode_check(bytes: Seq<u8>, big_endian: bool) -> Result<
        Seq<u32>,
        UnicodeEncodingError,
    > {
        utf1_decode_res(bytes)
    }

    proof fn lemma_scalar_seq_encodable(s: Seq<u32>) {
    }

    /// Convert UTF-32 data to UTF-1.
    fn from_utf_32(data_utf_32: &Utf32) -> (r: Self) {
        let mut data: Vec<u8> = Vec::new();
        let n = data_utf_32.data.len();
        let mut i: usize = 0;
        proof {
            assert(data_utf_32.data@.take(0) =~= Seq::<u32>::empty());
            assert(data@ =~= utf1_encode_seq(data_utf_32.data@.take(0)));
        }
        while i < n
            invariant
                i <= n,
                n == data_utf_32.data@.len(),
                data@ == utf1_encode_seq(data_utf_32.data@.take(i as int)),
            decreases n - i,
        {
            let mut glyph_bytes = utf_32_glyph_to_utf_1(data_utf_32.data[i]);
            data.append(&mut glyph_bytes);
            i = i + 1;
            proof {
                let tk = data_utf_32.data@.take(i as int);
                assert(tk.drop_last() =~= data_utf_32.data@.take(i - 1));
                assert(tk.last() == data_utf_32.data@[i - 1]);
                lemma_utf1_encode_seq_push(tk.drop_last(), tk.last());
                assert(tk.drop_last().push(tk.last()) =~= tk);
            }
        }
        proof {
            assert(data_utf_32.data@.take(n as int) =~= data_utf_32.data@);
            lemma_utf1_decode_of_encode(data_utf_32.data@);
        }
        Utf1 { data }
    }

    /// Convert UTF-1 data to UTF-32.
    fn to_utf_32(&self) -> (r: Utf32) {
        let n = self.data.len();
        let mut index: usize = 0;
        let mut data: Vec<u32> = Vec::new();
        proof {
            assert(self.data@.skip(0) =~= self.data@);
            assert(data@ + utf1_codepoints(self.data@.skip(0)) =~= utf1_codepoints(self.data@));
        }
        while index < n
            invariant
                index <= n,
                n == self.data@.len(),
                utf1_wf(self.data@),
                utf1_wf(self.data@.skip(index as int)),
                utf1_codepoints(self.data@) == data@ + utf1_codepoints(
                    self.data@.skip(index as int),
                ),
            decreases n - index,
        {
            let ghost sub = self.data@.skip(index as int);
            let (glyph, len) = utf_1_glyph_to_utf_32(&self.data, index);
            data.push(glyph);
            proof {
                assert(sub.skip(len as int) =~= self.data@.skip(index + len));
                let rest = utf1_codepoints(self.data@.skip(index + len));
                assert(utf1_codepoints(sub) =~= seq![glyph] + rest);
                assert(data@ + rest =~= utf1_codepoints(self.data@));
            }
            index = index + len;
        }
        proof {
            assert(self.data@.skip(n as int) =~= Seq::<u8>::empty());
            assert(data@ =~= utf1_codepoints(self.data@));
        }
        Utf32 { data }
    }

    /// Consider a stream of UTF-1 encoded bytes and turn it into a `Utf1`
    /// value.  The bytes are copied; the only checks are structural: every
    /// glyph complete and every value within 32 bits.
    fn from_bytes_no_check(bytes: &[u8], big_endian: bool) -> (r: Result<
        Self,
        UnicodeEncodingError,
    >) {
        let data = vstd::slice::slice_to_vec(bytes);
        let ret = Utf1 { data };
        let n = ret.data.len();
        let mut index: usize = 0;
        proof {
            assert(ret.data@.skip(0) =~= ret.data@);
        }
        while index < n
            invariant
                index <= n,
                n == ret.data@.len(),
                ret.data@ == bytes@,
                decode_status(utf1_decode_res(ret.data@)) == decode_status(
                    utf1_decode_res(ret.data@.skip(index as int)),
                ),
            decreases n - index,
        {
            let ghost sub = ret.data@.skip(index as int);
            match utf_1_parse_step(&ret.data, index) {
                Err(e) => {
                    proof {
                        assert(utf1_decode_res(sub) == Err::<Seq<u32>, UnicodeEncodingError>(e));
                    }
                    return Err(e);
                },
                Ok((_glyph, len)) => {
                    proof {
                        assert(sub.skip(len as int) =~= ret.data@.skip(index + len));
                    }
                    index = index + len;
                },
            };
        }
        proof {
            assert(ret.data@.skip(n as int) =~= Seq::<u8>::empty());
            lemma_utf1_status_faithful(ret.data@);
        }
        Ok(ret)
    }

    /// Convert the stored UTF-1 bytes to a byte vector; no transformation
    /// is needed.
    fn to_bytes(&self, big_endian: bool) -> (r: Vec<u8>) {
        let mut ret: Vec<u8> = Vec::new();
        let mut i: usize = 0;
        while i < self.data.len()
            invariant
                i <= self.data@.len(),
                ret@ == self.data@.take(i as int),
            decreases self.data@.len() - i,
        {
            ret.push(self.data[i]);
            i = i + 1;
            proof {
                assert(ret@ =~= self.data@.take(i as int));
            }
        }
        proof {
            assert(ret@ =~= self.data@);
        }
        ret
    }
}

} // verus!
