//! The CESU-8 codec: the Compatibility Encoding Scheme for UTF-16, 8-bit.
//!
//! A code point is first split by the UTF-16 rule — supplementary-plane
//! values become a surrogate pair — and each resulting 16-bit unit is then
//! independently encoded with the 1- to 3-byte UTF-8 forms.  Decoding
//! reverses this: UTF-8-decode the bytes into a unit sequence, then re-pair
//! adjacent high/low surrogate units into one supplementary-plane code
//! point, leaving every other unit unchanged.

use vstd::prelude::*;
use crate::unicode_encoding::{
    UnicodeEncoding, UnicodeEncodingError, is_surrogate_value, is_scalar_value, scalar_value_seq,
    valid_codepoint_seq, codepoints_of_chars,
};
use crate::utf_32::Utf32;
use crate::utf_8::{
    Utf8, utf8_encode_glyph, utf8_encode_seq, utf8_decode_res, utf8_wf, utf8_codepoints,
    utf_32_glyph_to_utf_8, lemma_utf8_encode_seq_concat, lemma_utf8_decode_of_encode,
    decode_status,
};
use crate::utf_16::{utf16_encode_glyph, compatible_codepoints};

verus! {

/// True when the code point value is in the high (leading) surrogate range.
pub open spec fn is_high_surrogate_value(g: u32) -> bool {
    0xD800 <= g <= 0xDBFF
}

/// True when the code point value is in the low (trailing) surrogate range.
pub open spec fn is_low_surrogate_value(g: u32) -> bool {
    0xDC00 <= g <= 0xDFFF
}

/// The supplementary-plane code point an adjacent high/low surrogate pair
/// of unit values stands for.
pub open spec fn surrogate_pair_value32(h: u32, l: u32) -> u32
    recommends
        is_high_surrogate_value(h),
        is_low_surrogate_value(l),
{
    (0x10000 + (h - 0xD800) * 0x400 + (l - 0xDC00)) as u32
}

/// The 16-bit unit values one code point contributes, widened to `u32`:
/// the value itself below `0x10000`, a surrogate pair above.
pub open spec fn cesu8_unit_glyph(g: u32) -> Seq<u32>
    recommends
        g <= 0x10FFFF,
{
    if g < 0x10000 {
        seq![g]
    } else {
        seq![utf16_encode_glyph(g)[0] as u32, utf16_encode_glyph(g)[1] as u32]
    }
}

/// The unit values of a whole code point sequence.
pub open spec fn cesu8_units_seq(s: Seq<u32>) -> Seq<u32>
    decreases s.len(),
{
    if s.len() == 0 {
        Seq::empty()
    } else {
        cesu8_unit_glyph(s[0]) + cesu8_units_seq(s.drop_first())
    }
}

/// The CESU-8 bytes of one code point: its units, each UTF-8 encoded.
pub open spec fn cesu8_encode_glyph(g: u32) -> Seq<u8>
    recommends
        g <= 0x10FFFF,
{
    if g < 0x10000 {
        utf8_encode_glyph(g)
    } else {
        utf8_encode_glyph(utf16_encode_glyph(g)[0] as u32) + utf8_encode_glyph(
            utf16_encode_glyph(g)[1] as u32,
        )
    }
}

/// The CESU-8 bytes of a whole code point sequence.
pub open spec fn cesu8_encode_seq(s: Seq<u32>) -> Seq<u8>
    decreases s.len(),
{
    if s.len() == 0 {
        Seq::empty()
    } else {
        cesu8_encode_glyph(s[0]) + cesu8_encode_seq(s.drop_first())
    }
}

/// Re-pair a decoded unit sequence, scanning left to right: a high
/// surrogate followed by a low one combines into one supplementary-plane
/// code point; two adjacent surrogates that are not such a pair cannot be
/// resolved; a unit above the ceiling has no place in CESU-8 data.
pub open spec fn cesu8_pair_units(units: Seq<u32>) -> Result<Seq<u32>, UnicodeEncodingError>
    decreases units.len(),
{
    if units.len() == 0 {
        Ok(Seq::empty())
    } else if units[0] > 0x10FFFF {
        Err(UnicodeEncodingError::InvalidCodepointTooManyBits)
    } else if units.len() >= 2 && is_surrogate_value(units[0]) && is_surrogate_value(units[1]) {
        if is_high_surrogate_value(units[0]) && is_low_surrogate_value(units[1]) {
            match cesu8_pair_units(units.skip(2)) {
                Err(e) => Err(e),
                Ok(rest) => Ok(seq![surrogate_pair_value32(units[0], units[1])] + rest),
            }
        } else {
            Err(UnicodeEncodingError::AmbiguousUnpairedSurrogates)
        }
    } else {
        match cesu8_pair_units(units.skip(1)) {
            Err(e) => Err(e),
            Ok(rest) => Ok(seq![units[0]] + rest),
        }
    }
}

/// What CESU-8 stores and reproduces exactly: a valid code point sequence
/// in which no leftover surrogate is immediately followed by a
/// supplementary-plane code point, whose leading surrogate the re-pairing
/// scan could not tell apart from a deliberate pair.
pub open spec fn cesu8_encodable(s: Seq<u32>) -> bool {
    &&& valid_codepoint_seq(s)
    &&& forall|i: int|
        0 <= i < s.len() - 1 ==> (is_surrogate_value(#[trigger] s[i]) ==> s[i + 1] < 0x10000)
}

/// The surrogate units of a supplementary-plane code point, as values.
proof fn lemma_unit_glyph_surrogates(g: u32)
    requires
        0x10000 <= g <= 0x10FFFF,
    ensures
        ({
            let h = cesu8_unit_glyph(g)[0];
            let l = cesu8_unit_glyph(g)[1];
            &&& is_high_surrogate_value(h)
            &&& is_low_surrogate_value(l)
            &&& surrogate_pair_value32(h, l) == g
        }),
{
    let y = g - 0x10000;
    assert(y / 0x400 <= 0x3FF) by {
        vstd::arithmetic::div_mod::lemma_div_is_ordered(y as int, 0xFFFFF, 0x400);
    }
    assert(y / 0x400 >= 0) by {
        vstd::arithmetic::div_mod::lemma_div_pos_is_pos(y as int, 0x400);
    }
    vstd::arithmetic::div_mod::lemma_fundamental_div_mod(y as int, 0x400);
    assert(utf16_encode_glyph(g)[0] == (0xD800 + y / 0x400) as u16);
    assert(utf16_encode_glyph(g)[1] == (0xDC00 + y % 0x400) as u16);
}

/// The CESU-8 bytes of a sequence are the UTF-8 bytes of its units, and
/// every unit stays below the 21-bit ceiling.
pub proof fn lemma_cesu8_encode_units(s: Seq<u32>)
    requires
        forall|i: int| 0 <= i < s.len() ==> #[trigger] s[i] <= 0x10FFFF,
    ensures
        cesu8_encode_seq(s) == utf8_encode_seq(cesu8_units_seq(s)),
        forall|i: int|
            0 <= i < cesu8_units_seq(s).len() ==> #[trigger] cesu8_units_seq(s)[i] < 0x200000,
    decreases s.len(),
{
    if s.len() == 0 {
        assert(cesu8_encode_seq(s) =~= utf8_encode_seq(cesu8_units_seq(s)));
    } else {
        let tail = s.drop_first();
        assert(forall|i: int| 0 <= i < tail.len() ==> #[trigger] tail[i] == s[i + 1]);
        lemma_cesu8_encode_units(tail);
        let gu = cesu8_unit_glyph(s[0]);
        let rest_units = cesu8_units_seq(tail);
        assert(cesu8_encode_glyph(s[0]) == utf8_encode_seq(gu)) by {
            if s[0] < 0x10000 {
                assert(gu == seq![s[0]]);
                assert(gu.len() == 1 && gu[0] == s[0]);
                assert(gu.drop_first() =~= Seq::<u32>::empty());
                assert(utf8_encode_seq(gu.drop_first()) == Seq::<u8>::empty());
                assert(utf8_encode_seq(gu) == utf8_encode_glyph(s[0]) + Seq::<u8>::empty());
                assert(utf8_encode_glyph(s[0]) + Seq::<u8>::empty() =~= utf8_encode_glyph(s[0]));
            } else {
                let h = utf16_encode_glyph(s[0])[0] as u32;
                let l = utf16_encode_glyph(s[0])[1] as u32;
                assert(gu == seq![h, l]);
                assert(gu.len() == 2 && gu[0] == h && gu[1] == l);
                let gd = gu.drop_first();
                assert(gd =~= seq![l]);
                assert(gd.len() == 1 && gd[0] == l);
                assert(gd.drop_first() =~= Seq::<u32>::empty());
                assert(utf8_encode_seq(gd.drop_first()) == Seq::<u8>::empty());
                assert(utf8_encode_seq(gd) == utf8_encode_glyph(l) + Seq::<u8>::empty());
                assert(utf8_encode_glyph(l) + Seq::<u8>::empty() =~= utf8_encode_glyph(l));
                assert(utf8_encode_seq(gu) == utf8_encode_glyph(h) + utf8_encode_seq(gd));
            }
        }
        lemma_utf8_encode_seq_concat(gu, rest_units);
        assert(gu + rest_units =~= cesu8_units_seq(s));
        if s[0] >= 0x10000 {
            lemma_unit_glyph_surrogates(s[0]);
        }
        assert forall|i: int| 0 <= i < cesu8_units_seq(s).len() implies #[trigger] cesu8_units_seq(
            s,
        )[i] < 0x200000 by {
            if i < gu.len() {
                assert(cesu8_units_seq(s)[i] == gu[i]);
                if s[0] >= 0x10000 {
                    lemma_unit_glyph_surrogates(s[0]);
                }
            } else {
                assert(cesu8_units_seq(s)[i] == rest_units[i - gu.len()]);
            }
        }
    }
}

/// Re-pairing the units of an encodable sequence yields it back.
pub proof fn lemma_cesu8_pair_of_units(s: Seq<u32>)
    requires
        cesu8_encodable(s),
    ensures
        cesu8_pair_units(cesu8_units_seq(s)) == Ok::<Seq<u32>, UnicodeEncodingError>(s),
    decreases s.len(),
{
    if s.len() == 0 {
        assert(s =~= Seq::<u32>::empty());
    } else {
        let tail = s.drop_first();
        assert(forall|i: int| 0 <= i < tail.len() ==> #[trigger] tail[i] == s[i + 1]);
        assert(cesu8_encodable(tail));
        lemma_cesu8_pair_of_units(tail);
        let units = cesu8_units_seq(s);
        let gu = cesu8_unit_glyph(s[0]);
        let rest_units = cesu8_units_seq(tail);
        assert(units == gu + rest_units);
        if s[0] < 0x10000 {
            assert(units[0] == s[0]);
            if is_surrogate_value(s[0]) && units.len() >= 2 {
                // The unit after a leftover surrogate comes from the next
                // code point, which is neither a surrogate nor
                // supplementary-plane, so no pairing can trigger.
                assert(rest_units.len() > 0);
                assert(units[1] == rest_units[0]);
                assert(tail.len() > 0);
                assert(s[1] < 0x10000);
                assert(!is_surrogate_value(s[1]));
                assert(rest_units[0] == cesu8_unit_glyph(tail[0])[0]);
                assert(rest_units[0] == s[1]);
            }
            assert(units.skip(1) =~= rest_units);
            assert(seq![s[0]] + tail =~= s);
        } else {
            lemma_unit_glyph_surrogates(s[0]);
            assert(units[0] == gu[0]);
            assert(units[1] == gu[1]);
            assert(is_surrogate_value(units[0]) && is_surrogate_value(units[1]));
            assert(units.skip(2) =~= rest_units);
            assert(seq![s[0]] + tail =~= s);
        }
    }
}

/// Round trip for the whole codec: the CESU-8 bytes of an encodable
/// sequence decode structurally to its unit values, and re-pairing those
/// units yields the sequence back, with no error.
pub proof fn lemma_cesu8_decode_of_encode(s: Seq<u32>)
    requires
        cesu8_encodable(s),
    ensures
        utf8_decode_res(cesu8_encode_seq(s)) == Ok::<Seq<u32>, UnicodeEncodingError>(
            cesu8_units_seq(s),
        ),
        cesu8_pair_units(cesu8_units_seq(s)) == Ok::<Seq<u32>, UnicodeEncodingError>(s),
{
    lemma_cesu8_encode_units(s);
    lemma_utf8_decode_of_encode(cesu8_units_seq(s));
    lemma_cesu8_pair_of_units(s);
}

/// A failed re-pairing never reports `NoError`, so its status tells the
/// two cases apart.
pub proof fn lemma_cesu8_pair_status_faithful(units: Seq<u32>)
    ensures
        cesu8_pair_units(units) matches Err(e) ==> e != UnicodeEncodingError::NoError,
        (cesu8_pair_units(units) is Ok) <==> decode_status(cesu8_pair_units(units))
            == UnicodeEncodingError::NoError,
    decreases units.len(),
{
    if units.len() == 0 {
    } else if units[0] > 0x10FFFF {
    } else if units.len() >= 2 && is_surrogate_value(units[0]) && is_surrogate_value(units[1]) {
        if is_high_surrogate_value(units[0]) && is_low_surrogate_value(units[1]) {
            lemma_cesu8_pair_status_faithful(units.skip(2));
        }
    } else {
        lemma_cesu8_pair_status_faithful(units.skip(1));
    }
}

/// Encoding one more code point appends its glyph's bytes.
pub proof fn lemma_cesu8_encode_seq_push(s: Seq<u32>, g: u32)
    ensures
        cesu8_encode_seq(s.push(g)) == cesu8_encode_seq(s) + cesu8_encode_glyph(g),
    decreases s.len(),
{
    let all = s.push(g);
    if s.len() == 0 {
        assert(all.len() == 1);
        assert(all[0] == g);
        assert(all.drop_first() =~= Seq::<u32>::empty());
        assert(cesu8_encode_seq(all) == cesu8_encode_glyph(g) + cesu8_encode_seq(
            Seq::<u32>::empty(),
        ));
        assert(cesu8_encode_seq(all) =~= cesu8_encode_seq(s) + cesu8_encode_glyph(g));
    } else {
        lemma_cesu8_encode_seq_push(s.drop_first(), g);
        assert(all[0] == s[0]);
        assert(all.drop_first() =~= s.drop_first().push(g));
        assert(cesu8_encode_glyph(s[0]) + (cesu8_encode_seq(s.drop_first()) + cesu8_encode_glyph(
            g,
        )) =~= (cesu8_encode_glyph(s[0]) + cesu8_encode_seq(s.drop_first()))
            + cesu8_encode_glyph(g));
    }
}

/// A wrapper for CESU-8 encoded bytes.
pub struct Cesu8 {
    /// As CESU-8 is made of UTF-8 encoded units, it reuses the UTF-8 type
    /// for its storage.
    pub data: Utf8,
}

/// Convert one UTF-32 glyph into the equivalent CESU-8 bytes: one UTF-8
/// glyph below `0x10000`, a pair of 3-byte encoded surrogates above.
pub fn utf_32_glyph_to_cesu_8(glyph: u32) -> (r: Vec<u8>)
    requires
        glyph <= 0x10FFFF,
    ensures
        r@ == cesu8_encode_glyph(glyph),
{
    if glyph <= 0xFFFF {
        utf_32_glyph_to_utf_8(glyph)
    } else {
        let units = match crate::utf_16::utf_32_glyph_to_utf_16(glyph) {
            Ok(u) => u,
            Err(_) => {
                proof {
                    assert(false);
                }
                Vec::new()
            },
        };
        let mut ret = utf_32_glyph_to_utf_8(units[0] as u32);
        let mut second = utf_32_glyph_to_utf_8(units[1] as u32);
        ret.append(&mut second);
        ret
    }
}

/// Check that a decoded unit sequence re-pairs cleanly, reporting the
/// first unit over the ceiling or the first unresolvable adjacency.
fn check_cesu8_units(units: &Vec<u32>) -> (r: Result<(), UnicodeEncodingError>)
    ensures
        match r {
            Ok(_) => cesu8_pair_units(units@) is Ok,
            Err(e) => cesu8_pair_units(units@) == Err::<Seq<u32>, UnicodeEncodingError>(e),
        },
{
    let n = units.len();
    let mut i: usize = 0;
    proof {
        assert(units@.skip(0) =~= units@);
    }
    while i < n
        invariant
            i <= n,
            n == units@.len(),
            decode_status(cesu8_pair_units(units@)) == decode_status(
                cesu8_pair_units(units@.skip(i as int)),
            ),
        decreases n - i,
    {
        let ghost sub = units@.skip(i as int);
        proof {
            assert(sub[0] == units@[i as int]);
            assert(forall|j: int| 0 <= j < sub.len() ==> #[trigger] sub[j] == units@[i + j]);
            lemma_cesu8_pair_status_faithful(units@);
            lemma_cesu8_pair_status_faithful(sub);
        }
        let u0 = units[i];
        if u0 > 0x10FFFF {
            return Err(UnicodeEncodingError::InvalidCodepointTooManyBits);
        }
        if i + 1 < n && 0xD800 <= u0 && u0 <= 0xDFFF {
            let u1 = units[i + 1];
            if 0xD800 <= u1 && u1 <= 0xDFFF {
                if u0 <= 0xDBFF && 0xDC00 <= u1 {
                    proof {
                        assert(sub.skip(2) =~= units@.skip(i + 2));
                    }
                    i = i + 2;
                    continue;
                } else {
                    return Err(UnicodeEncodingError::AmbiguousUnpairedSurrogates);
                }
            }
        }
        proof {
            assert(sub.skip(1) =~= units@.skip(i + 1));
        }
        i = i + 1;
    }
    proof {
        assert(units@.skip(n as int) =~= Seq::<u32>::empty());
        lemma_cesu8_pair_status_faithful(units@);
    }
    Ok(())
}

/// Tells whether canonical content can be stored as CESU-8 and read back
/// exactly: it must be valid, and no leftover surrogate may stand right
/// before a supplementary-plane code point, whose leading surrogate the
/// re-pairing scan could not tell apart from a deliberate pair.
pub fn check_cesu8_encodable(data: &Utf32) -> (r: bool)
    ensures
        r == cesu8_encodable(data@),
{
    let verdict = data.check_sanity_utf32();
    proof {
        crate::unicode_encoding::lemma_sanity_no_error_iff_valid(data@);
    }
    match verdict {
        UnicodeEncodingError::NoError => {},
        _ => {
            return false;
        },
    }
    let n = data.data.len();
    let mut i: usize = 0;
    while i < n
        invariant
            i <= n,
            n == data@.len(),
            valid_codepoint_seq(data@),
            forall|k: int|
                0 <= k < i && k < n - 1 ==> (is_surrogate_value(#[trigger] data@[k]) ==> data@[k
                    + 1] < 0x10000),
        decreases n - i,
    {
        if i + 1 < n {
            let g = data.data[i];
            if 0xD800 <= g && g <= 0xDFFF && data.data[i + 1] >= 0x10000 {
                return false;
            }
        }
        i = i + 1;
    }
    true
}

impl Cesu8 {
    /// Takes a Rust string and converts it into CESU-8 content.
    pub fn from_string(s: &str) -> (r: Result<Cesu8, UnicodeEncodingError>)
        ensures
            match r {
                Ok(v) => v.wf() && v.codepoints() == codepoints_of_chars(s@),
                Err(_) => false,
            },
    {
        crate::unicode_encoding::from_string(s)
    }

    /// Converts the CESU-8 content to a Rust string.
    pub fn to_string(&self) -> (r: String)
        requires
            self.wf(),
            scalar_value_seq(self.codepoints()),
        ensures
            codepoints_of_chars(r@) == self.codepoints(),
    {
        crate::unicode_encoding::to_string(self)
    }
}

impl UnicodeEncoding for Cesu8 {
    open spec fn codepoints(&self) -> Seq<u32> {
        cesu8_pair_units(utf8_codepoints(self.data.data@))->Ok_0
    }

    open spec fn wf(&self) -> bool {
        &&& utf8_wf(self.data.data@)
        &&& cesu8_pair_units(utf8_codepoints(self.data.data@)) is Ok
    }

    open spec fn encodable(s: Seq<u32>) -> bool {
        cesu8_encodable(s)
    }

    open spec fn encoded(s: Seq<u32>, big_endian: bool) -> Seq<u8> {
        cesu8_encode_seq(s)
    }

    open spec fn serialized(&self, big_endian: bool) -> Seq<u8> {
        self.data.data@
    }

    open spec fn decode_check(bytes: Seq<u8>, big_endian: bool) -> Result<
        Seq<u32>,
        UnicodeEncodingError,
    > {
        match utf8_decode_res(bytes) {
            Err(e) => Err(e),
            Ok(units) => cesu8_pair_units(units),
        }
    }

    proof fn lemma_scalar_seq_encodable(s: Seq<u32>) {
        crate::unicode_encoding::lemma_scalar_seq_is_valid(s);
        assert forall|i: int|
            0 <= i < s.len() - 1 implies (is_surrogate_value(#[trigger] s[i]) ==> s[i + 1]
            < 0x10000) by {
            assert(is_scalar_value(s[i]));
        }
    }

    /// Convert UTF-32 data to CESU-8.
    fn from_utf_32(data_utf_32: &Utf32) -> (r: Self) {
        let mut data: Vec<u8> = Vec::new();
        let n = data_utf_32.data.len();
        let mut i: usize = 0;
        proof {
            assert(data_utf_32.data@.take(0) =~= Seq::<u32>::empty());
            assert(data@ =~= cesu8_encode_seq(data_utf_32.data@.take(0)));
        }
        while i < n
            invariant
                i <= n,
                n == data_utf_32.data@.len(),
                cesu8_encodable(data_utf_32.data@),
                data@ == cesu8_encode_seq(data_utf_32.data@.take(i as int)),
            decreases n - i,
        {
            let mut new_bytes = utf_32_glyph_to_cesu_8(data_utf_32.data[i]);
            data.append(&mut new_bytes);
            i = i + 1;
            proof {
                let tk = data_utf_32.data@.take(i as int);
                assert(tk.drop_last() =~= data_utf_32.data@.take(i - 1));
                assert(tk.last() == data_utf_32.data@[i - 1]);
                lemma_cesu8_encode_seq_push(tk.drop_last(), tk.last());
                assert(tk.drop_last().push(tk.last()) =~= tk);
            }
        }
        proof {
            assert(data_utf_32.data@.take(n as int) =~= data_utf_32.data@);
            lemma_cesu8_decode_of_encode(data_utf_32.data@);
        }
        Cesu8 { data: Utf8 { data } }
    }

    /// Convert CESU-8 to UTF-32, re-pairing adjacent surrogate units.
    fn to_utf_32(&self) -> (r: Utf32) {
        let tmp_utf32 = self.data.to_utf_32();
        let ghost units = tmp_utf32.data@;
        let mut ret: Vec<u32> = Vec::new();
        let n = tmp_utf32.data.len();
        let mut loop_pointer: usize = 0;
        proof {
            assert(units.skip(0) =~= units);
            assert(ret@ + cesu8_pair_units(units.skip(0))->Ok_0 =~= cesu8_pair_units(
                units,
            )->Ok_0);
        }
        while loop_pointer < n
            invariant
                loop_pointer <= n,
                n == units.len(),
                units == tmp_utf32.data@,
                cesu8_pair_units(units) is Ok,
                cesu8_pair_units(units.skip(loop_pointer as int)) is Ok,
                cesu8_pair_units(units)->Ok_0 == ret@ + cesu8_pair_units(
                    units.skip(loop_pointer as int),
                )->Ok_0,
            decreases n - loop_pointer,
        {
            let ghost sub = units.skip(loop_pointer as int);
            proof {
                assert(sub[0] == units[loop_pointer as int]);
                assert(forall|j: int|
                    0 <= j < sub.len() ==> #[trigger] sub[j] == units[loop_pointer + j]);
            }
            if loop_pointer < n - 1 {
                let next_glyph = tmp_utf32.data[loop_pointer + 1];
                match compatible_codepoints(tmp_utf32.data[loop_pointer], next_glyph) {
                    UnicodeEncodingError::NoError => {
                        ret.push(tmp_utf32.data[loop_pointer]);
                        proof {
                            let rest = cesu8_pair_units(units.skip(loop_pointer + 1))->Ok_0;
                            assert(sub.skip(1) =~= units.skip(loop_pointer + 1));
                            assert(cesu8_pair_units(sub)->Ok_0 =~= seq![sub[0]] + rest);
                            assert(ret@ + rest =~= cesu8_pair_units(units)->Ok_0);
                        }
                        loop_pointer = loop_pointer + 1;
                    },
                    UnicodeEncodingError::AmbiguousUnpairedSurrogates => {
                        let h = tmp_utf32.data[loop_pointer];
                        let l = tmp_utf32.data[loop_pointer + 1];
                        proof {
                            assert(is_surrogate_value(h) && is_surrogate_value(l));
                            assert(is_high_surrogate_value(h) && is_low_surrogate_value(l));
                        }
                        let combined = (h - 0xD800) * 0x400 + (l - 0xDC00) + 0x10000;
                        ret.push(combined);
                        proof {
                            let rest = cesu8_pair_units(units.skip(loop_pointer + 2))->Ok_0;
                            assert(sub.skip(2) =~= units.skip(loop_pointer + 2));
                            assert(combined == surrogate_pair_value32(h, l));
                            assert(cesu8_pair_units(sub)->Ok_0 =~= seq![combined] + rest);
                            assert(ret@ + rest =~= cesu8_pair_units(units)->Ok_0);
                        }
                        loop_pointer = loop_pointer + 2;
                    },
                    _ => {
                        proof {
                            assert(sub[0] <= 0x10FFFF);
                            assert(sub.skip(1) =~= units.skip(loop_pointer + 1));
                            assert(sub[1] <= 0x10FFFF);
                            assert(false);
                        }
                    },
                }
            } else {
                ret.push(tmp_utf32.data[loop_pointer]);
                proof {
                    let rest = cesu8_pair_units(units.skip(loop_pointer + 1))->Ok_0;
                    assert(sub.skip(1) =~= units.skip(loop_pointer + 1));
                    assert(cesu8_pair_units(sub)->Ok_0 =~= seq![sub[0]] + rest);
                    assert(ret@ + rest =~= cesu8_pair_units(units)->Ok_0);
                }
                loop_pointer = loop_pointer + 1;
            }
        }
        proof {
            assert(units.skip(n as int) =~= Seq::<u32>::empty());
            assert(ret@ =~= cesu8_pair_units(units)->Ok_0);
        }
        Utf32 { data: ret }
    }

    /// Convert a stream of CESU-8 bytes into a `Cesu8` value: the bytes
    /// must be well-formed UTF-8, and their units must re-pair cleanly.
    fn from_bytes_no_check(bytes: &[u8], big_endian: bool) -> (r: Result<
        Self,
        UnicodeEncodingError,
    >) {
        match Utf8::from_bytes_no_check(bytes, big_endian) {
            Ok(x) => {
                let utf32 = x.to_utf_32();
                match check_cesu8_units(&utf32.data) {
                    Ok(_) => Ok(Cesu8 { data: x }),
                    Err(e) => Err(e),
                }
            },
            Err(y) => Err(y),
        }
    }

    /// Convert the stored CESU-8 bytes to a byte vector; all the heavy
    /// lifting happens in the UTF-8 module.
    fn to_bytes(&self, big_endian: bool) -> (r: Vec<u8>) {
        self.data.to_bytes(big_endian)
    }
}

} // verus!
