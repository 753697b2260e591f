//! Lossless mapping between sequences of fixed-width unsigned integers and
//! byte buffers, honouring a chosen byte order.  Every fixed-width encoding
//! serializes through this module.

use vstd::prelude::*;
use crate::unicode_encoding::UnicodeEncodingError;

verus! {

/// `256^w`, the number of values a `w`-byte unit can hold.
pub open spec fn pow256(w: nat) -> nat
    decreases w,
{
    if w == 0 {
        1
    } else {
        256 * pow256((w - 1) as nat)
    }
}

/// The `width` least significant bytes of `v`, least significant first.
pub open spec fn le_bytes_of(v: u64, width: nat) -> Seq<u8>
    decreases width,
{
    if width == 0 {
        Seq::empty()
    } else {
        seq![(v % 256) as u8] + le_bytes_of(v / 256, (width - 1) as nat)
    }
}

/// The bytes of one `width`-byte unit in the requested byte order.
pub open spec fn unit_bytes(v: u64, width: nat, big_endian: bool) -> Seq<u8> {
    if big_endian {
        le_bytes_of(v, width).reverse()
    } else {
        le_bytes_of(v, width)
    }
}

/// The byte buffer that serializing `data` as `width`-byte units produces.
pub open spec fn pack_spec(data: Seq<u64>, width: nat, big_endian: bool) -> Seq<u8>
    decreases data.len(),
{
    if data.len() == 0 {
        Seq::empty()
    } else {
        pack_spec(data.drop_last(), width, big_endian) + unit_bytes(data.last(), width, big_endian)
    }
}

/// The value of a little-endian byte sequence, least significant byte first.
pub open spec fn le_value_of(bs: Seq<u8>) -> nat
    decreases bs.len(),
{
    if bs.len() == 0 {
        0
    } else {
        (bs[0] as nat) + 256 * le_value_of(bs.drop_first())
    }
}

/// The value of one unit stored in the requested byte order.
pub open spec fn unit_value(bs: Seq<u8>, big_endian: bool) -> nat {
    if big_endian {
        le_value_of(bs.reverse())
    } else {
        le_value_of(bs)
    }
}

/// The units recovered from a byte buffer whose length is a multiple of
/// `width`: the value of each group of `width` bytes in order.
pub open spec fn unpack_spec(bytes: Seq<u8>, width: nat, big_endian: bool) -> Seq<u64>
    recommends
        width >= 1,
        bytes.len() % width == 0,
{
    Seq::new(
        bytes.len() / width,
        |k: int| unit_value(bytes.subrange(k * width, (k + 1) * width), big_endian) as u64,
    )
}

/// Cut an integer into its `width` least significant bytes, least
/// significant first.
pub fn cut_int(n: u64, width: usize) -> (r: Vec<u8>)
    ensures
        r@ == le_bytes_of(n, width as nat),
{
    let mut ret: Vec<u8> = Vec::new();
    let mut m: u64 = n;
    let mut i: usize = 0;
    proof {
        assert(ret@ + le_bytes_of(n, width as nat) =~= le_bytes_of(n, width as nat));
    }
    while i < width
        invariant
            i <= width,
            le_bytes_of(n, width as nat) == ret@ + le_bytes_of(m, (width - i) as nat),
        decreases width - i,
    {
        let ghost old_ret = ret@;
        let ghost old_m = m;
        ret.push((m % 256) as u8);
        m = m / 256;
        i = i + 1;
        proof {
            assert(le_bytes_of(old_m, (width - i + 1) as nat) == seq![(old_m % 256) as u8]
                + le_bytes_of(old_m / 256, (width - i) as nat));
            assert(old_ret + (seq![(old_m % 256) as u8] + le_bytes_of(m, (width - i) as nat))
                =~= ret@ + le_bytes_of(m, (width - i) as nat));
        }
    }
    proof {
        assert(ret@ + le_bytes_of(m, 0) =~= ret@);
    }
    ret
}

/// Append the bytes of one unit to `out` in the requested byte order.
fn push_unit(out: &mut Vec<u8>, v: u64, width: usize, big_endian: bool)
    ensures
        final(out)@ == old(out)@ + unit_bytes(v, width as nat, big_endian),
{
    let ghost base = out@;
    let le = cut_int(v, width);
    proof {
        lemma_le_bytes_len(v, width as nat);
    }
    if big_endian {
        let mut j: usize = width;
        proof {
            assert(le@.subrange(width as int, width as int) =~= Seq::<u8>::empty());
            assert(out@ + le@.subrange(width as int, width as int).reverse() =~= out@);
        }
        while j > 0
            invariant
                j <= width,
                le@ == le_bytes_of(v, width as nat),
                le@.len() == width,
                out@ == base + le@.subrange(j as int, width as int).reverse(),
            decreases j,
        {
            j = j - 1;
            out.push(le[j]);
            proof {
                let tail = le@.subrange(j as int, width as int);
                assert(tail.reverse() =~= le@.subrange(j + 1, width as int).reverse().push(
                    le@[j as int],
                ));
                assert(out@ =~= base + tail.reverse());
            }
        }
        proof {
            assert(le@.subrange(0, width as int) =~= le@);
        }
    } else {
        let mut j: usize = 0;
        proof {
            assert(le@.subrange(0, 0) =~= Seq::<u8>::empty());
            assert(out@ + le@.subrange(0, 0) =~= out@);
        }
        while j < width
            invariant
                j <= width,
                le@ == le_bytes_of(v, width as nat),
                le@.len() == width,
                out@ == base + le@.subrange(0, j as int),
            decreases width - j,
        {
            out.push(le[j]);
            j = j + 1;
            proof {
                assert(base + le@.subrange(0, j as int) =~= out@);
            }
        }
        proof {
            assert(le@.subrange(0, width as int) =~= le@);
        }
    }
}

/// Serialize a sequence of unit values into a byte buffer with the
/// requested byte order.  Only the `width` least significant bytes of each
/// value are emitted.
pub fn to_bytes(data: &Vec<u64>, width: usize, big_endian: bool) -> (r: Vec<u8>)
    ensures
        r@ == pack_spec(data@, width as nat, big_endian),
{
    let mut ret: Vec<u8> = Vec::new();
    let mut idx: usize = 0;
    while idx < data.len()
        invariant
            idx <= data@.len(),
            ret@ == pack_spec(data@.take(idx as int), width as nat, big_endian),
        decreases data@.len() - idx,
    {
        push_unit(&mut ret, data[idx], width, big_endian);
        idx = idx + 1;
        proof {
            let t = data@.take(idx as int);
            assert(t.drop_last() =~= data@.take(idx - 1));
            assert(t.last() == data@[idx - 1]);
        }
    }
    proof {
        assert(data@.take(data@.len() as int) =~= data@);
    }
    ret
}

/// Read the unit of `width` bytes starting at `start` in the requested
/// byte order.
fn read_unit(bytes: &[u8], start: usize, width: usize, big_endian: bool) -> (r: u64)
    requires
        1 <= width <= 8,
        start + width <= bytes@.len(),
    ensures
        r == unit_value(bytes@.subrange(start as int, start + width), big_endian),
{
    let n = bytes.len();
    let ghost sub = bytes@.subrange(start as int, start + width);
    let ghost lev: Seq<u8> = if big_endian {
        sub.reverse()
    } else {
        sub
    };
    let mut acc: u64 = 0;
    let mut o: usize = 0;
    proof {
        assert(lev.subrange(width as int, width as int) =~= Seq::<u8>::empty());
    }
    while o < width
        invariant
            o <= width,
            1 <= width <= 8,
            start + width <= n,
            n == bytes@.len(),
            sub == bytes@.subrange(start as int, start + width),
            lev == if big_endian {
                sub.reverse()
            } else {
                sub
            },
            lev.len() == width,
            acc == le_value_of(lev.subrange(width - o, width as int)),
            acc < pow256(o as nat),
        decreases width - o,
    {
        let byte = if big_endian {
            bytes[start + o]
        } else {
            bytes[start + width - 1 - o]
        };
        proof {
            assert(byte == lev[width - 1 - o]);
            let longer = lev.subrange(width - o - 1, width as int);
            assert(longer[0] == lev[width - 1 - o]);
            assert(longer.drop_first() =~= lev.subrange(width - o, width as int));
            assert(le_value_of(longer) == (byte as nat) + 256 * acc);
            lemma_pow256_pos(o as nat);
            assert(256 * acc + byte < 256 * pow256(o as nat)) by (nonlinear_arith)
                requires
                    acc <= pow256(o as nat) - 1,
                    byte < 256,
                    pow256(o as nat) >= 1,
            ;
            lemma_pow256_mono((o + 1) as nat, 8);
            lemma_pow256_value_8();
        }
        acc = acc * 256 + (byte as u64);
        o = o + 1;
    }
    proof {
        assert(lev.subrange(0, width as int) =~= lev);
    }
    acc
}

/// `pow256` grows with the width.
proof fn lemma_pow256_mono(a: nat, b: nat)
    requires
        a <= b,
    ensures
        pow256(a) <= pow256(b),
    decreases b,
{
    if a < b {
        lemma_pow256_mono(a, (b - 1) as nat);
        lemma_pow256_pos((b - 1) as nat);
    }
}

/// The unit capacities for the widths the codecs use.
pub proof fn lemma_pow256_value_8()
    ensures
        pow256(1) == 0x100,
        pow256(2) == 0x1_0000,
        pow256(4) == 0x1_0000_0000,
        pow256(8) == 0x1_0000_0000_0000_0000,
{
    assert(pow256(0) == 1);
    assert(pow256(1) == 256);
    assert(pow256(2) == 0x1_0000);
    assert(pow256(3) == 0x100_0000);
    assert(pow256(4) == 0x1_0000_0000);
    assert(pow256(5) == 0x100_0000_0000);
    assert(pow256(6) == 0x1_0000_0000_0000);
    assert(pow256(7) == 0x100_0000_0000_0000);
    assert(pow256(8) == 0x1_0000_0000_0000_0000);
}

/// Every unit that `unpack_spec` yields fits in `width` bytes.
pub proof fn lemma_unpack_spec_bounds(bytes: Seq<u8>, width: nat, big_endian: bool)
    requires
        1 <= width <= 8,
    ensures
        forall|k: int|
            0 <= k < unpack_spec(bytes, width, big_endian).len() ==> (#[trigger] unpack_spec(
                bytes,
                width,
                big_endian,
            )[k] as nat) < pow256(width),
{
    let units = unpack_spec(bytes, width, big_endian);
    vstd::arithmetic::div_mod::lemma_fundamental_div_mod(bytes.len() as int, width as int);
    assert forall|k: int| 0 <= k < units.len() implies (#[trigger] units[k] as nat) < pow256(
        width,
    ) by {
        let n = bytes.len() / width;
        assert(k * width >= 0 && (k + 1) * width <= (n as int) * (width as int))
            by (nonlinear_arith)
            requires
                0 <= k < n,
                width >= 1,
        ;
        assert((n as int) * (width as int) <= bytes.len());
        let bs = bytes.subrange(k * width, (k + 1) * width);
        assert(bs.len() == width) by {
            assert((k + 1) * width == k * width + width) by (nonlinear_arith);
        }
        if big_endian {
            lemma_le_value_bound(bs.reverse());
        } else {
            lemma_le_value_bound(bs);
        }
        lemma_pow256_mono(width, 8);
        lemma_pow256_value_8();
    }
}

/// Deserialize a byte buffer into its sequence of `width`-byte unit values,
/// honouring the requested byte order.  Fails exactly when the byte count is
/// not a multiple of the unit width.
pub fn from_bytes(bytes: &[u8], width: usize, big_endian: bool) -> (r: Result<
    Vec<u64>,
    UnicodeEncodingError,
>)
    requires
        1 <= width <= 8,
    ensures
        match r {
            Ok(v) => bytes@.len() as int % (width as int) == 0 && v@ == unpack_spec(
                bytes@,
                width as nat,
                big_endian,
            ),
            Err(e) => e == UnicodeEncodingError::InvalidStreamSize && bytes@.len() as int % (
            width as int) != 0,
        },
{
    let n = bytes.len();
    if n % width != 0 {
        return Err(UnicodeEncodingError::InvalidStreamSize);
    }
    let units = n / width;
    let mut ret: Vec<u64> = Vec::new();
    let mut i: usize = 0;
    while i < units
        invariant
            i <= units,
            1 <= width <= 8,
            n == bytes@.len(),
            units == bytes@.len() as int / (width as int),
            bytes@.len() as int % (width as int) == 0,
            ret@.len() == i,
            forall|k: int|
                0 <= k < i ==> ret@[k] == unit_value(
                    bytes@.subrange(k * width, (k + 1) * width),
                    big_endian,
                ),
        decreases units - i,
    {
        proof {
            assert((i + 1) * width <= units * width) by (nonlinear_arith)
                requires
                    i + 1 <= units,
                    width >= 1,
            ;
            vstd::arithmetic::div_mod::lemma_fundamental_div_mod(bytes@.len() as int,
                width as int);
            assert(i * width + width == (i + 1) * width) by (nonlinear_arith);
        }
        let u = read_unit(bytes, i * width, width, big_endian);
        ret.push(u);
        i = i + 1;
    }
    proof {
        assert(ret@ =~= unpack_spec(bytes@, width as nat, big_endian));
    }
    Ok(ret)
}

proof fn lemma_pow256_pos(w: nat)
    ensures
        pow256(w) >= 1,
    decreases w,
{
    if w > 0 {
        lemma_pow256_pos((w - 1) as nat);
    }
}

/// A little-endian byte sequence holds fewer bits than its length allows.
proof fn lemma_le_value_bound(bs: Seq<u8>)
    ensures
        le_value_of(bs) < pow256(bs.len()),
    decreases bs.len(),
{
    if bs.len() == 0 {
    } else {
        lemma_le_value_bound(bs.drop_first());
        assert(256 * le_value_of(bs.drop_first()) <= 256 * (pow256(bs.drop_first().len()) - 1))
            by (nonlinear_arith)
            requires
                le_value_of(bs.drop_first()) <= pow256(bs.drop_first().len()) - 1,
        ;
    }
}

/// `le_bytes_of` always yields exactly `width` bytes.
proof fn lemma_le_bytes_len(v: u64, width: nat)
    ensures
        le_bytes_of(v, width).len() == width,
    decreases width,
{
    if width > 0 {
        lemma_le_bytes_len(v / 256, (width - 1) as nat);
    }
}

/// Reading back the little-endian bytes of `v` recovers `v` modulo the
/// unit's capacity.
proof fn lemma_le_value_of_le_bytes(v: u64, width: nat)
    ensures
        le_value_of(le_bytes_of(v, width)) == (v as nat) % pow256(width),
    decreases width,
{
    if width == 0 {
        assert(pow256(0) == 1);
    } else {
        lemma_le_value_of_le_bytes(v / 256, (width - 1) as nat);
        lemma_le_bytes_len(v / 256, (width - 1) as nat);
        let bs = le_bytes_of(v, width);
        assert(bs.drop_first() =~= le_bytes_of(v / 256, (width - 1) as nat));
        lemma_pow256_pos((width - 1) as nat);
        vstd::arithmetic::div_mod::lemma_breakdown(v as int, 256, pow256((width - 1) as nat) as int);
    }
}

/// The value of one packed unit in either byte order is the unit value that
/// was packed, modulo the unit's capacity.
proof fn lemma_unit_round_trip(v: u64, width: nat, big_endian: bool)
    ensures
        unit_bytes(v, width, big_endian).len() == width,
        unit_value(unit_bytes(v, width, big_endian), big_endian) == (v as nat) % pow256(width),
{
    lemma_le_bytes_len(v, width);
    lemma_le_value_of_le_bytes(v, width);
    if big_endian {
        assert(le_bytes_of(v, width).reverse().reverse() =~= le_bytes_of(v, width));
    }
}

/// A packed buffer takes exactly `width` bytes per unit.
pub proof fn lemma_pack_spec_len(data: Seq<u64>, width: nat, big_endian: bool)
    ensures
        pack_spec(data, width, big_endian).len() == data.len() * width,
    decreases data.len(),
{
    if data.len() == 0 {
        assert(data.len() * width == 0) by (nonlinear_arith)
            requires
                data.len() == 0,
        ;
    } else {
        lemma_pack_spec_len(data.drop_last(), width, big_endian);
        lemma_unit_round_trip(data.last(), width, big_endian);
        assert((data.len() - 1) * width + width == data.len() * width) by (nonlinear_arith);
    }
}

/// Byte-streamer symmetry: unpacking a packed buffer recovers the original
/// unit values, in either byte order, whenever each value fits its unit.
pub proof fn lemma_unpack_pack(data: Seq<u64>, width: nat, big_endian: bool)
    requires
        1 <= width,
        forall|i: int| 0 <= i < data.len() ==> #[trigger] data[i] < pow256(width),
    ensures
        pack_spec(data, width, big_endian).len() == data.len() * width,
        pack_spec(data, width, big_endian).len() as int % (width as int) == 0,
        unpack_spec(pack_spec(data, width, big_endian), width, big_endian) == data,
    decreases data.len(),
{
    lemma_pack_spec_len(data, width, big_endian);
    let packed = pack_spec(data, width, big_endian);
    assert(packed.len() as int % (width as int) == 0) by {
        vstd::arithmetic::div_mod::lemma_mod_multiples_basic(data.len() as int, width as int);
        assert(data.len() * width == (data.len() as int) * (width as int)) by (nonlinear_arith);
    }
    if data.len() == 0 {
        assert(unpack_spec(packed, width, big_endian) =~= data);
    } else {
        let prefix = data.drop_last();
        lemma_unpack_pack(prefix, width, big_endian);
        lemma_pack_spec_len(prefix, width, big_endian);
        lemma_unit_round_trip(data.last(), width, big_endian);
        let packed_prefix = pack_spec(prefix, width, big_endian);
        assert(packed.len() as int / (width as int) == data.len()) by {
            vstd::arithmetic::div_mod::lemma_div_multiples_vanish(data.len() as int, width as int);
            assert(data.len() * width == (width as int) * (data.len() as int)) by (nonlinear_arith);
        }
        assert(packed_prefix.len() as int / (width as int) == prefix.len()) by {
            vstd::arithmetic::div_mod::lemma_div_multiples_vanish(prefix.len() as int,
                width as int);
            assert(prefix.len() * width == (width as int) * (prefix.len() as int))
                by (nonlinear_arith);
        }
        assert(packed =~= packed_prefix + unit_bytes(data.last(), width, big_endian));
        assert forall|k: int| 0 <= k < data.len() implies unpack_spec(packed, width, big_endian)[k]
            == data[k] by {
            assert(k * width >= 0 && (k + 1) * width <= data.len() * width) by (nonlinear_arith)
                requires
                    0 <= k < data.len(),
                    width >= 1,
            ;
            if k < data.len() - 1 {
                assert((k + 1) * width <= prefix.len() * width) by (nonlinear_arith)
                    requires
                        k + 1 <= prefix.len(),
                        width >= 1,
                ;
                assert(packed_prefix.len() == prefix.len() * width);
                assert((k + 1) * width <= packed_prefix.len());
                let a = k * width;
                let b = (k + 1) * width;
                assert(b == a + width) by (nonlinear_arith)
                    requires
                        a == k * width,
                        b == (k + 1) * width,
                ;
                let whole = packed_prefix + unit_bytes(data.last(), width, big_endian);
                assert forall|j: int| 0 <= j < width implies #[trigger] packed.subrange(a, b)[j]
                    == packed_prefix.subrange(a, b)[j] by {
                    assert(packed.subrange(a, b)[j] == packed[a + j]);
                    assert(packed[a + j] == whole[a + j]);
                    assert(whole[a + j] == packed_prefix[a + j]);
                    assert(packed_prefix.subrange(a, b)[j] == packed_prefix[a + j]);
                }
                assert(packed.subrange(a, b) =~= packed_prefix.subrange(a, b));
                assert(unpack_spec(packed_prefix, width, big_endian)[k] == prefix[k]);
            } else {
                assert(k == data.len() - 1);
                assert(k * width == prefix.len() * width) by (nonlinear_arith)
                    requires
                        k == prefix.len(),
                ;
                assert(packed.subrange(k * width, (k + 1) * width) =~= unit_bytes(
                    data.last(),
                    width,
                    big_endian,
                ));
                vstd::arithmetic::div_mod::lemma_small_mod(data.last() as nat, pow256(width));
            }
        }
        assert(unpack_spec(packed, width, big_endian) =~= data);
    }
}

/// The little-endian bytes of the value a byte sequence holds are that
/// sequence itself.
proof fn lemma_le_bytes_of_le_value(bs: Seq<u8>)
    requires
        bs.len() <= 8,
    ensures
        le_value_of(bs) < pow256(bs.len()),
        le_bytes_of(le_value_of(bs) as u64, bs.len()) == bs,
    decreases bs.len(),
{
    lemma_le_value_bound(bs);
    lemma_pow256_mono(bs.len(), 8);
    lemma_pow256_value_8();
    if bs.len() == 0 {
        assert(le_bytes_of(le_value_of(bs) as u64, bs.len()) =~= bs);
    } else {
        let rest = bs.drop_first();
        lemma_le_bytes_of_le_value(rest);
        let v = le_value_of(bs) as u64;
        vstd::arithmetic::div_mod::lemma_fundamental_div_mod_converse(
            v as int,
            256,
            le_value_of(rest) as int,
            bs[0] as int,
        );
        assert(v % 256 == bs[0]);
        assert(v / 256 == le_value_of(rest));
        assert(le_bytes_of(v, bs.len()) =~= bs);
    }
}

/// One unit's bytes, read back as a value and packed again, are unchanged.
proof fn lemma_unit_bytes_of_unit_value(bs: Seq<u8>, big_endian: bool)
    requires
        bs.len() <= 8,
    ensures
        unit_bytes(unit_value(bs, big_endian) as u64, bs.len(), big_endian) == bs,
{
    if big_endian {
        lemma_le_bytes_of_le_value(bs.reverse());
        assert(bs.reverse().reverse() =~= bs);
    } else {
        lemma_le_bytes_of_le_value(bs);
    }
}

/// Packing the units recovered from a byte buffer reproduces that buffer
/// exactly, in either byte order.
pub proof fn lemma_pack_unpack(bytes: Seq<u8>, width: nat, big_endian: bool)
    requires
        1 <= width <= 8,
        bytes.len() % width == 0,
    ensures
        pack_spec(unpack_spec(bytes, width, big_endian), width, big_endian) == bytes,
    decreases bytes.len(),
{
    let units = unpack_spec(bytes, width, big_endian);
    let n = bytes.len() / width;
    vstd::arithmetic::div_mod::lemma_fundamental_div_mod(bytes.len() as int, width as int);
    assert(bytes.len() as int == (width as int) * (n as int));
    if bytes.len() == 0 {
        assert(pack_spec(units, width, big_endian) =~= bytes);
    } else {
        assert(n >= 1) by {
            if n == 0 {
                assert((width as int) * (n as int) == 0) by (nonlinear_arith)
                    requires
                        n == 0,
                ;
            }
        }
        assert(bytes.len() >= width) by (nonlinear_arith)
            requires
                bytes.len() as int == (width as int) * (n as int),
                n >= 1,
                width >= 1,
        ;
        let split = bytes.len() - width;
        let front = bytes.take(split as int);
        let back = bytes.skip(split as int);
        assert(front.len() == split);
        assert(front.len() as int == ((n - 1) as int) * (width as int)) by (nonlinear_arith)
            requires
                front.len() == bytes.len() - width,
                bytes.len() as int == (width as int) * (n as int),
                n >= 1,
        ;
        vstd::arithmetic::div_mod::lemma_fundamental_div_mod_converse(
            front.len() as int,
            width as int,
            n - 1,
            0,
        );
        assert(front.len() % width == 0);
        assert(front.len() as int / (width as int) == n - 1);
        lemma_pack_unpack(front, width, big_endian);
        let front_units = unpack_spec(front, width, big_endian);
        assert(units.len() == n);
        assert forall|k: int| 0 <= k < n - 1 implies units[k] == front_units[k] by {
            let a = k * width;
            let b = (k + 1) * width;
            assert(b == a + width && a >= 0 && b <= front.len()) by (nonlinear_arith)
                requires
                    a == k * width,
                    b == (k + 1) * width,
                    0 <= k < n - 1,
                    width >= 1,
                    front.len() as int == ((n - 1) as int) * (width as int),
            ;
            assert forall|j: int| 0 <= j < width implies #[trigger] bytes.subrange(a, b)[j]
                == front.subrange(a, b)[j] by {
                assert(bytes.subrange(a, b)[j] == bytes[a + j]);
                assert(front.subrange(a, b)[j] == front[a + j]);
                assert(front[a + j] == bytes[a + j]);
            }
            assert(bytes.subrange(a, b) =~= front.subrange(a, b));
        }
        assert(units.drop_last() =~= front_units);
        let k_last: int = n - 1;
        assert(units[k_last] == unit_value(
            bytes.subrange(k_last * width, (k_last + 1) * width),
            big_endian,
        ) as u64);
        assert(k_last * (width as int) == split && (k_last + 1) * (width as int) == bytes.len())
            by (nonlinear_arith)
            requires
                k_last == n - 1,
                split == bytes.len() - width,
                bytes.len() as int == (width as int) * (n as int),
        ;
        assert(bytes.subrange(k_last * width, (k_last + 1) * width) =~= back);
        lemma_unit_bytes_of_unit_value(back, big_endian);
        assert(pack_spec(units, width, big_endian) == pack_spec(front_units, width, big_endian)
            + unit_bytes(units.last() as u64, width, big_endian));
        assert(unit_value(back, big_endian) < pow256(width)) by {
            if big_endian {
                lemma_le_value_bound(back.reverse());
            } else {
                lemma_le_value_bound(back);
            }
        }
        assert(pack_spec(units, width, big_endian) =~= bytes);
    }
}

} // verus!
