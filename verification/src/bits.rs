//! The bit-level layout shared by every codec: integers of a fixed width,
//! stored back to back without byte alignment.
//!
//! A byte stream is read as a stream of bits: byte after byte, and within a
//! byte from the least significant bit upwards. The value stored at position
//! `pos` with width `w` is the number whose bit `k` is stream bit `pos + k`.

use vstd::prelude::*;
use vstd::arithmetic::power2::{
    lemma2_to64, lemma_pow2_adds, lemma_pow2_pos, lemma_pow2_strictly_increases, lemma_pow2_unfold,
    pow2,
};
use vstd::arithmetic::div_mod::{
    lemma_breakdown, lemma_fundamental_div_mod, lemma_fundamental_div_mod_converse, lemma_small_mod,
};
use vstd::bits::{
    lemma_u64_shl_is_mul, lemma_u64_shr_is_div, lemma_u8_pow2_no_overflow, lemma_u8_shl_is_mul,
};

verus! {

/// Bit `k` of `v`, counting from the least significant bit.
pub open spec fn bit_of(v: u64, k: int) -> bool {
    0 <= k < 64 && (v >> (k as u64)) & 1 == 1
}

/// Bit `k` of the byte `b`, counting from the least significant bit.
pub open spec fn byte_bit(b: u8, k: int) -> bool {
    0 <= k < 8 && (b >> (k as u8)) & 1 == 1
}

/// Bit `p` of a byte stream; positions beyond its end read as unset.
pub open spec fn stream_bit(bytes: Seq<u8>, p: int) -> bool {
    0 <= p < 8 * bytes.len() && byte_bit(bytes[p / 8], p % 8)
}

/// What a bit contributes to a number when it stands at position `k`.
pub open spec fn weight(set: bool, k: nat) -> nat {
    if set {
        pow2(k)
    } else {
        0
    }
}

/// The number whose bit `k`, for `k < width`, is stream bit `pos + k`.
pub open spec fn stream_value(bytes: Seq<u8>, pos: int, width: nat) -> nat
    decreases width,
{
    if width == 0 {
        0
    } else {
        stream_value(bytes, pos, (width - 1) as nat) + weight(
            stream_bit(bytes, pos + width - 1),
            (width - 1) as nat,
        )
    }
}

/// The number made of the lowest `width` bits of `v`.
pub open spec fn low_bits(v: u64, width: nat) -> nat
    decreases width,
{
    if width == 0 {
        0
    } else {
        low_bits(v, (width - 1) as nat) + weight(bit_of(v, width - 1), (width - 1) as nat)
    }
}

/// The number of binary digits of `v`: 0 for 0, 64 for the largest values.
pub open spec fn bit_width(v: u64) -> nat
    decreases v,
{
    if v == 0 {
        0
    } else {
        1 + bit_width(v / 2)
    }
}

/// The number of bytes that `n` values of `width` bits occupy.
pub open spec fn packed_len(n: nat, width: nat) -> nat {
    ((n * width + 7) / 8) as nat
}

/// The bit that packing `vals` at `width` bits each puts at stream position
/// `p`: bit `p % width` of value `p / width`, unset behind the last value.
pub open spec fn source_bit(vals: Seq<u64>, width: nat, p: int) -> bool {
    width > 0 && 0 <= p && p / (width as int) < vals.len() && bit_of(
        vals[p / (width as int)],
        p % (width as int),
    )
}

/// `bytes` is `vals` packed at `width` bits each: exactly as many bytes as
/// the values need, every bit in its place, the padding bits unset.
pub open spec fn is_packing(bytes: Seq<u8>, vals: Seq<u64>, width: nat) -> bool {
    &&& bytes.len() == packed_len(vals.len(), width)
    &&& forall|p: int|
        0 <= p < 8 * bytes.len() ==> #[trigger] stream_bit(bytes, p) == source_bit(vals, width, p)
}

/// A value read from a stream has no bit at or above its width.
pub proof fn lemma_stream_value_bound(bytes: Seq<u8>, pos: int, width: nat)
    ensures
        stream_value(bytes, pos, width) < pow2(width),
    decreases width,
{
    if width == 0 {
        lemma2_to64();
    } else {
        lemma_stream_value_bound(bytes, pos, (width - 1) as nat);
        lemma_pow2_unfold(width);
    }
}

/// `low_bits(v, width)` is `v` modulo two to the `width`.
pub proof fn lemma_low_bits_is_mod(v: u64, width: nat)
    requires
        width <= 64,
    ensures
        low_bits(v, width) == (v as nat) % pow2(width),
    decreases width,
{
    if width == 0 {
        lemma2_to64();
    } else {
        let w = (width - 1) as nat;
        lemma_low_bits_is_mod(v, w);
        lemma_pow2_pos(w);
        lemma_pow2_unfold(width);
        lemma_breakdown(v as int, pow2(w) as int, 2);
        lemma_u64_shr_is_div(v, w as u64);
        let t: u64 = v >> (w as u64);
        assert((t & 1 == 1) == (t % 2 == 1)) by (bit_vector);
        assert(pow2(w) * 2 == 2 * pow2(w)) by (nonlinear_arith);
        assert(pow2(w) * ((v as int / pow2(w) as int) % 2) == weight(bit_of(v, w as int), w))
            by (nonlinear_arith)
            requires
                (v as int / pow2(w) as int) % 2 == (if bit_of(v, w as int) { 1int } else { 0int }),
                weight(bit_of(v, w as int), w) == (if bit_of(v, w as int) { pow2(w) } else { 0nat }),
        ;
    }
}

/// A value that fits in `width` bits is the number made of its lowest
/// `width` bits.
pub proof fn lemma_low_bits_exact(v: u64, width: nat)
    requires
        width <= 64,
        v < pow2(width),
    ensures
        low_bits(v, width) == v,
{
    lemma_low_bits_is_mod(v, width);
    lemma_small_mod(v as nat, pow2(width));
}

/// Two reads that see the same bits give the same number.
pub proof fn lemma_stream_value_of_bits(bytes: Seq<u8>, pos: int, v: u64, width: nat)
    requires
        forall|k: int| 0 <= k < width ==> stream_bit(bytes, pos + k) == #[trigger] bit_of(v, k),
    ensures
        stream_value(bytes, pos, width) == low_bits(v, width),
    decreases width,
{
    if width > 0 {
        lemma_stream_value_of_bits(bytes, pos, v, (width - 1) as nat);
    }
}

/// A read depends only on the bits it covers: two streams that agree there,
/// each at its own position, give the same number.
pub proof fn lemma_stream_value_same_bits(a: Seq<u8>, pa: int, b: Seq<u8>, pb: int, width: nat)
    requires
        forall|q: int| pa <= q < pa + width ==> #[trigger] stream_bit(a, q) == stream_bit(b, q - pa + pb),
    ensures
        stream_value(a, pa, width) == stream_value(b, pb, width),
    decreases width,
{
    if width > 0 {
        lemma_stream_value_same_bits(a, pa, b, pb, (width - 1) as nat);
    }
}

/// A packing that lies inside a larger stream, from byte `off` on, is read
/// there as it is read alone.
pub proof fn lemma_stream_value_embedded(
    outer: Seq<u8>,
    off: int,
    inner: Seq<u8>,
    pos: int,
    width: nat,
)
    requires
        0 <= off,
        off + inner.len() <= outer.len(),
        outer.subrange(off, off + inner.len()) == inner,
        0 <= pos,
        pos + width <= 8 * inner.len(),
    ensures
        stream_value(outer, 8 * off + pos, width) == stream_value(inner, pos, width),
{
    assert forall|q: int| 8 * off + pos <= q < 8 * off + pos + width implies #[trigger] stream_bit(
        outer,
        q,
    ) == stream_bit(inner, q - (8 * off + pos) + pos) by {
        let r = q - 8 * off;
        assert(q / 8 == off + r / 8 && q % 8 == r % 8);
        assert(inner[r / 8] == outer[off + r / 8]);
    }
    lemma_stream_value_same_bits(outer, 8 * off + pos, inner, pos, width);
}

/// Reading value `i` back from a packing gives the lowest `width` bits of
/// the value that was packed.
pub proof fn lemma_packing_read(bytes: Seq<u8>, vals: Seq<u64>, width: nat, i: int)
    requires
        is_packing(bytes, vals, width),
        0 <= i < vals.len(),
        width <= 64,
    ensures
        stream_value(bytes, i * width, width) == low_bits(vals[i], width),
        (i + 1) * width <= 8 * bytes.len(),
{
    let n = vals.len() as int;
    let w = width as int;
    assert((i + 1) * w <= n * w) by (nonlinear_arith)
        requires
            i + 1 <= n,
            w >= 0,
    ;
    assert forall|k: int| 0 <= k < width implies stream_bit(bytes, i * w + k) == #[trigger] bit_of(
        vals[i],
        k,
    ) by {
        let p = i * w + k;
        assert(0 <= p < (i + 1) * w) by (nonlinear_arith)
            requires
                p == i * w + k,
                0 <= k < w,
                0 <= i,
        ;
        lemma_fundamental_div_mod_converse(p, w, i, k);
        assert(stream_bit(bytes, p) == source_bit(vals, width, p));
    }
    lemma_stream_value_of_bits(bytes, i * w, vals[i], width);
}

/// Value `i` of a packing that holds `n` values lies within the packing.
pub proof fn lemma_value_in_packing(n: nat, width: nat, i: nat)
    requires
        i < n,
    ensures
        (i + 1) * width <= 8 * packed_len(n, width),
{
    assert((i + 1) * width <= n * width) by (nonlinear_arith)
        requires
            i + 1 <= n,
    ;
}

/// The bit width of a number is the least width that holds it: the number
/// is below two to its bit width, and below two to no smaller width.
pub proof fn lemma_bit_width(v: u64)
    ensures
        bit_width(v) <= 64,
        v < pow2(bit_width(v)),
        v > 0 ==> v >= pow2((bit_width(v) - 1) as nat),
        forall|w: nat| v < #[trigger] pow2(w) ==> bit_width(v) <= w,
    decreases v,
{
    lemma2_to64();
    if v != 0 {
        let h: u64 = v / 2;
        lemma_bit_width(h);
        lemma_pow2_unfold(bit_width(v));
        if h > 0 {
            lemma_pow2_unfold(bit_width(h));
        }
        if bit_width(h) >= 64 {
            lemma_pow2_strictly_increases(63, bit_width(h));
        }
    }
    assert forall|w: nat| v < #[trigger] pow2(w) implies bit_width(v) <= w by {
        if v > 0 && bit_width(v) > w {
            let b = (bit_width(v) - 1) as nat;
            if w < b {
                lemma_pow2_strictly_increases(w, b);
            }
        }
    }
}

/// Computes the number of binary digits of `v`.
pub fn compute_num_bits(v: u64) -> (width: u8)
    ensures
        width == bit_width(v),
        width <= 64,
{
    let mut rest: u64 = v;
    let mut width: u8 = 0;
    proof {
        lemma_bit_width(v);
    }
    while rest != 0
        invariant
            width + bit_width(rest) == bit_width(v),
            bit_width(v) <= 64,
        decreases rest,
    {
        rest = rest / 2;
        width = width + 1;
    }
    width
}

/// The byte with the lowest `t` bits set.
pub open spec fn low_mask(t: nat) -> u8 {
    if t >= 8 {
        0xFF
    } else {
        ((1u8 << (t as u8)) - 1) as u8
    }
}

/// The `t` bits of the byte `b` from bit `s` on, as a number.
pub open spec fn byte_chunk(b: u8, s: nat, t: nat) -> u8 {
    (b >> (s as u8)) & low_mask(t)
}

/// A run of bits within one byte of a stream is the number that is read
/// there.
pub proof fn lemma_byte_chunk(data: Seq<u8>, byte: int, s: nat, t: nat)
    requires
        0 <= byte < data.len(),
        s + t <= 8,
    ensures
        byte_chunk(data[byte], s, t) == stream_value(data, 8 * byte + s, t),
    decreases t,
{
    let b: u8 = data[byte];
    let su: u8 = s as u8;
    if t == 0 {
        assert((b >> su) & (((1u8 << 0u8) - 1) as u8) == 0) by (bit_vector);
    } else {
        let t0 = (t - 1) as nat;
        let tu: u8 = t0 as u8;
        lemma_byte_chunk(data, byte, s, t0);
        let m0: u8 = low_mask(t0);
        let m1: u8 = low_mask(t);
        let top: u8 = (su + tu) as u8;
        assert(((b >> su) & m1) == ((b >> su) & m0) + (if (b >> top) & 1 == 1 {
            1u8 << tu
        } else {
            0u8
        })) by (bit_vector)
            requires
                su + tu < 8,
                top == su + tu,
                m0 == ((1u8 << tu) - 1) as u8,
                m1 == (if tu == 7 {
                    0xFFu8
                } else {
                    ((1u8 << ((tu + 1) as u8)) - 1) as u8
                }),
        ;
        let p = 8 * byte + s + t0;
        assert(p / 8 == byte && p % 8 == s + t0);
        assert(stream_bit(data, p) == byte_bit(b, (s + t0) as int));
        lemma_u8_pow2_no_overflow(t0);
        lemma_u8_shl_is_mul(1, tu);
    }
}

/// A read of `a + c` bits is a read of `a` bits, and above them a read of
/// the `c` bits that follow.
pub proof fn lemma_stream_value_split(data: Seq<u8>, pos: int, a: nat, c: nat)
    ensures
        stream_value(data, pos, a + c) == stream_value(data, pos, a) + pow2(a) * stream_value(
            data,
            pos + a,
            c,
        ),
    decreases c,
{
    if c == 0 {
        assert(pow2(a) * 0 == 0) by (nonlinear_arith);
    } else {
        let c0 = (c - 1) as nat;
        lemma_stream_value_split(data, pos, a, c0);
        lemma_pow2_adds(a, c0);
        let low = stream_value(data, pos + a, c0);
        let w = weight(stream_bit(data, pos + a + c0), c0);
        assert(pow2(a) * (low + w) == pow2(a) * low + pow2(a) * w) by (nonlinear_arith);
        assert(pow2(a) * w == weight(stream_bit(data, pos + a + c0), a + c0)) by (nonlinear_arith)
            requires
                w == (if stream_bit(data, pos + a + c0) {
                    pow2(c0)
                } else {
                    0nat
                }),
                weight(stream_bit(data, pos + a + c0), a + c0) == (if stream_bit(
                    data,
                    pos + a + c0,
                ) {
                    pow2(a + c0)
                } else {
                    0nat
                }),
                pow2(a + c0) == pow2(a) * pow2(c0),
        ;
    }
}

/// Reads value `idx` of a packing of `width`-bit values that starts at
/// byte `start` of `data`. The value is put together from the bytes that
/// it touches, nine at most.
pub fn unpack(data: &[u8], start: usize, idx: u64, width: u8) -> (r: u64)
    requires
        width <= 64,
        start <= data@.len(),
        (idx + 1) * width <= 8 * (data@.len() - start),
    ensures
        r == stream_value(data@, 8 * start + idx * width, width as nat),
{
    if width == 0 {
        return 0;
    }
    assert(idx * width < 0x1_0000_0000_0000_0000 * 64) by (nonlinear_arith)
        requires
            idx < 0x1_0000_0000_0000_0000,
            0 < width <= 64,
    ;
    assert(idx * width + width == (idx + 1) * width) by (nonlinear_arith);
    let bitpos: u128 = (idx as u128) * (width as u128);
    let room: usize = data.len() - start;
    let skipped: u128 = bitpos / 8;
    assert(skipped < room);
    let mut byte: usize = start + skipped as usize;
    let mut shift: u8 = (bitpos % 8) as u8;
    let mut acc: u64 = 0;
    let mut got: u8 = 0;
    let ghost base: int = 8 * start + idx * width;
    while got < width
        invariant
            0 < width <= 64,
            got <= width,
            shift < 8,
            8 * byte + shift == base + got,
            base + width <= 8 * data@.len(),
            0 <= base,
            acc == stream_value(data@, base, got as nat),
        decreases width - got,
    {
        let left: u8 = width - got;
        let take: u8 = if left < 8 - shift {
            left
        } else {
            8 - shift
        };
        assert(take < 8 ==> (1u8 << take) >= 1) by (bit_vector);
        let mask: u8 = if take == 8 {
            0xFF
        } else {
            (1u8 << take) - 1
        };
        let chunk: u8 = (data[byte] >> shift) & mask;
        proof {
            let g = got as nat;
            let t = take as nat;
            lemma_byte_chunk(data@, byte as int, shift as nat, t);
            lemma_stream_value_split(data@, base, g, t);
            lemma_stream_value_bound(data@, base, g);
            lemma_stream_value_bound(data@, base + g, t);
            lemma_pow2_adds(g, t);
            lemma2_to64();
            if g + t < 64 {
                lemma_pow2_strictly_increases(g + t, 64);
            }
            assert(acc + chunk * pow2(g) < pow2(g) * pow2(t)) by (nonlinear_arith)
                requires
                    acc < pow2(g),
                    chunk < pow2(t),
            ;
            lemma_u64_shl_is_mul(chunk as u64, got as u64);
            assert(chunk * pow2(g) == pow2(g) * chunk) by (nonlinear_arith);
        }
        acc = acc + ((chunk as u64) << got);
        got = got + take;
        if shift + take == 8 {
            shift = 0;
            byte = byte + 1;
        } else {
            shift = shift + take;
        }
    }
    acc
}

/// The byte in which bit `k` alone is set, where `set` holds; else 0.
pub open spec fn bit_mask(set: bool, k: int) -> u8 {
    if !set {
        0
    } else if k == 0 {
        0x01
    } else if k == 1 {
        0x02
    } else if k == 2 {
        0x04
    } else if k == 3 {
        0x08
    } else if k == 4 {
        0x10
    } else if k == 5 {
        0x20
    } else if k == 6 {
        0x40
    } else {
        0x80
    }
}

/// Byte `j` of the packing of `vals` at `width` bits each: its bit `k` is
/// the bit that packing puts at stream position `8 * j + k`.
pub open spec fn packed_byte_of(vals: Seq<u64>, width: nat, j: int) -> u8 {
    bit_mask(source_bit(vals, width, 8 * j), 0) | bit_mask(source_bit(vals, width, 8 * j + 1), 1)
        | bit_mask(source_bit(vals, width, 8 * j + 2), 2) | bit_mask(
        source_bit(vals, width, 8 * j + 3),
        3,
    ) | bit_mask(source_bit(vals, width, 8 * j + 4), 4) | bit_mask(
        source_bit(vals, width, 8 * j + 5),
        5,
    ) | bit_mask(source_bit(vals, width, 8 * j + 6), 6) | bit_mask(
        source_bit(vals, width, 8 * j + 7),
        7,
    )
}

/// The packing of `vals` at `width` bits each.
pub open spec fn packed(vals: Seq<u64>, width: nat) -> Seq<u8> {
    Seq::new(packed_len(vals.len(), width), |j: int| packed_byte_of(vals, width, j))
}

/// Every bit of a byte of the packing is the bit that belongs there.
pub proof fn lemma_packed_byte_bits(vals: Seq<u64>, width: nat, j: int, k: int)
    requires
        0 <= k < 8,
    ensures
        byte_bit(packed_byte_of(vals, width, j), k) == source_bit(vals, width, 8 * j + k),
{
    let m0 = bit_mask(source_bit(vals, width, 8 * j), 0);
    let m1 = bit_mask(source_bit(vals, width, 8 * j + 1), 1);
    let m2 = bit_mask(source_bit(vals, width, 8 * j + 2), 2);
    let m3 = bit_mask(source_bit(vals, width, 8 * j + 3), 3);
    let m4 = bit_mask(source_bit(vals, width, 8 * j + 4), 4);
    let m5 = bit_mask(source_bit(vals, width, 8 * j + 5), 5);
    let m6 = bit_mask(source_bit(vals, width, 8 * j + 6), 6);
    let m7 = bit_mask(source_bit(vals, width, 8 * j + 7), 7);
    let ku: u8 = k as u8;
    assert((((m0 | m1 | m2 | m3 | m4 | m5 | m6 | m7) >> ku) & 1 == 1) == ((ku == 0 && m0 != 0) || (ku
        == 1 && m1 != 0) || (ku == 2 && m2 != 0) || (ku == 3 && m3 != 0) || (ku == 4 && m4 != 0)
        || (ku == 5 && m5 != 0) || (ku == 6 && m6 != 0) || (ku == 7 && m7 != 0))) by (bit_vector)
        requires
            ku < 8,
            m0 == 0 || m0 == 0x01,
            m1 == 0 || m1 == 0x02,
            m2 == 0 || m2 == 0x04,
            m3 == 0 || m3 == 0x08,
            m4 == 0 || m4 == 0x10,
            m5 == 0 || m5 == 0x20,
            m6 == 0 || m6 == 0x40,
            m7 == 0 || m7 == 0x80,
    ;
}

/// `packed` is a packing.
pub proof fn lemma_packed_is_packing(vals: Seq<u64>, width: nat)
    ensures
        is_packing(packed(vals, width), vals, width),
{
    let bytes = packed(vals, width);
    assert forall|p: int| 0 <= p < 8 * bytes.len() implies #[trigger] stream_bit(bytes, p)
        == source_bit(vals, width, p) by {
        lemma_packed_byte_bits(vals, width, p / 8, p % 8);
    }
}

/// Two bytes with the same bits are one.
proof fn lemma_byte_by_bits(x: u8, y: u8)
    requires
        forall|k: int| 0 <= k < 8 ==> byte_bit(x, k) == byte_bit(y, k),
    ensures
        x == y,
{
    assert(byte_bit(x, 0) == byte_bit(y, 0));
    assert(byte_bit(x, 1) == byte_bit(y, 1));
    assert(byte_bit(x, 2) == byte_bit(y, 2));
    assert(byte_bit(x, 3) == byte_bit(y, 3));
    assert(byte_bit(x, 4) == byte_bit(y, 4));
    assert(byte_bit(x, 5) == byte_bit(y, 5));
    assert(byte_bit(x, 6) == byte_bit(y, 6));
    assert(byte_bit(x, 7) == byte_bit(y, 7));
    assert(x == y) by (bit_vector)
        requires
            ((x >> 0u8) & 1 == 1) == ((y >> 0u8) & 1 == 1),
            ((x >> 1u8) & 1 == 1) == ((y >> 1u8) & 1 == 1),
            ((x >> 2u8) & 1 == 1) == ((y >> 2u8) & 1 == 1),
            ((x >> 3u8) & 1 == 1) == ((y >> 3u8) & 1 == 1),
            ((x >> 4u8) & 1 == 1) == ((y >> 4u8) & 1 == 1),
            ((x >> 5u8) & 1 == 1) == ((y >> 5u8) & 1 == 1),
            ((x >> 6u8) & 1 == 1) == ((y >> 6u8) & 1 == 1),
            ((x >> 7u8) & 1 == 1) == ((y >> 7u8) & 1 == 1),
    ;
}

/// There is one packing of `vals` at `width` bits each.
pub proof fn lemma_packing_unique(bytes: Seq<u8>, vals: Seq<u64>, width: nat)
    requires
        is_packing(bytes, vals, width),
    ensures
        bytes == packed(vals, width),
{
    let other = packed(vals, width);
    lemma_packed_is_packing(vals, width);
    assert forall|j: int| 0 <= j < bytes.len() implies bytes[j] == other[j] by {
        assert forall|k: int| 0 <= k < 8 implies byte_bit(bytes[j], k) == byte_bit(other[j], k) by {
            let p = 8 * j + k;
            assert(p / 8 == j && p % 8 == k);
            assert(stream_bit(bytes, p) == source_bit(vals, width, p));
            assert(stream_bit(other, p) == source_bit(vals, width, p));
        }
        lemma_byte_by_bits(bytes[j], other[j]);
    }
    assert(bytes =~= other);
}

/// Byte `j` of the packing of `vals` at `width` bits each.
fn packed_byte(vals: &[u64], width: u8, j: usize) -> (b: u8)
    requires
        0 < width <= 64,
        8 * j + 8 <= usize::MAX,
    ensures
        forall|k: int| 0 <= k < 8 ==> byte_bit(b, k) == source_bit(vals@, width as nat, 8 * j + k),
{
    let first: usize = 8 * j;
    let mut idx: usize = first / (width as usize);
    let mut off: u8 = (first % (width as usize)) as u8;
    let mut b: u8 = 0;
    let mut k: u8 = 0;
    assert forall|i: int| 0 <= i < 8 implies !byte_bit(0u8, i) by {
        let iu: u8 = i as u8;
        assert((0u8 >> iu) & 1 != 1) by (bit_vector);
    }
    proof {
        lemma_fundamental_div_mod(first as int, width as int);
        assert((width as int) * (first as int / width as int) == (first as int / width as int) * (
        width as int)) by (nonlinear_arith);
    }
    while k < 8
        invariant
            0 < width <= 64,
            k <= 8,
            off < width,
            idx * width + off == 8 * j + k,
            8 * j + 8 <= usize::MAX,
            forall|i: int| 0 <= i < k ==> byte_bit(b, i) == source_bit(vals@, width as nat, 8 * j + i),
            forall|i: int| k <= i < 8 ==> !byte_bit(b, i),
        decreases 8 - k,
    {
        let ghost p: int = 8 * j + k;
        proof {
            lemma_fundamental_div_mod_converse(p, width as int, idx as int, off as int);
        }
        let set: bool = idx < vals.len() && (vals[idx] >> off) & 1 == 1;
        assert(set == source_bit(vals@, width as nat, p));
        let prev: u8 = b;
        if set {
            b = b | (1u8 << k);
        }
        assert forall|i: int| 0 <= i < 8 implies byte_bit(b, i) == (byte_bit(prev, i) || (set && i == k)) by {
            let iu: u8 = i as u8;
            assert((((prev | (1u8 << k)) >> iu) & 1 == 1) == (((prev >> iu) & 1 == 1) || iu == k))
                by (bit_vector)
                requires
                    k < 8,
                    iu < 8,
            ;
        }
        assert((idx + 1) * width == idx * width + width) by (nonlinear_arith);
        k = k + 1;
        if off + 1 == width {
            off = 0;
            idx = idx + 1;
        } else {
            off = off + 1;
        }
    }
    b
}

/// Packs `vals` at `width` bits each. Bits of a value at or above `width`
/// are dropped.
pub fn pack(vals: &[u64], width: u8) -> (out: Vec<u8>)
    requires
        width <= 64,
        vals@.len() * width + 8 <= usize::MAX,
    ensures
        out@ == packed(vals@, width as nat),
        is_packing(out@, vals@, width as nat),
{
    let n: usize = vals.len();
    let total: usize = n * (width as usize);
    let nbytes: usize = (total + 7) / 8;
    let mut out: Vec<u8> = Vec::with_capacity(nbytes);
    let mut j: usize = 0;
    while j < nbytes
        invariant
            width <= 64,
            width == 0 ==> nbytes == 0,
            nbytes == packed_len(vals@.len(), width as nat),
            8 * nbytes <= usize::MAX,
            j <= nbytes,
            out@.len() == j,
            forall|p: int| 0 <= p < 8 * j ==> #[trigger] stream_bit(out@, p) == source_bit(vals@, width as nat, p),
        decreases nbytes - j,
    {
        let b: u8 = packed_byte(vals, width, j);
        let ghost before = out@;
        out.push(b);
        assert forall|p: int| 0 <= p < 8 * (j + 1) implies #[trigger] stream_bit(out@, p) == source_bit(
            vals@,
            width as nat,
            p,
        ) by {
            if p < 8 * j {
                assert(out@[p / 8] == before[p / 8]);
                assert(stream_bit(before, p) == source_bit(vals@, width as nat, p));
            } else {
                assert(p / 8 == j as int);
                assert(byte_bit(b, p % 8) == source_bit(vals@, width as nat, 8 * j + p % 8));
            }
        }
        j = j + 1;
    }
    proof {
        lemma_packing_unique(out@, vals@, width as nat);
    }
    out
}

} // verus!
