//! The bitpacked codec: every value is stored as its distance from the
//! least value, in as many bits as the largest distance needs.
//!
//! Layout: least value (8 bytes), greatest value (8 bytes), bit width
//! (1 byte), number of values (8 bytes), then the packed distances.

use vstd::prelude::*;
use vstd::arithmetic::power2::pow2;
use crate::bits::{
    bit_width, compute_num_bits, is_packing, lemma_bit_width, lemma_low_bits_exact,
    lemma_packed_is_packing, lemma_packing_read, lemma_stream_value_bound,
    lemma_stream_value_embedded, lemma_value_in_packing, pack, packed, packed_len, stream_value,
    unpack,
};
use crate::column::{
    encodable_len, is_max_of, is_min_of, lemma_min_max_unique, lemma_seq_min_max, min_max, seq_max,
    seq_min, Column,
};
use crate::error::DataCorruption;
use crate::owned_bytes::OwnedBytes;
use crate::wire::{
    le_u64, lemma_field_len, lemma_le_u64_prefix, lemma_u64_field, read_u64, u64_bytes, write_u64,
    write_u8,
};

verus! {

/// The length of the header in bytes.
pub const BITPACKED_HEADER_LEN: usize = 25;

/// The least value, as the header of `b` gives it.
pub open spec fn bitpacked_min(b: Seq<u8>) -> u64 {
    le_u64(b, 0)
}

/// The greatest value, as the header of `b` gives it.
pub open spec fn bitpacked_max(b: Seq<u8>) -> u64 {
    le_u64(b, 8)
}

/// The bit width of the packed distances.
pub open spec fn bitpacked_num_bits(b: Seq<u8>) -> u8 {
    b[16]
}

/// The number of values.
pub open spec fn bitpacked_num_vals(b: Seq<u8>) -> u64 {
    le_u64(b, 17)
}

/// `b` is a bitpacked column: a whole header with a bit width of at most
/// 64 and bounds in order, followed by at least as many bytes as the
/// announced values need.
pub open spec fn bitpacked_wellformed(b: Seq<u8>) -> bool {
    &&& b.len() >= 25
    &&& bitpacked_num_bits(b) <= 64
    &&& bitpacked_min(b) <= bitpacked_max(b)
    &&& b.len() - 25 >= packed_len(bitpacked_num_vals(b) as nat, bitpacked_num_bits(b) as nat)
}

/// Value `i` of the bitpacked column `b`: the least value plus the packed
/// distance.
pub open spec fn bitpacked_value(b: Seq<u8>, i: int) -> u64 {
    bitpacked_min(b).wrapping_add(
        stream_value(b, 8 * 25 + i * bitpacked_num_bits(b), bitpacked_num_bits(b) as nat) as u64,
    )
}

/// The values of the bitpacked column `b`.
pub open spec fn bitpacked_values(b: Seq<u8>) -> Seq<u64> {
    Seq::new(bitpacked_num_vals(b) as nat, |i: int| bitpacked_value(b, i))
}

/// A reader of a bitpacked column.
pub struct BitpackedReader {
    data: OwnedBytes,
    min_value: u64,
    max_value: u64,
    num_vals: u64,
    num_bits: u8,
}

impl Clone for BitpackedReader {
    /// Another reader of the same column, on the same buffer.
    fn clone(&self) -> (r: BitpackedReader)
        ensures
            r == *self,
    {
        BitpackedReader {
            data: self.data.clone(),
            min_value: self.min_value,
            max_value: self.max_value,
            num_vals: self.num_vals,
            num_bits: self.num_bits,
        }
    }
}

impl BitpackedReader {
    /// The byte region that the reader was opened on.
    pub closed spec fn bytes(&self) -> Seq<u8> {
        self.data@
    }

    /// Opens a reader on `bytes`, or says why they are no bitpacked column.
    pub fn open(bytes: OwnedBytes) -> (r: Result<BitpackedReader, DataCorruption>)
        ensures
            match r {
                Ok(reader) => bitpacked_wellformed(bytes@) && reader.wf() && reader.bytes()
                    == bytes@,
                Err(e) => !bitpacked_wellformed(bytes@) && e == DataCorruption::MalformedFraming,
            },
    {
        let len: usize = bytes.len();
        if len < BITPACKED_HEADER_LEN {
            return Err(DataCorruption::MalformedFraming);
        }
        let data: &[u8] = bytes.as_slice();
        let min_value: u64 = read_u64(data, 0);
        let max_value: u64 = read_u64(data, 8);
        let num_bits: u8 = data[16];
        let num_vals: u64 = read_u64(data, 17);
        if num_bits > 64 || min_value > max_value {
            return Err(DataCorruption::MalformedFraming);
        }
        assert(num_vals * num_bits <= 0x1_0000_0000_0000_0000 * 64) by (nonlinear_arith)
            requires
                num_vals < 0x1_0000_0000_0000_0000,
                num_bits <= 64,
        ;
        let need: u128 = ((num_vals as u128) * (num_bits as u128) + 7) / 8;
        if ((len - BITPACKED_HEADER_LEN) as u128) < need {
            return Err(DataCorruption::MalformedFraming);
        }
        Ok(BitpackedReader { data: bytes, min_value, max_value, num_vals, num_bits })
    }

    /// The bit width of the packed distances.
    pub fn num_bits(&self) -> (w: u8)
        requires
            self.wf(),
        ensures
            w == bitpacked_num_bits(self.bytes()),
    {
        self.num_bits
    }
}

impl Column<u64> for BitpackedReader {
    closed spec fn wf(&self) -> bool {
        &&& bitpacked_wellformed(self.data@)
        &&& self.min_value == bitpacked_min(self.data@)
        &&& self.max_value == bitpacked_max(self.data@)
        &&& self.num_vals == bitpacked_num_vals(self.data@)
        &&& self.num_bits == bitpacked_num_bits(self.data@)
    }

    open spec fn values(&self) -> Seq<u64> {
        bitpacked_values(self.bytes())
    }

    open spec fn spec_min_value(&self) -> u64 {
        bitpacked_min(self.bytes())
    }

    open spec fn spec_max_value(&self) -> u64 {
        bitpacked_max(self.bytes())
    }

    /// The least value plus the packed distance at `idx`.
    fn get_val(&self, idx: u64) -> (v: u64)
        ensures
            v == bitpacked_value(self.bytes(), idx as int),
    {
        proof {
            lemma_value_in_packing(self.num_vals as nat, self.num_bits as nat, idx as nat);
            lemma_stream_value_bound(
                self.data@,
                8 * 25 + idx * self.num_bits,
                self.num_bits as nat,
            );
            vstd::arithmetic::power2::lemma2_to64();
            if self.num_bits < 64 {
                vstd::arithmetic::power2::lemma_pow2_strictly_increases(self.num_bits as nat, 64);
            }
        }
        let delta: u64 = unpack(self.data.as_slice(), BITPACKED_HEADER_LEN, idx, self.num_bits);
        self.min_value.wrapping_add(delta)
    }

    fn min_value(&self) -> (v: u64)
        ensures
            v == bitpacked_min(self.bytes()),
    {
        self.min_value
    }

    fn max_value(&self) -> (v: u64)
        ensures
            v == bitpacked_max(self.bytes()),
    {
        self.max_value
    }

    fn num_vals(&self) -> (n: u64)
        ensures
            n == bitpacked_num_vals(self.bytes()),
    {
        self.num_vals
    }
}

/// The distance of every value of `s` from `lo`.
pub open spec fn distances_from(s: Seq<u64>, lo: u64) -> Seq<u64> {
    Seq::new(s.len(), |i: int| (s[i] - lo) as u64)
}

/// The distance of every value from `lo`.
fn distances(vals: &[u64], lo: u64) -> (deltas: Vec<u64>)
    requires
        forall|j: int| 0 <= j < vals@.len() ==> lo <= #[trigger] vals@[j],
    ensures
        deltas@ == distances_from(vals@, lo),
{
    let n: usize = vals.len();
    let mut deltas: Vec<u64> = Vec::with_capacity(n);
    let mut i: usize = 0;
    while i < n
        invariant
            n == vals@.len(),
            i <= n,
            deltas@.len() == i,
            forall|j: int| 0 <= j < vals@.len() ==> lo <= #[trigger] vals@[j],
            forall|j: int| 0 <= j < i ==> #[trigger] deltas@[j] == vals@[j] - lo,
        decreases n - i,
    {
        deltas.push(vals[i] - lo);
        i = i + 1;
    }
    assert(deltas@ =~= distances_from(vals@, lo));
    deltas
}

/// The bytes of the header of a bitpacked column.
pub open spec fn bitpacked_header_bytes(lo: u64, hi: u64, width: u8, n: u64) -> Seq<u8> {
    u64_bytes(lo) + u64_bytes(hi) + seq![width] + u64_bytes(n)
}

/// The bitpacked column that the values `vals` are encoded to: the header
/// with the least and the greatest value, the bit width of their distance
/// and the number of values, then the packed distances from the least
/// value.
pub open spec fn bitpacked_encoding(vals: Seq<u64>) -> Seq<u8> {
    let lo = seq_min(vals);
    let hi = seq_max(vals);
    let width = bit_width((hi - lo) as u64);
    bitpacked_header_bytes(lo, hi, width as u8, vals.len() as u64) + packed(
        distances_from(vals, lo),
        width,
    )
}

/// The fields of a header read back as what was stored.
pub proof fn lemma_bitpacked_header(lo: u64, hi: u64, width: u8, n: u64)
    ensures
        bitpacked_header_bytes(lo, hi, width, n).len() == 25,
        bitpacked_min(bitpacked_header_bytes(lo, hi, width, n)) == lo,
        bitpacked_max(bitpacked_header_bytes(lo, hi, width, n)) == hi,
        bitpacked_num_bits(bitpacked_header_bytes(lo, hi, width, n)) == width,
        bitpacked_num_vals(bitpacked_header_bytes(lo, hi, width, n)) == n,
{
    let h = bitpacked_header_bytes(lo, hi, width, n);
    lemma_field_len(lo, 0);
    lemma_field_len(hi, 0);
    lemma_field_len(n, 0);
    assert(h.subrange(0, 8) =~= u64_bytes(lo));
    assert(h.subrange(8, 16) =~= u64_bytes(hi));
    assert(h.subrange(17, 25) =~= u64_bytes(n));
    lemma_u64_field(h, 0, lo);
    lemma_u64_field(h, 8, hi);
    lemma_u64_field(h, 17, n);
}

/// Every column of at most two to the 64 values, less one, is read back
/// from its bitpacked encoding, within its bounds.
pub proof fn lemma_bitpacked_round_trip(vals: Seq<u64>)
    requires
        vals.len() <= u64::MAX,
    ensures
        bitpacked_wellformed(bitpacked_encoding(vals)),
        bitpacked_values(bitpacked_encoding(vals)) == vals,
        bitpacked_min(bitpacked_encoding(vals)) == seq_min(vals),
        bitpacked_max(bitpacked_encoding(vals)) == seq_max(vals),
        bitpacked_num_bits(bitpacked_encoding(vals)) == bit_width(
            (seq_max(vals) - seq_min(vals)) as u64,
        ),
        bitpacked_encoding(vals).len() == 25 + packed_len(
            vals.len(),
            bit_width((seq_max(vals) - seq_min(vals)) as u64),
        ),
{
    let lo = seq_min(vals);
    let hi = seq_max(vals);
    lemma_seq_min_max(vals);
    lemma_min_max_unique(lo, hi, vals);
    let width = bit_width((hi - lo) as u64);
    lemma_bit_width((hi - lo) as u64);
    let header = bitpacked_header_bytes(lo, hi, width as u8, vals.len() as u64);
    lemma_bitpacked_header(lo, hi, width as u8, vals.len() as u64);
    let deltas = distances_from(vals, lo);
    let packing = packed(deltas, width);
    lemma_packed_is_packing(deltas, width);
    lemma_bitpacked_encoding(header + packing, header, packing, vals, deltas);
}

/// The header of a bitpacked column.
fn bitpacked_header(lo: u64, hi: u64, width: u8, n: u64) -> (h: Vec<u8>)
    ensures
        h@ == bitpacked_header_bytes(lo, hi, width, n),
        h@.len() == 25,
        bitpacked_min(h@) == lo,
        bitpacked_max(h@) == hi,
        bitpacked_num_bits(h@) == width,
        bitpacked_num_vals(h@) == n,
{
    let mut h: Vec<u8> = Vec::with_capacity(BITPACKED_HEADER_LEN);
    write_u64(&mut h, lo);
    write_u64(&mut h, hi);
    let ghost front = h@;
    write_u8(&mut h, width);
    assert(h@ =~= front + seq![width]);
    write_u64(&mut h, n);
    h
}

/// A header followed by the packed distances is a column of the values.
proof fn lemma_bitpacked_encoding(
    out: Seq<u8>,
    header: Seq<u8>,
    packing: Seq<u8>,
    vals: Seq<u64>,
    deltas: Seq<u64>,
)
    requires
        out == header + packing,
        header.len() == 25,
        bitpacked_num_vals(header) == vals.len(),
        bitpacked_num_bits(header) <= 64,
        bitpacked_min(header) <= bitpacked_max(header),
        is_packing(packing, deltas, bitpacked_num_bits(header) as nat),
        deltas.len() == vals.len(),
        forall|j: int|
            0 <= j < vals.len() ==> #[trigger] deltas[j] == vals[j] - bitpacked_min(header),
        forall|j: int|
            0 <= j < vals.len() ==> #[trigger] deltas[j] < pow2(bitpacked_num_bits(header) as nat),
    ensures
        bitpacked_wellformed(out),
        bitpacked_values(out) == vals,
        bitpacked_min(out) == bitpacked_min(header),
        bitpacked_max(out) == bitpacked_max(header),
        bitpacked_num_bits(out) == bitpacked_num_bits(header),
        out.subrange(25, out.len() as int) == packing,
{
    lemma_le_u64_prefix(header, packing, 0);
    lemma_le_u64_prefix(header, packing, 8);
    lemma_le_u64_prefix(header, packing, 17);
    assert(out[16] == header[16]);
    let width = bitpacked_num_bits(header) as nat;
    let lo = bitpacked_min(header);
    assert(out.subrange(25, 25 + packing.len() as int) =~= packing);
    assert forall|j: int| 0 <= j < vals.len() implies bitpacked_value(out, j) == vals[j] by {
        lemma_packing_read(packing, deltas, width, j);
        lemma_low_bits_exact(deltas[j], width);
        assert((j + 1) * width == j * width + width && 0 <= j * width) by (nonlinear_arith)
            requires
                0 <= j,
        ;
        lemma_stream_value_embedded(out, 25, packing, j * width, width);
        assert(stream_value(out, 8 * 25 + j * width, width) == deltas[j]);
        assert(deltas[j] == vals[j] - lo);
    }
    assert(bitpacked_values(out) =~= vals);
}

/// Encodes `vals` as a bitpacked column.
pub fn serialize_bitpacked(vals: &[u64]) -> (out: Vec<u8>)
    requires
        encodable_len(vals@.len()),
    ensures
        out@ == bitpacked_encoding(vals@),
        bitpacked_wellformed(out@),
        bitpacked_values(out@) == vals@,
        is_min_of(bitpacked_min(out@), vals@),
        is_max_of(bitpacked_max(out@), vals@),
        bitpacked_num_bits(out@) == bit_width((bitpacked_max(out@) - bitpacked_min(out@)) as u64),
        out@.len() == 25 + packed_len(vals@.len(), bitpacked_num_bits(out@) as nat),
        is_packing(
            out@.subrange(25, out@.len() as int),
            distances_from(vals@, bitpacked_min(out@)),
            bitpacked_num_bits(out@) as nat,
        ),
{
    let n: usize = vals.len();
    let (lo, hi) = min_max(vals);
    let width: u8 = compute_num_bits(hi - lo);
    let deltas: Vec<u64> = distances(vals, lo);
    assert(vals@.len() * width + 8 <= usize::MAX) by (nonlinear_arith)
        requires
            64 * vals@.len() + 128 <= usize::MAX,
            width <= 64,
    ;
    let mut packed: Vec<u8> = pack(deltas.as_slice(), width);
    let ghost packing = packed@;
    let mut out: Vec<u8> = bitpacked_header(lo, hi, width, n as u64);
    let ghost header = out@;
    out.append(&mut packed);
    proof {
        lemma_bit_width((hi - lo) as u64);
        lemma_bitpacked_encoding(out@, header, packing, vals@, deltas@);
        lemma_min_max_unique(lo, hi, vals@);
    }
    out
}

} // verus!
