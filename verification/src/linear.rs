//! The linear codec: one line through the first and the last value, and
//! for every value what it adds to the line.
//!
//! Layout: first value, last value, shift, number of values (8 bytes
//! each), bit width of the stored residuals (1 byte), least value,
//! greatest value (8 bytes each), then the packed residuals.

use vstd::prelude::*;
use crate::bits::{
    is_packing, lemma_low_bits_exact, lemma_packed_is_packing, lemma_packing_read,
    lemma_stream_value_bound, lemma_stream_value_embedded, lemma_value_in_packing, pack, packed,
    packed_len, stream_value, unpack,
};
use crate::column::{
    encodable_len, is_max_of, is_min_of, lemma_min_max_unique, lemma_seq_min_max, min_max, seq_max,
    seq_min, Column,
};
use crate::error::DataCorruption;
use crate::line::{
    fit, fit_first, fit_last, fit_residuals, fit_shift, fit_width, lemma_fit_residual_fits,
    lemma_fit_restores, line_value, restored, Fit,
};
use crate::owned_bytes::OwnedBytes;
use crate::wire::{
    le_u64, lemma_field_len, lemma_le_u64_prefix, lemma_u64_field, read_u64, u64_bytes, write_u64,
    write_u8,
};

verus! {

/// The length of the header in bytes.
pub const LINEAR_HEADER_LEN: usize = 49;

/// The value at position 0 of the line.
pub open spec fn linear_first(b: Seq<u8>) -> u64 {
    le_u64(b, 0)
}

/// The value at the last position of the line.
pub open spec fn linear_last(b: Seq<u8>) -> u64 {
    le_u64(b, 8)
}

/// What is added to every stored residual.
pub open spec fn linear_shift(b: Seq<u8>) -> u64 {
    le_u64(b, 16)
}

/// The number of values.
pub open spec fn linear_num_vals(b: Seq<u8>) -> u64 {
    le_u64(b, 24)
}

/// The bit width of the stored residuals.
pub open spec fn linear_num_bits(b: Seq<u8>) -> u8 {
    b[32]
}

/// The least value, as the header of `b` gives it.
pub open spec fn linear_min(b: Seq<u8>) -> u64 {
    le_u64(b, 33)
}

/// The greatest value, as the header of `b` gives it.
pub open spec fn linear_max(b: Seq<u8>) -> u64 {
    le_u64(b, 41)
}

/// `b` is a linear column: a whole header with a bit width of at most 64
/// and bounds in order, followed by at least as many bytes as the
/// announced residuals need.
pub open spec fn linear_wellformed(b: Seq<u8>) -> bool {
    &&& b.len() >= 49
    &&& linear_num_bits(b) <= 64
    &&& linear_min(b) <= linear_max(b)
    &&& b.len() - 49 >= packed_len(linear_num_vals(b) as nat, linear_num_bits(b) as nat)
}

/// Value `i` of the linear column `b`: the point of the line, plus the
/// shift, plus the stored residual.
pub open spec fn linear_value(b: Seq<u8>, i: int) -> u64 {
    restored(
        linear_first(b),
        linear_last(b),
        linear_num_vals(b) as nat,
        linear_shift(b),
        i as nat,
        stream_value(b, 8 * 49 + i * linear_num_bits(b), linear_num_bits(b) as nat) as u64,
    )
}

/// The values of the linear column `b`.
pub open spec fn linear_values(b: Seq<u8>) -> Seq<u64> {
    Seq::new(linear_num_vals(b) as nat, |i: int| linear_value(b, i))
}

/// A reader of a linear column.
pub struct LinearReader {
    data: OwnedBytes,
    first: u64,
    last: u64,
    shift: u64,
    num_vals: u64,
    num_bits: u8,
    min_value: u64,
    max_value: u64,
}

impl Clone for LinearReader {
    /// Another reader of the same column, on the same buffer.
    fn clone(&self) -> (r: LinearReader)
        ensures
            r == *self,
    {
        LinearReader {
            data: self.data.clone(),
            first: self.first,
            last: self.last,
            shift: self.shift,
            num_vals: self.num_vals,
            num_bits: self.num_bits,
            min_value: self.min_value,
            max_value: self.max_value,
        }
    }
}

impl LinearReader {
    /// The byte region that the reader was opened on.
    pub closed spec fn bytes(&self) -> Seq<u8> {
        self.data@
    }

    /// Opens a reader on `bytes`, or refuses them as no linear column.
    pub fn open(bytes: OwnedBytes) -> (r: Result<LinearReader, DataCorruption>)
        ensures
            match r {
                Ok(reader) => linear_wellformed(bytes@) && reader.wf() && reader.bytes() == bytes@,
                Err(e) => !linear_wellformed(bytes@) && e == DataCorruption::MalformedFraming,
            },
    {
        let len: usize = bytes.len();
        if len < LINEAR_HEADER_LEN {
            return Err(DataCorruption::MalformedFraming);
        }
        let data: &[u8] = bytes.as_slice();
        let first: u64 = read_u64(data, 0);
        let last: u64 = read_u64(data, 8);
        let shift: u64 = read_u64(data, 16);
        let num_vals: u64 = read_u64(data, 24);
        let num_bits: u8 = data[32];
        let min_value: u64 = read_u64(data, 33);
        let max_value: u64 = read_u64(data, 41);
        if num_bits > 64 || min_value > max_value {
            return Err(DataCorruption::MalformedFraming);
        }
        assert(num_vals * num_bits <= 0x1_0000_0000_0000_0000 * 64) by (nonlinear_arith)
            requires
                num_vals < 0x1_0000_0000_0000_0000,
                num_bits <= 64,
        ;
        let need: u128 = ((num_vals as u128) * (num_bits as u128) + 7) / 8;
        if ((len - LINEAR_HEADER_LEN) as u128) < need {
            return Err(DataCorruption::MalformedFraming);
        }
        Ok(
            LinearReader {
                data: bytes,
                first,
                last,
                shift,
                num_vals,
                num_bits,
                min_value,
                max_value,
            },
        )
    }

    /// The bit width of the stored residuals.
    pub fn num_bits(&self) -> (w: u8)
        requires
            self.wf(),
        ensures
            w == linear_num_bits(self.bytes()),
    {
        self.num_bits
    }
}

impl Column<u64> for LinearReader {
    closed spec fn wf(&self) -> bool {
        &&& linear_wellformed(self.data@)
        &&& self.first == linear_first(self.data@)
        &&& self.last == linear_last(self.data@)
        &&& self.shift == linear_shift(self.data@)
        &&& self.num_vals == linear_num_vals(self.data@)
        &&& self.num_bits == linear_num_bits(self.data@)
        &&& self.min_value == linear_min(self.data@)
        &&& self.max_value == linear_max(self.data@)
    }

    open spec fn values(&self) -> Seq<u64> {
        linear_values(self.bytes())
    }

    open spec fn spec_min_value(&self) -> u64 {
        linear_min(self.bytes())
    }

    open spec fn spec_max_value(&self) -> u64 {
        linear_max(self.bytes())
    }

    /// The point of the line at `idx`, plus the shift, plus the stored
    /// residual at `idx`.
    fn get_val(&self, idx: u64) -> (v: u64)
        ensures
            v == linear_value(self.bytes(), idx as int),
    {
        proof {
            lemma_value_in_packing(self.num_vals as nat, self.num_bits as nat, idx as nat);
            lemma_stream_value_bound(
                self.data@,
                8 * 49 + idx * self.num_bits,
                self.num_bits as nat,
            );
            vstd::arithmetic::power2::lemma2_to64();
            if self.num_bits < 64 {
                vstd::arithmetic::power2::lemma_pow2_strictly_increases(self.num_bits as nat, 64);
            }
        }
        let point: u64 = line_value(self.first, self.last, self.num_vals, idx);
        let stored: u64 = unpack(self.data.as_slice(), LINEAR_HEADER_LEN, idx, self.num_bits);
        point.wrapping_add(self.shift).wrapping_add(stored)
    }

    fn min_value(&self) -> (v: u64)
        ensures
            v == linear_min(self.bytes()),
    {
        self.min_value
    }

    fn max_value(&self) -> (v: u64)
        ensures
            v == linear_max(self.bytes()),
    {
        self.max_value
    }

    fn num_vals(&self) -> (n: u64)
        ensures
            n == linear_num_vals(self.bytes()),
    {
        self.num_vals
    }
}

/// The bytes of the header of a linear column.
pub open spec fn linear_header_bytes(
    first: u64,
    last: u64,
    shift: u64,
    n: u64,
    width: u8,
    lo: u64,
    hi: u64,
) -> Seq<u8> {
    u64_bytes(first) + u64_bytes(last) + u64_bytes(shift) + u64_bytes(n) + seq![width] + u64_bytes(
        lo,
    ) + u64_bytes(hi)
}

/// The linear column that the values `vals` are encoded to: the header
/// with the fit of the values, their number and their bounds, then the
/// packed residuals.
pub open spec fn linear_encoding(vals: Seq<u64>) -> Seq<u8> {
    linear_header_bytes(
        fit_first(vals),
        fit_last(vals),
        fit_shift(vals),
        vals.len() as u64,
        fit_width(vals) as u8,
        seq_min(vals),
        seq_max(vals),
    ) + packed(fit_residuals(vals), fit_width(vals))
}

/// The fields of a header read back as what was stored.
pub proof fn lemma_linear_header(
    first: u64,
    last: u64,
    shift: u64,
    n: u64,
    width: u8,
    lo: u64,
    hi: u64,
)
    ensures
        linear_header_bytes(first, last, shift, n, width, lo, hi).len() == 49,
        linear_first(linear_header_bytes(first, last, shift, n, width, lo, hi)) == first,
        linear_last(linear_header_bytes(first, last, shift, n, width, lo, hi)) == last,
        linear_shift(linear_header_bytes(first, last, shift, n, width, lo, hi)) == shift,
        linear_num_vals(linear_header_bytes(first, last, shift, n, width, lo, hi)) == n,
        linear_num_bits(linear_header_bytes(first, last, shift, n, width, lo, hi)) == width,
        linear_min(linear_header_bytes(first, last, shift, n, width, lo, hi)) == lo,
        linear_max(linear_header_bytes(first, last, shift, n, width, lo, hi)) == hi,
{
    let h = linear_header_bytes(first, last, shift, n, width, lo, hi);
    lemma_field_len(first, 0);
    lemma_field_len(last, 0);
    lemma_field_len(shift, 0);
    lemma_field_len(n, 0);
    lemma_field_len(lo, 0);
    lemma_field_len(hi, 0);
    assert(h.subrange(0, 8) =~= u64_bytes(first));
    assert(h.subrange(8, 16) =~= u64_bytes(last));
    assert(h.subrange(16, 24) =~= u64_bytes(shift));
    assert(h.subrange(24, 32) =~= u64_bytes(n));
    assert(h.subrange(33, 41) =~= u64_bytes(lo));
    assert(h.subrange(41, 49) =~= u64_bytes(hi));
    lemma_u64_field(h, 0, first);
    lemma_u64_field(h, 8, last);
    lemma_u64_field(h, 16, shift);
    lemma_u64_field(h, 24, n);
    lemma_u64_field(h, 33, lo);
    lemma_u64_field(h, 41, hi);
}

/// Every column of at most two to the 64 values, less one, is read back
/// from its linear encoding, within its bounds.
pub proof fn lemma_linear_round_trip(vals: Seq<u64>)
    requires
        vals.len() <= u64::MAX,
    ensures
        linear_wellformed(linear_encoding(vals)),
        linear_values(linear_encoding(vals)) == vals,
        linear_min(linear_encoding(vals)) == seq_min(vals),
        linear_max(linear_encoding(vals)) == seq_max(vals),
        linear_first(linear_encoding(vals)) == fit_first(vals),
        linear_last(linear_encoding(vals)) == fit_last(vals),
        linear_shift(linear_encoding(vals)) == fit_shift(vals),
        linear_num_bits(linear_encoding(vals)) == fit_width(vals),
        linear_encoding(vals).len() == 49 + packed_len(vals.len(), fit_width(vals)),
{
    lemma_seq_min_max(vals);
    lemma_min_max_unique(seq_min(vals), seq_max(vals), vals);
    if vals.len() > 0 {
        lemma_fit_residual_fits(vals, 0);
    }
    let header = linear_header_bytes(
        fit_first(vals),
        fit_last(vals),
        fit_shift(vals),
        vals.len() as u64,
        fit_width(vals) as u8,
        seq_min(vals),
        seq_max(vals),
    );
    lemma_linear_header(
        fit_first(vals),
        fit_last(vals),
        fit_shift(vals),
        vals.len() as u64,
        fit_width(vals) as u8,
        seq_min(vals),
        seq_max(vals),
    );
    let packing = packed(fit_residuals(vals), fit_width(vals));
    lemma_packed_is_packing(fit_residuals(vals), fit_width(vals));
    lemma_linear_encoding(header + packing, header, packing, vals);
}

/// The header of a linear column.
fn linear_header(first: u64, last: u64, shift: u64, n: u64, width: u8, lo: u64, hi: u64) -> (h: Vec<
    u8,
>)
    ensures
        h@ == linear_header_bytes(first, last, shift, n, width, lo, hi),
        h@.len() == 49,
        linear_first(h@) == first,
        linear_last(h@) == last,
        linear_shift(h@) == shift,
        linear_num_vals(h@) == n,
        linear_num_bits(h@) == width,
        linear_min(h@) == lo,
        linear_max(h@) == hi,
{
    let mut h: Vec<u8> = Vec::with_capacity(LINEAR_HEADER_LEN);
    write_u64(&mut h, first);
    write_u64(&mut h, last);
    write_u64(&mut h, shift);
    write_u64(&mut h, n);
    let ghost front = h@;
    write_u8(&mut h, width);
    assert(h@ =~= front + seq![width]);
    write_u64(&mut h, lo);
    write_u64(&mut h, hi);
    h
}

/// A header followed by the packed residuals of a run is a column of the
/// run.
proof fn lemma_linear_encoding(out: Seq<u8>, header: Seq<u8>, packing: Seq<u8>, vals: Seq<u64>)
    requires
        out == header + packing,
        header.len() == 49,
        linear_first(header) == fit_first(vals),
        linear_last(header) == fit_last(vals),
        linear_shift(header) == fit_shift(vals),
        linear_num_vals(header) == vals.len(),
        linear_num_bits(header) == fit_width(vals),
        linear_min(header) <= linear_max(header),
        is_packing(packing, fit_residuals(vals), fit_width(vals)),
    ensures
        linear_wellformed(out),
        linear_values(out) == vals,
        linear_first(out) == linear_first(header),
        linear_last(out) == linear_last(header),
        linear_shift(out) == linear_shift(header),
        linear_num_bits(out) == linear_num_bits(header),
        linear_min(out) == linear_min(header),
        linear_max(out) == linear_max(header),
        out.subrange(49, out.len() as int) == packing,
{
    lemma_le_u64_prefix(header, packing, 0);
    lemma_le_u64_prefix(header, packing, 8);
    lemma_le_u64_prefix(header, packing, 16);
    lemma_le_u64_prefix(header, packing, 24);
    lemma_le_u64_prefix(header, packing, 33);
    lemma_le_u64_prefix(header, packing, 41);
    assert(out[32] == header[32]);
    let width = fit_width(vals);
    assert(out.subrange(49, 49 + packing.len() as int) =~= packing);
    if vals.len() > 0 {
        lemma_fit_residual_fits(vals, 0);
    }
    assert forall|j: int| 0 <= j < vals.len() implies linear_value(out, j) == vals[j] by {
        lemma_fit_residual_fits(vals, j);
        lemma_fit_restores(vals, j);
        lemma_packing_read(packing, fit_residuals(vals), width, j);
        lemma_low_bits_exact(fit_residuals(vals)[j], width);
        assert((j + 1) * width == j * width + width && 0 <= j * width) by (nonlinear_arith)
            requires
                0 <= j,
        ;
        lemma_stream_value_embedded(out, 49, packing, j * width, width);
        assert(stream_value(out, 8 * 49 + j * width, width) == fit_residuals(vals)[j]);
    }
    assert(linear_values(out) =~= vals);
}

/// Encodes `vals` as a linear column.
pub fn serialize_linear(vals: &[u64]) -> (out: Vec<u8>)
    requires
        encodable_len(vals@.len()),
    ensures
        out@ == linear_encoding(vals@),
        linear_wellformed(out@),
        linear_values(out@) == vals@,
        is_min_of(linear_min(out@), vals@),
        is_max_of(linear_max(out@), vals@),
        linear_first(out@) == fit_first(vals@),
        linear_last(out@) == fit_last(vals@),
        linear_shift(out@) == fit_shift(vals@),
        linear_num_bits(out@) == fit_width(vals@),
        out@.len() == 49 + packed_len(vals@.len(), fit_width(vals@)),
        is_packing(out@.subrange(49, out@.len() as int), fit_residuals(vals@), fit_width(vals@)),
{
    let n: usize = vals.len();
    let (lo, hi) = min_max(vals);
    let first: u64 = if n == 0 {
        0
    } else {
        vals[0]
    };
    let last: u64 = if n == 0 {
        0
    } else {
        vals[n - 1]
    };
    let Fit { shift, width, residuals } = fit(vals);
    proof {
        if n > 0 {
            lemma_fit_residual_fits(vals@, 0);
        }
    }
    assert(vals@.len() * width + 8 <= usize::MAX) by (nonlinear_arith)
        requires
            64 * vals@.len() + 128 <= usize::MAX,
            width <= 64,
    ;
    let mut packed: Vec<u8> = pack(residuals.as_slice(), width);
    let ghost packing = packed@;
    let mut out: Vec<u8> = linear_header(first, last, shift, n as u64, width, lo, hi);
    let ghost header = out@;
    out.append(&mut packed);
    proof {
        lemma_linear_encoding(out@, header, packing, vals@);
        lemma_min_max_unique(lo, hi, vals@);
    }
    out
}

} // verus!
