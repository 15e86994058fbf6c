//! The write path: a column of numbers is encoded by one codec, with or
//! without the GCD meta-codec over it, and framed with the tags that let a
//! reader find the codec again.

use vstd::prelude::*;
use crate::bitpacked::{
    bitpacked_encoding, bitpacked_max, bitpacked_min, lemma_bitpacked_round_trip,
    serialize_bitpacked,
};
use crate::bits::{bit_width, packed_len};
use crate::blockwise::{
    blockwise_encoding, blockwise_len, lemma_blockwise_round_trip, serialize_blockwise_linear,
};
use crate::codec::FastFieldCodecType;
use crate::column::{
    encodable_len, is_max_of, is_min_of, lemma_min_max_unique, lemma_seq_min_max, seq_max, seq_min,
};
use crate::framing::{
    column_values, gcd_divisor, gcd_payload, payload_max, payload_min, payload_values,
    payload_wellformed, region_codec, region_fault, region_max, region_min, region_payload,
    region_values, value_codec,
};
use crate::gcd::{
    column_divisor, column_quotients, find_divisor, lemma_quotients_restore, lemma_seq_gcd_bounded,
    quotients,
};
use crate::line::fit_width;
use crate::linear::{lemma_linear_round_trip, linear_encoding};
use crate::wire::{lemma_field_len, lemma_le_u64_prefix, lemma_u64_field, u64_bytes, write_u64};

verus! {

/// The number of values in a block of a blockwise-linear column.
pub const DEFAULT_BLOCK_SIZE: u32 = 512;

/// The region `b` is the encoding of the column `vals`: a reader opens on
/// it, reads `vals` from it, and finds the least and the greatest of them
/// as its bounds.
pub open spec fn encodes(b: Seq<u8>, vals: Seq<u64>) -> bool {
    &&& region_fault(b) is None
    &&& region_values(b) == vals
    &&& is_min_of(region_min(b), vals)
    &&& is_max_of(region_max(b), vals)
}

/// The number of bytes that the codec `t` writes for the column `s`.
pub open spec fn payload_len(t: FastFieldCodecType, s: Seq<u64>) -> nat {
    match t {
        FastFieldCodecType::Bitpacked => 25 + packed_len(
            s.len(),
            bit_width((seq_max(s) - seq_min(s)) as u64),
        ),
        FastFieldCodecType::Linear => 49 + packed_len(s.len(), fit_width(s)),
        FastFieldCodecType::BlockwiseLinear => blockwise_len(s, DEFAULT_BLOCK_SIZE as nat),
        FastFieldCodecType::Gcd => 0,
    }
}

/// The codec that writes the fewest bytes for the column `s`; among equals
/// the bitpacked codec before the linear one, and that before the
/// blockwise-linear one.
pub open spec fn shortest_codec(s: Seq<u64>) -> FastFieldCodecType {
    let bitpacked = payload_len(FastFieldCodecType::Bitpacked, s);
    let linear = payload_len(FastFieldCodecType::Linear, s);
    let blockwise = payload_len(FastFieldCodecType::BlockwiseLinear, s);
    if bitpacked <= linear && bitpacked <= blockwise {
        FastFieldCodecType::Bitpacked
    } else if linear <= blockwise {
        FastFieldCodecType::Linear
    } else {
        FastFieldCodecType::BlockwiseLinear
    }
}

/// What the codec `t` writes for the column `vals`, without a tag.
pub open spec fn payload_encoding(t: FastFieldCodecType, vals: Seq<u64>) -> Seq<u8> {
    match t {
        FastFieldCodecType::Bitpacked => bitpacked_encoding(vals),
        FastFieldCodecType::Linear => linear_encoding(vals),
        FastFieldCodecType::BlockwiseLinear => blockwise_encoding(vals, DEFAULT_BLOCK_SIZE),
        FastFieldCodecType::Gcd => Seq::empty(),
    }
}

/// The encoding of the column `vals` with the codec `codec`: the tag of
/// the codec, then what the codec writes.
pub open spec fn region_encoding(vals: Seq<u64>, codec: FastFieldCodecType) -> Seq<u8> {
    seq![codec.spec_to_code()] + payload_encoding(codec, vals)
}

/// What stands behind the tag of the GCD meta-codec in the encoding of
/// the column `vals` over the codec `inner`: the tag of `inner`, the
/// divisor, and what `inner` writes for the quotients.
pub open spec fn gcd_record_encoding(vals: Seq<u64>, inner: FastFieldCodecType) -> Seq<u8> {
    seq![inner.spec_to_code()] + u64_bytes(column_divisor(vals) as u64) + payload_encoding(
        inner,
        column_quotients(vals),
    )
}

/// The encoding of the column `vals` with the GCD meta-codec over the
/// codec `inner`.
pub open spec fn gcd_region_encoding(vals: Seq<u64>, inner: FastFieldCodecType) -> Seq<u8> {
    seq![FastFieldCodecType::Gcd.spec_to_code()] + gcd_record_encoding(vals, inner)
}

/// The encoding of the column `vals` as the write path makes it by
/// default: under the GCD meta-codec where the values have a common
/// divisor greater than 1, and with the codec that writes the fewest
/// bytes.
pub open spec fn column_encoding(vals: Seq<u64>) -> Seq<u8> {
    if column_divisor(vals) > 1 {
        gcd_region_encoding(vals, shortest_codec(column_quotients(vals)))
    } else {
        region_encoding(vals, shortest_codec(vals))
    }
}

/// Every column of at most two to the 64 values, less one, is read back
/// from what a codec writes for it, within its bounds.
pub proof fn lemma_payload_round_trip(t: FastFieldCodecType, vals: Seq<u64>)
    requires
        t != FastFieldCodecType::Gcd,
        vals.len() <= u64::MAX,
    ensures
        payload_wellformed(t, payload_encoding(t, vals)),
        payload_values(t, payload_encoding(t, vals)) == vals,
        payload_min(t, payload_encoding(t, vals)) == seq_min(vals),
        payload_max(t, payload_encoding(t, vals)) == seq_max(vals),
        is_min_of(payload_min(t, payload_encoding(t, vals)), vals),
        is_max_of(payload_max(t, payload_encoding(t, vals)), vals),
        payload_encoding(t, vals).len() == payload_len(t, vals),
{
    lemma_seq_min_max(vals);
    match t {
        FastFieldCodecType::Bitpacked => {
            lemma_bitpacked_round_trip(vals);
        },
        FastFieldCodecType::Linear => {
            lemma_linear_round_trip(vals);
        },
        _ => {
            lemma_blockwise_round_trip(vals, DEFAULT_BLOCK_SIZE);
        },
    }
}

/// Every column of at most two to the 64 values, less one, is read back
/// from its encoding with any codec.
pub proof fn lemma_region_encodes(vals: Seq<u64>, codec: FastFieldCodecType)
    requires
        codec != FastFieldCodecType::Gcd,
        vals.len() <= u64::MAX,
    ensures
        encodes(region_encoding(vals, codec), vals),
        region_codec(region_encoding(vals, codec)) == codec,
{
    let out = region_encoding(vals, codec);
    lemma_payload_round_trip(codec, vals);
    assert(region_payload(out) =~= payload_encoding(codec, vals));
}

/// Every column of at most two to the 64 values, less one, is read back
/// from its encoding with the GCD meta-codec over any codec; the stored
/// divisor is the divisor of the column, and the stored values are its
/// quotients.
pub proof fn lemma_gcd_region_encodes(vals: Seq<u64>, inner: FastFieldCodecType)
    requires
        inner != FastFieldCodecType::Gcd,
        vals.len() <= u64::MAX,
    ensures
        encodes(gcd_region_encoding(vals, inner), vals),
        region_codec(gcd_region_encoding(vals, inner)) == FastFieldCodecType::Gcd,
        value_codec(FastFieldCodecType::Gcd, region_payload(gcd_region_encoding(vals, inner)))
            == inner,
        gcd_divisor(region_payload(gcd_region_encoding(vals, inner))) == column_divisor(vals),
        payload_values(inner, gcd_payload(region_payload(gcd_region_encoding(vals, inner))))
            == column_quotients(vals),
{
    let out = gcd_region_encoding(vals, inner);
    let record = gcd_record_encoding(vals, inner);
    let stored = column_quotients(vals);
    let written = payload_encoding(inner, stored);
    lemma_seq_gcd_bounded(vals);
    let divisor = column_divisor(vals) as u64;
    lemma_payload_round_trip(inner, stored);
    lemma_field_len(divisor, 0);
    assert(region_payload(out) =~= record);
    assert(record.subrange(1, 9) =~= u64_bytes(divisor));
    lemma_u64_field(record, 1, divisor);
    assert(gcd_payload(record) =~= written);
    assert(FastFieldCodecType::spec_from_code(record[0]) == Some(inner));
    lemma_quotients_restore(vals, payload_min(inner, written), payload_max(inner, written));
    assert(column_values(FastFieldCodecType::Gcd, record) =~= vals);
}

/// Every column of at most two to the 64 values, less one, is read back
/// from the encoding that the write path makes of it by default.
pub proof fn lemma_column_encodes(vals: Seq<u64>)
    requires
        vals.len() <= u64::MAX,
    ensures
        encodes(column_encoding(vals), vals),
{
    if column_divisor(vals) > 1 {
        lemma_gcd_region_encodes(vals, shortest_codec(column_quotients(vals)));
    } else {
        lemma_region_encodes(vals, shortest_codec(vals));
    }
}

/// What the codec `codec` writes for the column `vals`, without a tag.
pub fn serialize_payload(vals: &[u64], codec: FastFieldCodecType) -> (out: Vec<u8>)
    requires
        codec != FastFieldCodecType::Gcd,
        encodable_len(vals@.len()),
    ensures
        out@ == payload_encoding(codec, vals@),
        payload_wellformed(codec, out@),
        payload_values(codec, out@) == vals@,
        is_min_of(payload_min(codec, out@), vals@),
        is_max_of(payload_max(codec, out@), vals@),
        out@.len() == payload_len(codec, vals@),
{
    match codec {
        FastFieldCodecType::Bitpacked => {
            let out = serialize_bitpacked(vals);
            proof {
                lemma_min_max_unique(bitpacked_min(out@), bitpacked_max(out@), vals@);
            }
            out
        },
        FastFieldCodecType::Linear => crate::linear::serialize_linear(vals),
        _ => serialize_blockwise_linear(vals, DEFAULT_BLOCK_SIZE),
    }
}

/// Puts the tag of `codec` before `payload`.
fn frame(codec: FastFieldCodecType, payload: Vec<u8>) -> (out: Vec<u8>)
    ensures
        out@ == seq![codec.spec_to_code()] + payload@,
        out@.len() == payload@.len() + 1,
        FastFieldCodecType::spec_from_code(out@[0]) == Some(codec),
        region_codec(out@) == codec,
        region_payload(out@) == payload@,
{
    let mut payload = payload;
    let ghost inner = payload@;
    let mut out: Vec<u8> = Vec::with_capacity(payload.len());
    out.push(codec.to_code());
    out.append(&mut payload);
    assert(region_payload(out@) =~= inner);
    assert(out@ =~= seq![codec.spec_to_code()] + inner);
    out
}

/// Encodes the column `vals` with the codec `codec`.
pub fn serialize(vals: &[u64], codec: FastFieldCodecType) -> (out: Vec<u8>)
    requires
        codec != FastFieldCodecType::Gcd,
        encodable_len(vals@.len()),
    ensures
        out@ == region_encoding(vals@, codec),
        encodes(out@, vals@),
        region_codec(out@) == codec,
        out@.len() == 1 + payload_len(codec, vals@),
{
    frame(codec, serialize_payload(vals, codec))
}

/// Frames what `inner` wrote for the quotients of a column as a column
/// under the GCD meta-codec: the tag of the meta-codec, the tag of
/// `inner`, the divisor, and the quotients.
fn frame_gcd(
    Ghost(vals): Ghost<Seq<u64>>,
    divisor: u64,
    inner: FastFieldCodecType,
    quotients: Vec<u8>,
) -> (out: Vec<u8>)
    requires
        inner != FastFieldCodecType::Gcd,
        divisor == column_divisor(vals),
        payload_wellformed(inner, quotients@),
        payload_values(inner, quotients@) == column_quotients(vals),
        is_min_of(payload_min(inner, quotients@), column_quotients(vals)),
        is_max_of(payload_max(inner, quotients@), column_quotients(vals)),
    ensures
        encodes(out@, vals),
        region_codec(out@) == FastFieldCodecType::Gcd,
        value_codec(FastFieldCodecType::Gcd, region_payload(out@)) == inner,
        gcd_divisor(region_payload(out@)) == divisor,
        gcd_payload(region_payload(out@)) == quotients@,
        out@.len() == 10 + quotients@.len(),
        out@ == seq![FastFieldCodecType::Gcd.spec_to_code()] + (seq![inner.spec_to_code()]
            + u64_bytes(divisor) + quotients@),
{
    let mut quotients = quotients;
    let ghost written = quotients@;
    let mut record: Vec<u8> = Vec::with_capacity(quotients.len());
    record.push(inner.to_code());
    write_u64(&mut record, divisor);
    let ghost header = record@;
    record.append(&mut quotients);
    proof {
        lemma_le_u64_prefix(header, written, 1);
        assert(gcd_payload(record@) =~= written);
        assert(FastFieldCodecType::spec_from_code(record@[0]) == Some(inner));
        lemma_quotients_restore(vals, payload_min(inner, written), payload_max(inner, written));
        assert(column_values(FastFieldCodecType::Gcd, record@) =~= vals);
        assert(record@ =~= seq![inner.spec_to_code()] + u64_bytes(divisor) + written);
    }
    frame(FastFieldCodecType::Gcd, record)
}

/// Encodes the column `vals` with the GCD meta-codec over the codec
/// `inner`: the greatest common divisor of the values is stored once, and
/// `inner` stores the quotients.
pub fn serialize_gcd(vals: &[u64], inner: FastFieldCodecType) -> (out: Vec<u8>)
    requires
        inner != FastFieldCodecType::Gcd,
        encodable_len(vals@.len()),
    ensures
        out@ == gcd_region_encoding(vals@, inner),
        encodes(out@, vals@),
        region_codec(out@) == FastFieldCodecType::Gcd,
        value_codec(FastFieldCodecType::Gcd, region_payload(out@)) == inner,
        gcd_divisor(region_payload(out@)) == column_divisor(vals@),
        payload_values(inner, gcd_payload(region_payload(out@))) == column_quotients(vals@),
        out@.len() == 10 + payload_len(inner, column_quotients(vals@)),
{
    let divisor: u64 = find_divisor(vals);
    let stored: Vec<u64> = quotients(vals, divisor);
    assert(stored@ == column_quotients(vals@));
    let payload: Vec<u8> = serialize_payload(stored.as_slice(), inner);
    frame_gcd(Ghost(vals@), divisor, inner, payload)
}

/// What the codec that writes the fewest bytes for `vals` writes for them,
/// and which codec that is.
fn shortest_payload(vals: &[u64]) -> (r: (Vec<u8>, FastFieldCodecType))
    requires
        encodable_len(vals@.len()),
    ensures
        r.1 == shortest_codec(vals@),
        r.1 != FastFieldCodecType::Gcd,
        r.0@ == payload_encoding(r.1, vals@),
        payload_wellformed(r.1, r.0@),
        payload_values(r.1, r.0@) == vals@,
        is_min_of(payload_min(r.1, r.0@), vals@),
        is_max_of(payload_max(r.1, r.0@), vals@),
        r.0@.len() == payload_len(r.1, vals@),
{
    let bitpacked: Vec<u8> = serialize_payload(vals, FastFieldCodecType::Bitpacked);
    let linear: Vec<u8> = serialize_payload(vals, FastFieldCodecType::Linear);
    let blockwise: Vec<u8> = serialize_payload(vals, FastFieldCodecType::BlockwiseLinear);
    if bitpacked.len() <= linear.len() && bitpacked.len() <= blockwise.len() {
        (bitpacked, FastFieldCodecType::Bitpacked)
    } else if linear.len() <= blockwise.len() {
        (linear, FastFieldCodecType::Linear)
    } else {
        (blockwise, FastFieldCodecType::BlockwiseLinear)
    }
}

/// The values that the codecs get to store for the column `vals`: the
/// quotients where the divisor is greater than 1, else the values.
pub open spec fn stored_values(vals: Seq<u64>) -> Seq<u64> {
    if column_divisor(vals) > 1 {
        column_quotients(vals)
    } else {
        vals
    }
}

/// Encodes the column `vals` as the write path does by default: under the
/// GCD meta-codec where the values have a common divisor greater than 1,
/// and with the codec that writes the fewest bytes.
pub fn serialize_column(vals: &[u64]) -> (out: Vec<u8>)
    requires
        encodable_len(vals@.len()),
    ensures
        out@ == column_encoding(vals@),
        encodes(out@, vals@),
        region_codec(out@) == FastFieldCodecType::Gcd <==> column_divisor(vals@) > 1,
        value_codec(region_codec(out@), region_payload(out@)) == shortest_codec(
            stored_values(vals@),
        ),
        column_divisor(vals@) > 1 ==> gcd_divisor(region_payload(out@)) == column_divisor(vals@),
        column_divisor(vals@) > 1 ==> payload_values(
            value_codec(FastFieldCodecType::Gcd, region_payload(out@)),
            gcd_payload(region_payload(out@)),
        ) == column_quotients(vals@),
{
    let divisor: u64 = find_divisor(vals);
    if divisor > 1 {
        let stored: Vec<u64> = quotients(vals, divisor);
        assert(stored@ == column_quotients(vals@));
        let (payload, inner) = shortest_payload(stored.as_slice());
        frame_gcd(Ghost(vals@), divisor, inner, payload)
    } else {
        let (payload, codec) = shortest_payload(vals);
        frame(codec, payload)
    }
}

} // verus!
