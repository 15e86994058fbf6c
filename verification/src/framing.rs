//! The framing of an encoded column: a tag, then what the codec of that
//! tag wrote. Behind the tag of the GCD meta-codec stand the tag of the
//! codec that holds the quotients (1 byte), the divisor (8 bytes) and
//! what that codec wrote.

use vstd::prelude::*;
use crate::bitpacked::{bitpacked_max, bitpacked_min, bitpacked_values, bitpacked_wellformed};
use crate::blockwise::{bw_max, bw_min, bw_values, bw_wellformed};
use crate::codec::FastFieldCodecType;
use crate::error::DataCorruption;
use crate::gcd::scaled;
use crate::linear::{linear_max, linear_min, linear_values, linear_wellformed};
use crate::wire::le_u64;

verus! {

/// The length of what stands between the tag of the GCD meta-codec and
/// what the inner codec wrote.
pub const GCD_HEADER_LEN: usize = 9;

/// `b` is what the codec `t` writes for some column. The GCD meta-codec
/// writes no column of its own.
pub open spec fn payload_wellformed(t: FastFieldCodecType, b: Seq<u8>) -> bool {
    match t {
        FastFieldCodecType::Bitpacked => bitpacked_wellformed(b),
        FastFieldCodecType::Linear => linear_wellformed(b),
        FastFieldCodecType::BlockwiseLinear => bw_wellformed(b),
        FastFieldCodecType::Gcd => false,
    }
}

/// The values that the codec `t` reads from `b`.
pub open spec fn payload_values(t: FastFieldCodecType, b: Seq<u8>) -> Seq<u64> {
    match t {
        FastFieldCodecType::Bitpacked => bitpacked_values(b),
        FastFieldCodecType::Linear => linear_values(b),
        FastFieldCodecType::BlockwiseLinear => bw_values(b),
        FastFieldCodecType::Gcd => Seq::empty(),
    }
}

/// The lower bound that the codec `t` reads from `b`.
pub open spec fn payload_min(t: FastFieldCodecType, b: Seq<u8>) -> u64 {
    match t {
        FastFieldCodecType::Bitpacked => bitpacked_min(b),
        FastFieldCodecType::Linear => linear_min(b),
        FastFieldCodecType::BlockwiseLinear => bw_min(b),
        FastFieldCodecType::Gcd => 0,
    }
}

/// The upper bound that the codec `t` reads from `b`.
pub open spec fn payload_max(t: FastFieldCodecType, b: Seq<u8>) -> u64 {
    match t {
        FastFieldCodecType::Bitpacked => bitpacked_max(b),
        FastFieldCodecType::Linear => linear_max(b),
        FastFieldCodecType::BlockwiseLinear => bw_max(b),
        FastFieldCodecType::Gcd => 0,
    }
}

/// The divisor of the GCD record `b`.
pub open spec fn gcd_divisor(b: Seq<u8>) -> u64 {
    le_u64(b, 1)
}

/// What the inner codec of the GCD record `b` wrote.
pub open spec fn gcd_payload(b: Seq<u8>) -> Seq<u8> {
    b.subrange(9, b.len() as int)
}

/// `b` is a GCD record over the codec `inner`: a whole header with a
/// divisor of at least 1, then a column of `inner` whose bounds, times
/// the divisor, stay within 64 bits.
pub open spec fn gcd_wellformed(inner: FastFieldCodecType, b: Seq<u8>) -> bool {
    &&& b.len() >= 9
    &&& payload_wellformed(inner, gcd_payload(b))
    &&& gcd_divisor(b) >= 1
    &&& payload_min(inner, gcd_payload(b)) * gcd_divisor(b) <= u64::MAX
    &&& payload_max(inner, gcd_payload(b)) * gcd_divisor(b) <= u64::MAX
}

/// Why no reader can be opened on `b` as a column of the codec `t`, if
/// none can.
pub open spec fn open_fault(t: FastFieldCodecType, b: Seq<u8>) -> Option<DataCorruption> {
    match t {
        FastFieldCodecType::Gcd => {
            if b.len() < 1 {
                Some(DataCorruption::MalformedFraming)
            } else {
                match FastFieldCodecType::spec_from_code(b[0]) {
                    None => Some(DataCorruption::UnknownCodec),
                    Some(FastFieldCodecType::Gcd) => Some(DataCorruption::NestedGcd),
                    Some(inner) => if gcd_wellformed(inner, b) {
                        None
                    } else {
                        Some(DataCorruption::MalformedFraming)
                    },
                }
            }
        },
        _ => if payload_wellformed(t, b) {
            None
        } else {
            Some(DataCorruption::MalformedFraming)
        },
    }
}

/// The codec that holds the values of the column `b` of the codec `t`:
/// `t` itself, or under the GCD meta-codec the codec of the quotients.
pub open spec fn value_codec(t: FastFieldCodecType, b: Seq<u8>) -> FastFieldCodecType {
    match t {
        FastFieldCodecType::Gcd => match FastFieldCodecType::spec_from_code(b[0]) {
            Some(inner) => inner,
            None => FastFieldCodecType::Gcd,
        },
        _ => t,
    }
}

/// The values of the column `b` of the codec `t`. Under the GCD
/// meta-codec every value is a quotient times the divisor.
pub open spec fn column_values(t: FastFieldCodecType, b: Seq<u8>) -> Seq<u64> {
    match t {
        FastFieldCodecType::Gcd => {
            let quotients = payload_values(value_codec(t, b), gcd_payload(b));
            Seq::new(quotients.len(), |i: int| scaled(quotients[i], gcd_divisor(b)))
        },
        _ => payload_values(t, b),
    }
}

/// The lower bound of the column `b` of the codec `t`.
pub open spec fn column_min(t: FastFieldCodecType, b: Seq<u8>) -> u64 {
    match t {
        FastFieldCodecType::Gcd => (payload_min(value_codec(t, b), gcd_payload(b)) * gcd_divisor(
            b,
        )) as u64,
        _ => payload_min(t, b),
    }
}

/// The upper bound of the column `b` of the codec `t`.
pub open spec fn column_max(t: FastFieldCodecType, b: Seq<u8>) -> u64 {
    match t {
        FastFieldCodecType::Gcd => (payload_max(value_codec(t, b), gcd_payload(b)) * gcd_divisor(
            b,
        )) as u64,
        _ => payload_max(t, b),
    }
}

/// What follows the tag of the region `b`.
pub open spec fn region_payload(b: Seq<u8>) -> Seq<u8> {
    b.subrange(1, b.len() as int)
}

/// The codec that the tag of the region `b` names; the GCD meta-codec
/// where it names none.
pub open spec fn region_codec(b: Seq<u8>) -> FastFieldCodecType {
    match FastFieldCodecType::spec_from_code(b[0]) {
        Some(t) => t,
        None => FastFieldCodecType::Gcd,
    }
}

/// Why no reader can be opened on the region `b`, if none can.
pub open spec fn region_fault(b: Seq<u8>) -> Option<DataCorruption> {
    if b.len() < 1 {
        Some(DataCorruption::MalformedFraming)
    } else {
        match FastFieldCodecType::spec_from_code(b[0]) {
            None => Some(DataCorruption::UnknownCodec),
            Some(t) => open_fault(t, region_payload(b)),
        }
    }
}

/// The values of the column in the region `b`.
pub open spec fn region_values(b: Seq<u8>) -> Seq<u64> {
    column_values(region_codec(b), region_payload(b))
}

/// The lower bound of the column in the region `b`.
pub open spec fn region_min(b: Seq<u8>) -> u64 {
    column_min(region_codec(b), region_payload(b))
}

/// The upper bound of the column in the region `b`.
pub open spec fn region_max(b: Seq<u8>) -> u64 {
    column_max(region_codec(b), region_payload(b))
}

/// A GCD record that names the GCD meta-codec as the codec of its
/// quotients is refused, whatever follows.
pub proof fn lemma_nested_gcd_refused(b: Seq<u8>)
    requires
        b.len() >= 2,
        b[0] == FastFieldCodecType::Gcd.spec_to_code(),
        b[1] == FastFieldCodecType::Gcd.spec_to_code(),
    ensures
        region_fault(b) == Some(DataCorruption::NestedGcd),
        open_fault(FastFieldCodecType::Gcd, region_payload(b)) == Some(DataCorruption::NestedGcd),
{
    assert(region_payload(b)[0] == b[1]);
}

} // verus!
