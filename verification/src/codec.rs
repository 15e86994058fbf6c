//! The tag that names the codec of an encoded column.

use vstd::prelude::*;

verus! {

/// The codecs. The tag of a codec is the first byte of every column that
/// it encoded.
#[derive(Clone, Copy, Debug, PartialEq, Eq, Structural)]
pub enum FastFieldCodecType {
    /// Every value as its distance from the least one, in the bits that
    /// the largest distance needs.
    Bitpacked,
    /// A line through the first and the last value, and for every value
    /// what it adds to the line.
    Linear,
    /// The same in blocks, each with a line of its own.
    BlockwiseLinear,
    /// The greatest common divisor of the values, and the quotients in one
    /// of the codecs above.
    Gcd,
}

impl FastFieldCodecType {
    /// The tag of the codec.
    pub open spec fn spec_to_code(self) -> u8 {
        match self {
            FastFieldCodecType::Bitpacked => 1,
            FastFieldCodecType::Linear => 2,
            FastFieldCodecType::BlockwiseLinear => 3,
            FastFieldCodecType::Gcd => 4,
        }
    }

    /// The codec that `code` is the tag of, if it is the tag of one.
    pub open spec fn spec_from_code(code: u8) -> Option<FastFieldCodecType> {
        if code == 1 {
            Some(FastFieldCodecType::Bitpacked)
        } else if code == 2 {
            Some(FastFieldCodecType::Linear)
        } else if code == 3 {
            Some(FastFieldCodecType::BlockwiseLinear)
        } else if code == 4 {
            Some(FastFieldCodecType::Gcd)
        } else {
            None
        }
    }

    /// The tag of the codec.
    pub fn to_code(self) -> (code: u8)
        ensures
            code == self.spec_to_code(),
            FastFieldCodecType::spec_from_code(code) == Some(self),
    {
        match self {
            FastFieldCodecType::Bitpacked => 1,
            FastFieldCodecType::Linear => 2,
            FastFieldCodecType::BlockwiseLinear => 3,
            FastFieldCodecType::Gcd => 4,
        }
    }

    /// The codec that `code` is the tag of, if it is the tag of one.
    pub fn from_code(code: u8) -> (codec: Option<FastFieldCodecType>)
        ensures
            codec == FastFieldCodecType::spec_from_code(code),
            codec matches Some(c) ==> c.spec_to_code() == code,
    {
        match code {
            1 => Some(FastFieldCodecType::Bitpacked),
            2 => Some(FastFieldCodecType::Linear),
            3 => Some(FastFieldCodecType::BlockwiseLinear),
            4 => Some(FastFieldCodecType::Gcd),
            _ => None,
        }
    }
}

} // verus!
