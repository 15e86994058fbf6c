//! Fast fields: per-document scalar columns, stored compressed and read
//! at random without decompressing the column.
//!
//! A column is a sequence of unsigned 64-bit numbers. Values of another
//! domain (signed numbers, dates, floats) are mapped to such numbers one to
//! one and in order, see [`value`]. A column is encoded by one of three
//! codecs, see [`bitpacked`], [`linear`] and [`blockwise`], alone or under
//! the GCD meta-codec, see [`gcd`], and framed with the tag of its codec,
//! see [`framing`]. [`serialize`] is the write path, [`reader`] the read
//! path: a reader is opened on a byte region, refuses what is no encoded
//! column, and then gives every value in constant time.
//!
//! Every number in a header is stored in fixed width, least significant
//! byte first. Packed values are stored back to back without byte
//! alignment, every value from its least significant bit upwards, see
//! [`bits`].
//!
//! | codec            | tag | what follows the tag                                   |
//! |------------------|-----|--------------------------------------------------------|
//! | bitpacked        | 1   | least, greatest value; bit width; count; packed values |
//! | linear           | 2   | first, last value; shift; count; bit width; least,     |
//! |                  |     | greatest value; packed residuals                       |
//! | blockwise-linear | 3   | block size; count; least, greatest value; for every    |
//! |                  |     | block its first, last value, shift and bit width;      |
//! |                  |     | packed residuals of every block                        |
//! | GCD              | 4   | tag of the inner codec; divisor; what the inner codec  |
//! |                  |     | writes for the quotients                               |

pub mod bitpacked;
pub mod bits;
pub mod blockwise;
pub mod codec;
pub mod column;
pub mod error;
pub mod framing;
pub mod gcd;
pub mod laws;
pub mod line;
pub mod linear;
pub mod owned_bytes;
pub mod reader;
pub mod segment_meta;
pub mod serialize;
mod shared;
pub mod value;
pub mod wire;

pub use crate::codec::FastFieldCodecType;
pub use crate::column::Column;
pub use crate::error::DataCorruption;
pub use crate::owned_bytes::OwnedBytes;
pub use crate::reader::{DynamicFastFieldReader, FastFieldReaderCodecWrapper};
pub use crate::segment_meta::{SegmentId, SegmentMeta};
pub use crate::value::FastValue;
