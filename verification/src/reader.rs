//! Readers of encoded columns: one type for each codec, alone or under the
//! GCD meta-codec, all behind one enum that is matched on every read.

use std::marker::PhantomData;
use vstd::prelude::*;
use crate::bitpacked::BitpackedReader;
use crate::blockwise::BlockwiseLinearReader;
use crate::codec::FastFieldCodecType;
use crate::column::{encodable_len, is_max_of, is_min_of, Column};
use crate::error::DataCorruption;
use crate::framing::{
    column_max, column_min, column_values, gcd_divisor, gcd_payload, open_fault, region_codec,
    region_fault, region_payload, value_codec, GCD_HEADER_LEN,
};
use crate::gcd::{column_divisor, GCDReader};
use crate::linear::LinearReader;
use crate::owned_bytes::OwnedBytes;
use crate::segment_meta::SegmentMeta;
use crate::serialize::{column_encoding, serialize_column, shortest_codec, stored_values};
use crate::value::FastValue;
use crate::wire::read_u64;

verus! {

/// A reader of the values of one domain over a reader of stored numbers:
/// every number that the inner reader gives is mapped to the value that it
/// stands for.
pub struct FastFieldReaderCodecWrapper<Item: FastValue, CodecReader> {
    reader: CodecReader,
    _phantom: PhantomData<Item>,
}

impl<Item: FastValue, CodecReader: Clone> Clone for FastFieldReaderCodecWrapper<Item, CodecReader> {
    /// A wrapper of a clone of the reader.
    fn clone(&self) -> (r: Self)
        ensures
            cloned::<CodecReader>(self.inner(), r.inner()),
    {
        FastFieldReaderCodecWrapper { reader: self.reader.clone(), _phantom: PhantomData }
    }
}

impl<Item: FastValue, CodecReader> FastFieldReaderCodecWrapper<Item, CodecReader> {
    /// The reader of the stored numbers.
    pub closed spec fn inner(&self) -> CodecReader {
        self.reader
    }

    /// The reader of the stored numbers.
    pub fn reader(&self) -> (r: &CodecReader)
        ensures
            *r == self.inner(),
    {
        &self.reader
    }
}

impl<Item: FastValue, CodecReader> From<CodecReader> for FastFieldReaderCodecWrapper<Item, CodecReader> {
    /// Wraps a reader of stored numbers.
    fn from(reader: CodecReader) -> (r: Self)
        ensures
            r.inner() == reader,
    {
        FastFieldReaderCodecWrapper { reader, _phantom: PhantomData }
    }
}

impl<Item: FastValue, CodecReader> vstd::std_specs::convert::FromSpecImpl<CodecReader> for FastFieldReaderCodecWrapper<Item, CodecReader> {
    open spec fn obeys_from_spec() -> bool {
        true
    }

    closed spec fn from_spec(reader: CodecReader) -> Self {
        FastFieldReaderCodecWrapper { reader, _phantom: PhantomData }
    }
}

impl<Item: FastValue, D: Column<u64>> FastFieldReaderCodecWrapper<Item, D> {
    /// The value at ordinal `idx`: what the stored number stands for.
    pub fn get_u64(&self, idx: u64) -> (v: Item)
        requires
            self.inner().wf(),
            idx < self.inner().values().len(),
        ensures
            v == Item::from_u64_spec(self.inner().values()[idx as int]),
    {
        let data: u64 = self.reader.get_val(idx);
        Item::from_u64(data)
    }
}

impl<Item: FastValue, C: Column<u64>> Column<Item> for FastFieldReaderCodecWrapper<Item, C> {
    open spec fn wf(&self) -> bool {
        self.inner().wf()
    }

    open spec fn values(&self) -> Seq<Item> {
        self.inner().values().map_values(|v: u64| Item::from_u64_spec(v))
    }

    open spec fn spec_min_value(&self) -> Item {
        Item::from_u64_spec(self.inner().spec_min_value())
    }

    open spec fn spec_max_value(&self) -> Item {
        Item::from_u64_spec(self.inner().spec_max_value())
    }

    /// The value that the stored number at `idx` stands for.
    fn get_val(&self, idx: u64) -> (v: Item)
        ensures
            v == Item::from_u64_spec(self.inner().values()[idx as int]),
    {
        self.get_u64(idx)
    }

    /// The value that the lower bound of the stored numbers stands for.
    fn min_value(&self) -> (v: Item)
        ensures
            v == Item::from_u64_spec(self.inner().spec_min_value()),
    {
        Item::from_u64(self.reader.min_value())
    }

    /// The value that the upper bound of the stored numbers stands for.
    fn max_value(&self) -> (v: Item)
        ensures
            v == Item::from_u64_spec(self.inner().spec_max_value()),
    {
        Item::from_u64(self.reader.max_value())
    }

    fn num_vals(&self) -> (n: u64)
        ensures
            n == self.inner().values().len(),
    {
        self.reader.num_vals()
    }
}

/// A reader of a column of any codec. The codec is found once, when the
/// reader is opened; every read after that is a match on the variant.
pub enum DynamicFastFieldReader<Item: FastValue> {
    /// A bitpacked column.
    Bitpacked(FastFieldReaderCodecWrapper<Item, BitpackedReader>),
    /// A linear column.
    Linear(FastFieldReaderCodecWrapper<Item, LinearReader>),
    /// A blockwise-linear column.
    BlockwiseLinear(FastFieldReaderCodecWrapper<Item, BlockwiseLinearReader>),
    /// A bitpacked column of quotients under the GCD meta-codec.
    BitpackedGCD(FastFieldReaderCodecWrapper<Item, GCDReader<BitpackedReader>>),
    /// A linear column of quotients under the GCD meta-codec.
    LinearGCD(FastFieldReaderCodecWrapper<Item, GCDReader<LinearReader>>),
    /// A blockwise-linear column of quotients under the GCD meta-codec.
    BlockwiseLinearGCD(FastFieldReaderCodecWrapper<Item, GCDReader<BlockwiseLinearReader>>),
}

impl<Item: FastValue> Clone for DynamicFastFieldReader<Item> {
    /// Another reader of the same column, on the same buffer.
    fn clone(&self) -> (r: Self)
        ensures
            r.wf() == self.wf(),
            r.codec_type() == self.codec_type(),
            r.value_codec_type() == self.value_codec_type(),
            r.raw_values() == self.raw_values(),
            r.raw_min() == self.raw_min(),
            r.raw_max() == self.raw_max(),
            r.stored_divisor() == self.stored_divisor(),
            r.payload_bytes() == self.payload_bytes(),
    {
        match self {
            Self::Bitpacked(reader) => Self::Bitpacked(reader.clone()),
            Self::Linear(reader) => Self::Linear(reader.clone()),
            Self::BlockwiseLinear(reader) => Self::BlockwiseLinear(reader.clone()),
            Self::BitpackedGCD(reader) => Self::BitpackedGCD(reader.clone()),
            Self::LinearGCD(reader) => Self::LinearGCD(reader.clone()),
            Self::BlockwiseLinearGCD(reader) => Self::BlockwiseLinearGCD(reader.clone()),
        }
    }
}

impl<Item: FastValue> DynamicFastFieldReader<Item> {
    /// The stored numbers of the column, in order.
    pub open spec fn raw_values(&self) -> Seq<u64> {
        match self {
            Self::Bitpacked(reader) => reader.inner().values(),
            Self::Linear(reader) => reader.inner().values(),
            Self::BlockwiseLinear(reader) => reader.inner().values(),
            Self::BitpackedGCD(reader) => reader.inner().values(),
            Self::LinearGCD(reader) => reader.inner().values(),
            Self::BlockwiseLinearGCD(reader) => reader.inner().values(),
        }
    }

    /// The lower bound of the stored numbers.
    pub open spec fn raw_min(&self) -> u64 {
        match self {
            Self::Bitpacked(reader) => reader.inner().spec_min_value(),
            Self::Linear(reader) => reader.inner().spec_min_value(),
            Self::BlockwiseLinear(reader) => reader.inner().spec_min_value(),
            Self::BitpackedGCD(reader) => reader.inner().spec_min_value(),
            Self::LinearGCD(reader) => reader.inner().spec_min_value(),
            Self::BlockwiseLinearGCD(reader) => reader.inner().spec_min_value(),
        }
    }

    /// The upper bound of the stored numbers.
    pub open spec fn raw_max(&self) -> u64 {
        match self {
            Self::Bitpacked(reader) => reader.inner().spec_max_value(),
            Self::Linear(reader) => reader.inner().spec_max_value(),
            Self::BlockwiseLinear(reader) => reader.inner().spec_max_value(),
            Self::BitpackedGCD(reader) => reader.inner().spec_max_value(),
            Self::LinearGCD(reader) => reader.inner().spec_max_value(),
            Self::BlockwiseLinearGCD(reader) => reader.inner().spec_max_value(),
        }
    }

    /// The codec that the reader was opened for.
    pub open spec fn codec_type(&self) -> FastFieldCodecType {
        match self {
            Self::Bitpacked(_) => FastFieldCodecType::Bitpacked,
            Self::Linear(_) => FastFieldCodecType::Linear,
            Self::BlockwiseLinear(_) => FastFieldCodecType::BlockwiseLinear,
            Self::BitpackedGCD(_) => FastFieldCodecType::Gcd,
            Self::LinearGCD(_) => FastFieldCodecType::Gcd,
            Self::BlockwiseLinearGCD(_) => FastFieldCodecType::Gcd,
        }
    }

    /// The codec that holds the stored numbers, or under the GCD
    /// meta-codec their quotients.
    pub open spec fn value_codec_type(&self) -> FastFieldCodecType {
        match self {
            Self::Bitpacked(_) => FastFieldCodecType::Bitpacked,
            Self::Linear(_) => FastFieldCodecType::Linear,
            Self::BlockwiseLinear(_) => FastFieldCodecType::BlockwiseLinear,
            Self::BitpackedGCD(_) => FastFieldCodecType::Bitpacked,
            Self::LinearGCD(_) => FastFieldCodecType::Linear,
            Self::BlockwiseLinearGCD(_) => FastFieldCodecType::BlockwiseLinear,
        }
    }

    /// The divisor that the reader multiplies into every quotient, where
    /// it reads under the GCD meta-codec.
    pub open spec fn stored_divisor(&self) -> Option<u64> {
        match self {
            Self::Bitpacked(_) => None,
            Self::Linear(_) => None,
            Self::BlockwiseLinear(_) => None,
            Self::BitpackedGCD(reader) => Some(reader.inner().spec_divisor()),
            Self::LinearGCD(reader) => Some(reader.inner().spec_divisor()),
            Self::BlockwiseLinearGCD(reader) => Some(reader.inner().spec_divisor()),
        }
    }

    /// The byte region that the codec reader was opened on: what the
    /// codec wrote for the stored numbers, or under the GCD meta-codec for
    /// their quotients.
    pub open spec fn payload_bytes(&self) -> Seq<u8> {
        match self {
            Self::Bitpacked(reader) => reader.inner().bytes(),
            Self::Linear(reader) => reader.inner().bytes(),
            Self::BlockwiseLinear(reader) => reader.inner().bytes(),
            Self::BitpackedGCD(reader) => reader.inner().inner().bytes(),
            Self::LinearGCD(reader) => reader.inner().inner().bytes(),
            Self::BlockwiseLinearGCD(reader) => reader.inner().inner().bytes(),
        }
    }

    /// The reader reads the column `b` of the codec `t`: it is of the
    /// variant of that codec, it holds the stored divisor over a codec
    /// reader of the bytes behind the header, and its values and bounds
    /// are those of the column.
    pub open spec fn reads(&self, t: FastFieldCodecType, b: Seq<u8>) -> bool {
        &&& open_fault(t, b) is None
        &&& self.wf()
        &&& self.codec_type() == t
        &&& self.value_codec_type() == value_codec(t, b)
        &&& self.stored_divisor() == (if t == FastFieldCodecType::Gcd {
            Some(gcd_divisor(b))
        } else {
            None
        })
        &&& self.payload_bytes() == (if t == FastFieldCodecType::Gcd {
            gcd_payload(b)
        } else {
            b
        })
        &&& self.raw_values() == column_values(t, b)
        &&& self.raw_min() == column_min(t, b)
        &&& self.raw_max() == column_max(t, b)
    }

    /// Opens a reader on `bytes` as a column of the codec `codec_type`:
    /// what follows the tag of that codec in an encoded column. Under the
    /// GCD meta-codec the tag of the inner codec is read first, and a GCD
    /// record inside a GCD record is refused.
    pub fn open_from_id(bytes: OwnedBytes, codec_type: FastFieldCodecType) -> (r: Result<
        DynamicFastFieldReader<Item>,
        DataCorruption,
    >)
        ensures
            match r {
                Ok(reader) => reader.reads(codec_type, bytes@),
                Err(e) => open_fault(codec_type, bytes@) == Some(e),
            },
    {
        match codec_type {
            FastFieldCodecType::Bitpacked => match BitpackedReader::open(bytes) {
                Ok(reader) => Ok(
                    DynamicFastFieldReader::Bitpacked(FastFieldReaderCodecWrapper::from(reader)),
                ),
                Err(e) => Err(e),
            },
            FastFieldCodecType::Linear => match LinearReader::open(bytes) {
                Ok(reader) => Ok(
                    DynamicFastFieldReader::Linear(FastFieldReaderCodecWrapper::from(reader)),
                ),
                Err(e) => Err(e),
            },
            FastFieldCodecType::BlockwiseLinear => match BlockwiseLinearReader::open(bytes) {
                Ok(reader) => Ok(
                    DynamicFastFieldReader::BlockwiseLinear(
                        FastFieldReaderCodecWrapper::from(reader),
                    ),
                ),
                Err(e) => Err(e),
            },
            FastFieldCodecType::Gcd => {
                let len: usize = bytes.len();
                if len < 1 {
                    return Err(DataCorruption::MalformedFraming);
                }
                let code: u8 = bytes.as_slice()[0];
                let inner: FastFieldCodecType = match FastFieldCodecType::from_code(code) {
                    Some(inner) => inner,
                    None => {
                        return Err(DataCorruption::UnknownCodec);
                    },
                };
                if inner == FastFieldCodecType::Gcd {
                    return Err(DataCorruption::NestedGcd);
                }
                if len < GCD_HEADER_LEN {
                    return Err(DataCorruption::MalformedFraming);
                }
                let divisor: u64 = read_u64(bytes.as_slice(), 1);
                let ghost record = bytes@;
                let payload: OwnedBytes = bytes.advance(GCD_HEADER_LEN);
                match inner {
                    FastFieldCodecType::Bitpacked => {
                        let quotients = match BitpackedReader::open(payload) {
                            Ok(reader) => reader,
                            Err(e) => {
                                return Err(e);
                            },
                        };
                        match GCDReader::wrap(quotients, divisor) {
                            Ok(reader) => {
                                let r = DynamicFastFieldReader::BitpackedGCD(
                                    FastFieldReaderCodecWrapper::from(reader),
                                );
                                assert(r.raw_values() =~= column_values(codec_type, record));
                                Ok(r)
                            },
                            Err(e) => Err(e),
                        }
                    },
                    FastFieldCodecType::Linear => {
                        let quotients = match LinearReader::open(payload) {
                            Ok(reader) => reader,
                            Err(e) => {
                                return Err(e);
                            },
                        };
                        match GCDReader::wrap(quotients, divisor) {
                            Ok(reader) => {
                                let r = DynamicFastFieldReader::LinearGCD(
                                    FastFieldReaderCodecWrapper::from(reader),
                                );
                                assert(r.raw_values() =~= column_values(codec_type, record));
                                Ok(r)
                            },
                            Err(e) => Err(e),
                        }
                    },
                    _ => {
                        let quotients = match BlockwiseLinearReader::open(payload) {
                            Ok(reader) => reader,
                            Err(e) => {
                                return Err(e);
                            },
                        };
                        match GCDReader::wrap(quotients, divisor) {
                            Ok(reader) => {
                                let r = DynamicFastFieldReader::BlockwiseLinearGCD(
                                    FastFieldReaderCodecWrapper::from(reader),
                                );
                                assert(r.raw_values() =~= column_values(codec_type, record));
                                Ok(r)
                            },
                            Err(e) => Err(e),
                        }
                    },
                }
            },
        }
    }

    /// Opens a reader on an encoded column: reads the tag at the front of
    /// `bytes`, and opens what follows as a column of the codec that the
    /// tag names.
    pub fn open(bytes: OwnedBytes) -> (r: Result<DynamicFastFieldReader<Item>, DataCorruption>)
        ensures
            match r {
                Ok(reader) => region_fault(bytes@) is None && reader.reads(
                    region_codec(bytes@),
                    region_payload(bytes@),
                ),
                Err(e) => region_fault(bytes@) == Some(e),
            },
    {
        if bytes.len() < 1 {
            return Err(DataCorruption::MalformedFraming);
        }
        let code: u8 = bytes.as_slice()[0];
        match FastFieldCodecType::from_code(code) {
            Some(codec_type) => Self::open_from_id(bytes.advance(1), codec_type),
            None => Err(DataCorruption::UnknownCodec),
        }
    }
}

/// The numbers that stand for the values `vals`.
pub open spec fn numbers_of<Item: FastValue>(vals: Seq<Item>) -> Seq<u64> {
    vals.map_values(|v: Item| v.to_u64_spec())
}

/// The numbers that stand for the values `vals`.
fn to_numbers<Item: FastValue>(vals: &Vec<Item>) -> (numbers: Vec<u64>)
    ensures
        numbers@ == numbers_of(vals@),
{
    let n: usize = vals.len();
    let mut numbers: Vec<u64> = Vec::with_capacity(n);
    let mut i: usize = 0;
    while i < n
        invariant
            n == vals@.len(),
            i <= n,
            numbers@.len() == i,
            forall|j: int| 0 <= j < i ==> #[trigger] numbers@[j] == vals@[j].to_u64_spec(),
        decreases n - i,
    {
        numbers.push(vals[i].to_u64());
        i = i + 1;
    }
    assert(numbers@ =~= numbers_of(vals@));
    numbers
}

impl<Item: FastValue> DynamicFastFieldReader<Item> {
    /// Builds a column from values in memory: the values go through the
    /// write path into a buffer, and a reader is opened on that buffer.
    pub fn from(vals: Vec<Item>) -> (reader: DynamicFastFieldReader<Item>)
        requires
            encodable_len(vals@.len()),
        ensures
            reader.wf(),
            reader.values() == vals@,
            reader.raw_values() == numbers_of(vals@),
            is_min_of(reader.raw_min(), numbers_of(vals@)),
            is_max_of(reader.raw_max(), numbers_of(vals@)),
            reader.codec_type() == FastFieldCodecType::Gcd <==> column_divisor(numbers_of(vals@))
                > 1,
            reader.value_codec_type() == shortest_codec(stored_values(numbers_of(vals@))),
            reader.stored_divisor() == (if column_divisor(numbers_of(vals@)) > 1 {
                Some(column_divisor(numbers_of(vals@)) as u64)
            } else {
                None
            }),
            reader.reads(
                region_codec(column_encoding(numbers_of(vals@))),
                region_payload(column_encoding(numbers_of(vals@))),
            ),
    {
        let numbers: Vec<u64> = to_numbers(&vals);
        let bytes: Vec<u8> = serialize_column(numbers.as_slice());
        let reader = Self::open(OwnedBytes::new(bytes)).unwrap();
        proof {
            assert forall|i: int| 0 <= i < vals@.len() implies Item::from_u64_spec(
                #[trigger] numbers@[i],
            ) == vals@[i] by {
                Item::lemma_value_kept(vals@[i]);
            }
            assert(reader.values() =~= vals@);
        }
        reader
    }
}

impl<Item: FastValue> DynamicFastFieldReader<Item> {
    /// The divisor that the reader multiplies into every quotient, where
    /// it reads under the GCD meta-codec.
    pub fn divisor(&self) -> (g: Option<u64>)
        ensures
            g == self.stored_divisor(),
    {
        match self {
            Self::Bitpacked(_) => None,
            Self::Linear(_) => None,
            Self::BlockwiseLinear(_) => None,
            Self::BitpackedGCD(reader) => Some(reader.reader().divisor()),
            Self::LinearGCD(reader) => Some(reader.reader().divisor()),
            Self::BlockwiseLinearGCD(reader) => Some(reader.reader().divisor()),
        }
    }

    /// The column holds one value for every document of the segment, the
    /// deleted ones among them.
    pub fn covers(&self, segment: &SegmentMeta) -> (b: bool)
        requires
            self.wf(),
        ensures
            b == (self.values().len() == segment.spec_max_doc()),
    {
        self.num_vals() == segment.max_doc() as u64
    }
}

impl<Item: FastValue> Column<Item> for DynamicFastFieldReader<Item> {
    open spec fn wf(&self) -> bool {
        match self {
            Self::Bitpacked(reader) => reader.wf(),
            Self::Linear(reader) => reader.wf(),
            Self::BlockwiseLinear(reader) => reader.wf(),
            Self::BitpackedGCD(reader) => reader.wf(),
            Self::LinearGCD(reader) => reader.wf(),
            Self::BlockwiseLinearGCD(reader) => reader.wf(),
        }
    }

    open spec fn values(&self) -> Seq<Item> {
        self.raw_values().map_values(|v: u64| Item::from_u64_spec(v))
    }

    open spec fn spec_min_value(&self) -> Item {
        Item::from_u64_spec(self.raw_min())
    }

    open spec fn spec_max_value(&self) -> Item {
        Item::from_u64_spec(self.raw_max())
    }

    /// The value that the stored number at `idx` stands for.
    #[inline]
    fn get_val(&self, idx: u64) -> (v: Item)
        ensures
            v == Item::from_u64_spec(self.raw_values()[idx as int]),
    {
        match self {
            Self::Bitpacked(reader) => reader.get_val(idx),
            Self::Linear(reader) => reader.get_val(idx),
            Self::BlockwiseLinear(reader) => reader.get_val(idx),
            Self::BitpackedGCD(reader) => reader.get_val(idx),
            Self::LinearGCD(reader) => reader.get_val(idx),
            Self::BlockwiseLinearGCD(reader) => reader.get_val(idx),
        }
    }

    /// The value that the lower bound of the stored numbers stands for.
    fn min_value(&self) -> (v: Item)
        ensures
            v == Item::from_u64_spec(self.raw_min()),
    {
        match self {
            Self::Bitpacked(reader) => reader.min_value(),
            Self::Linear(reader) => reader.min_value(),
            Self::BlockwiseLinear(reader) => reader.min_value(),
            Self::BitpackedGCD(reader) => reader.min_value(),
            Self::LinearGCD(reader) => reader.min_value(),
            Self::BlockwiseLinearGCD(reader) => reader.min_value(),
        }
    }

    /// The value that the upper bound of the stored numbers stands for.
    fn max_value(&self) -> (v: Item)
        ensures
            v == Item::from_u64_spec(self.raw_max()),
    {
        match self {
            Self::Bitpacked(reader) => reader.max_value(),
            Self::Linear(reader) => reader.max_value(),
            Self::BlockwiseLinear(reader) => reader.max_value(),
            Self::BitpackedGCD(reader) => reader.max_value(),
            Self::LinearGCD(reader) => reader.max_value(),
            Self::BlockwiseLinearGCD(reader) => reader.max_value(),
        }
    }

    fn num_vals(&self) -> (n: u64)
        ensures
            n == self.raw_values().len(),
    {
        match self {
            Self::Bitpacked(reader) => reader.num_vals(),
            Self::Linear(reader) => reader.num_vals(),
            Self::BlockwiseLinear(reader) => reader.num_vals(),
            Self::BitpackedGCD(reader) => reader.num_vals(),
            Self::LinearGCD(reader) => reader.num_vals(),
            Self::BlockwiseLinearGCD(reader) => reader.num_vals(),
        }
    }
}

} // verus!
