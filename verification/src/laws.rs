//! What holds of every column, whatever its codec: what was written is
//! read back, within the bounds, by every reader alike.

use vstd::prelude::*;
use crate::codec::FastFieldCodecType;
use crate::column::Column;
use crate::framing::{gcd_divisor, region_codec, region_payload};
use crate::gcd::{
    column_divisor, lemma_divisor_divides, lemma_divisor_greatest, lemma_divisor_one,
    lemma_seq_gcd_bounded,
};
use crate::reader::{numbers_of, DynamicFastFieldReader};
use crate::serialize::{
    column_encoding, encodes, gcd_region_encoding, lemma_column_encodes, lemma_gcd_region_encodes,
    lemma_region_encodes, region_encoding,
};
use crate::value::FastValue;

verus! {

/// A reader that is opened on the encoding of a column reads the column:
/// as many values as were written, and at every ordinal the value that
/// was written there.
pub proof fn lemma_round_trip<Item: FastValue>(
    reader: DynamicFastFieldReader<Item>,
    bytes: Seq<u8>,
    vals: Seq<Item>,
)
    requires
        encodes(bytes, numbers_of(vals)),
        reader.reads(region_codec(bytes), region_payload(bytes)),
    ensures
        reader.values().len() == vals.len(),
        forall|i: int| 0 <= i < vals.len() ==> #[trigger] reader.values()[i] == vals[i],
        reader.values() == vals,
{
    assert forall|i: int| 0 <= i < vals.len() implies #[trigger] reader.values()[i] == vals[i] by {
        Item::lemma_value_kept(vals[i]);
    }
    assert(reader.values() =~= vals);
}

/// Every value that is read from the encoding of a column lies within the
/// bounds of the reader: the stored number within the stored bounds, and
/// the value within the bounds in the order of its domain.
pub proof fn lemma_bounds<Item: FastValue>(
    reader: DynamicFastFieldReader<Item>,
    bytes: Seq<u8>,
    numbers: Seq<u64>,
    i: int,
)
    requires
        encodes(bytes, numbers),
        reader.reads(region_codec(bytes), region_payload(bytes)),
        0 <= i < numbers.len(),
    ensures
        reader.raw_min() <= reader.raw_values()[i] <= reader.raw_max(),
        !reader.values()[i].precedes(reader.spec_min_value()),
        !reader.spec_max_value().precedes(reader.values()[i]),
{
    let v = reader.raw_values()[i];
    assert(numbers[i] == v);
    Item::lemma_number_kept(v);
    Item::lemma_number_kept(reader.raw_min());
    Item::lemma_number_kept(reader.raw_max());
    Item::lemma_order_kept(reader.values()[i], reader.spec_min_value());
    Item::lemma_order_kept(reader.spec_max_value(), reader.values()[i]);
}

/// Two readers that are opened on the same bytes give the same result at
/// every ordinal, and the same bounds.
pub proof fn lemma_open_twice<Item: FastValue>(
    first: DynamicFastFieldReader<Item>,
    second: DynamicFastFieldReader<Item>,
    codec_type: FastFieldCodecType,
    bytes: Seq<u8>,
)
    requires
        first.reads(codec_type, bytes),
        second.reads(codec_type, bytes),
    ensures
        first.values() == second.values(),
        first.spec_min_value() == second.spec_min_value(),
        first.spec_max_value() == second.spec_max_value(),
        first.codec_type() == second.codec_type(),
        first.value_codec_type() == second.value_codec_type(),
        first.stored_divisor() == second.stored_divisor(),
        first.payload_bytes() == second.payload_bytes(),
{
}

/// Every value that is read from a column that was encoded under the GCD
/// meta-codec is a multiple of the stored divisor.
pub proof fn lemma_values_are_multiples<Item: FastValue>(
    reader: DynamicFastFieldReader<Item>,
    bytes: Seq<u8>,
    numbers: Seq<u64>,
    i: int,
)
    requires
        encodes(bytes, numbers),
        gcd_divisor(region_payload(bytes)) == column_divisor(numbers),
        reader.reads(region_codec(bytes), region_payload(bytes)),
        0 <= i < numbers.len(),
    ensures
        gcd_divisor(region_payload(bytes)) >= 1,
        reader.raw_values()[i] % gcd_divisor(region_payload(bytes)) == 0,
{
    lemma_divisor_divides(numbers, i);
}

/// The encoding of the numbers `numbers` with the codec `codec`, alone or
/// under the GCD meta-codec.
pub open spec fn encoding_with(
    numbers: Seq<u64>,
    codec: FastFieldCodecType,
    under_gcd: bool,
) -> Seq<u8> {
    if under_gcd {
        gcd_region_encoding(numbers, codec)
    } else {
        region_encoding(numbers, codec)
    }
}

/// Whatever the values, the codec, and with or without the GCD
/// meta-codec: a reader that is opened on the encoding of a column counts
/// as many values as the column has, reads at every ordinal the value
/// that stands there, and has bounds that no value lies outside. The
/// number of values must fit the 64-bit field that stores it.
pub proof fn lemma_encoded_column_is_read_back<Item: FastValue>(
    reader: DynamicFastFieldReader<Item>,
    vals: Seq<Item>,
    codec: FastFieldCodecType,
    under_gcd: bool,
)
    requires
        vals.len() <= u64::MAX,
        codec != FastFieldCodecType::Gcd,
        reader.reads(
            region_codec(encoding_with(numbers_of(vals), codec, under_gcd)),
            region_payload(encoding_with(numbers_of(vals), codec, under_gcd)),
        ),
    ensures
        reader.values().len() == vals.len(),
        reader.values() == vals,
        forall|i: int|
            0 <= i < vals.len() ==> reader.raw_min() <= #[trigger] reader.raw_values()[i]
                <= reader.raw_max(),
        forall|i: int|
            0 <= i < vals.len() ==> !(#[trigger] reader.values()[i]).precedes(
                reader.spec_min_value(),
            ) && !reader.spec_max_value().precedes(reader.values()[i]),
{
    let numbers = numbers_of(vals);
    let bytes = encoding_with(numbers, codec, under_gcd);
    if under_gcd {
        lemma_gcd_region_encodes(numbers, codec);
    } else {
        lemma_region_encodes(numbers, codec);
    }
    lemma_round_trip(reader, bytes, vals);
    assert forall|i: int| 0 <= i < vals.len() implies reader.raw_min()
        <= #[trigger] reader.raw_values()[i] <= reader.raw_max() by {
        lemma_bounds(reader, bytes, numbers, i);
    }
    assert forall|i: int| 0 <= i < vals.len() implies !(#[trigger] reader.values()[i]).precedes(
        reader.spec_min_value(),
    ) && !reader.spec_max_value().precedes(reader.values()[i]) by {
        lemma_bounds(reader, bytes, numbers, i);
    }
}

/// The same of the encoding that the write path makes by default, which
/// is the one that a column built from values in memory is read from.
pub proof fn lemma_written_column_is_read_back<Item: FastValue>(
    reader: DynamicFastFieldReader<Item>,
    vals: Seq<Item>,
)
    requires
        vals.len() <= u64::MAX,
        reader.reads(
            region_codec(column_encoding(numbers_of(vals))),
            region_payload(column_encoding(numbers_of(vals))),
        ),
    ensures
        reader.values().len() == vals.len(),
        reader.values() == vals,
        forall|i: int|
            0 <= i < vals.len() ==> reader.raw_min() <= #[trigger] reader.raw_values()[i]
                <= reader.raw_max(),
        forall|i: int|
            0 <= i < vals.len() ==> !(#[trigger] reader.values()[i]).precedes(
                reader.spec_min_value(),
            ) && !reader.spec_max_value().precedes(reader.values()[i]),
{
    let numbers = numbers_of(vals);
    let bytes = column_encoding(numbers);
    lemma_column_encodes(numbers);
    lemma_round_trip(reader, bytes, vals);
    assert forall|i: int| 0 <= i < vals.len() implies reader.raw_min()
        <= #[trigger] reader.raw_values()[i] <= reader.raw_max() by {
        lemma_bounds(reader, bytes, numbers, i);
    }
    assert forall|i: int| 0 <= i < vals.len() implies !(#[trigger] reader.values()[i]).precedes(
        reader.spec_min_value(),
    ) && !reader.spec_max_value().precedes(reader.values()[i]) by {
        lemma_bounds(reader, bytes, numbers, i);
    }
}

/// Whatever the values and the inner codec: the divisor that is stored
/// under the GCD meta-codec, and that a reader of the encoding holds, is
/// at least 1 and divides every value that is read; every number that
/// divides all values of a column that does not hold 0 alone divides the
/// stored divisor, and is no greater; and the divisor of a column that
/// holds 0 alone is 1.
pub proof fn lemma_stored_divisor_is_greatest<Item: FastValue>(
    reader: DynamicFastFieldReader<Item>,
    numbers: Seq<u64>,
    inner: FastFieldCodecType,
    d: nat,
)
    requires
        numbers.len() <= u64::MAX,
        inner != FastFieldCodecType::Gcd,
        reader.reads(
            region_codec(gcd_region_encoding(numbers, inner)),
            region_payload(gcd_region_encoding(numbers, inner)),
        ),
    ensures
        reader.stored_divisor() == Some(column_divisor(numbers) as u64),
        1 <= column_divisor(numbers) <= u64::MAX,
        forall|i: int|
            0 <= i < numbers.len() ==> (#[trigger] reader.raw_values()[i]) as nat
                % column_divisor(numbers) == 0,
        d > 0 && (forall|i: int| 0 <= i < numbers.len() ==> (#[trigger] numbers[i]) as nat % d
            == 0) && (exists|i: int| 0 <= i < numbers.len() && #[trigger] numbers[i] != 0)
            ==> column_divisor(numbers) % d == 0 && d <= column_divisor(numbers),
        (forall|i: int| 0 <= i < numbers.len() ==> #[trigger] numbers[i] == 0) ==> column_divisor(
            numbers,
        ) == 1,
{
    lemma_gcd_region_encodes(numbers, inner);
    lemma_seq_gcd_bounded(numbers);
    lemma_divisor_one(numbers);
    assert forall|i: int| 0 <= i < numbers.len() implies (#[trigger] reader.raw_values()[i]) as nat
        % column_divisor(numbers) == 0 by {
        lemma_divisor_divides(numbers, i);
    }
    if d > 0 && (forall|i: int| 0 <= i < numbers.len() ==> (#[trigger] numbers[i]) as nat % d == 0)
        && (exists|i: int| 0 <= i < numbers.len() && #[trigger] numbers[i] != 0) {
        lemma_divisor_greatest(numbers, d);
    }
}

} // verus!
