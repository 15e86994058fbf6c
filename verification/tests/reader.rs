use fastfield::codec::FastFieldCodecType;
use fastfield::column::Column;
use fastfield::error::DataCorruption;
use fastfield::gcd::{compute_gcd, find_divisor, quotients, GCDReader};
use fastfield::linear::{serialize_linear, LinearReader};
use fastfield::owned_bytes::OwnedBytes;
use fastfield::reader::{DynamicFastFieldReader, FastFieldReaderCodecWrapper};
use fastfield::segment_meta::{SegmentId, SegmentMeta};
use fastfield::serialize::{serialize, serialize_column, serialize_gcd, serialize_payload};
use fastfield::value::{DateTime, F64Bits, FastValue};

const CODECS: [FastFieldCodecType; 3] = [
    FastFieldCodecType::Bitpacked,
    FastFieldCodecType::Linear,
    FastFieldCodecType::BlockwiseLinear,
];

fn datasets() -> Vec<Vec<u64>> {
    let mut sets: Vec<Vec<u64>> = Vec::new();
    sets.push(vec![]);
    sets.push(vec![10]);
    sets.push(vec![0, 0, 0]);
    sets.push(vec![u64::MAX]);
    sets.push(vec![10, 20, 30, 40]);
    sets.push(vec![0, 10, 20, 0, 1000]);
    sets.push((0..=100u64).map(|i| i * 10).collect());
    sets.push((10..=3000u64).collect());
    sets.push(vec![5, 6, 7, 8, 9, 10, 99, 100]);
    sets.push(vec![3, 18446744073709551613, 5]);
    sets.push(vec![1572656989877777, 1170935903116329, 720575940379279, 0]);
    sets.push(vec![0, u64::MAX, 0, u64::MAX, 1]);
    sets.push(vec![u64::MAX, u64::MAX - 3, 0, 3 * (u64::MAX / 3)]);
    sets.push((0..1500u64).map(|i| 1_000_000 * (1000 - (i % 7) * (i % 11))).collect());
    let mut state: u64 = 42;
    let mut noise: Vec<u64> = Vec::new();
    for _ in 0..1200 {
        state = state.wrapping_mul(6364136223846793005).wrapping_add(1442695040888963407);
        noise.push((state >> 20) * 6);
    }
    sets.push(noise);
    sets
}

fn check_reader(reader: &DynamicFastFieldReader<u64>, vals: &[u64]) {
    assert_eq!(reader.num_vals(), vals.len() as u64);
    for (i, v) in vals.iter().enumerate() {
        assert_eq!(reader.get_val(i as u64), *v);
        assert!(reader.min_value() <= *v);
        assert!(*v <= reader.max_value());
    }
    assert_eq!(reader.min_value(), vals.iter().copied().min().unwrap_or(0));
    assert_eq!(reader.max_value(), vals.iter().copied().max().unwrap_or(0));
}

fn true_gcd(vals: &[u64]) -> u64 {
    let mut best: u64 = 1;
    let bound = vals.iter().copied().filter(|v| *v != 0).min().unwrap_or(1).min(5000);
    for d in 1..=bound {
        if vals.iter().all(|v| v % d == 0) {
            best = d;
        }
    }
    best
}

#[test]
fn greatest_common_divisor() {
    assert_eq!(compute_gcd(12, 18), 6);
    assert_eq!(compute_gcd(18, 12), 6);
    assert_eq!(compute_gcd(0, 0), 0);
    assert_eq!(compute_gcd(0, 5), 5);
    assert_eq!(compute_gcd(5, 0), 5);
    assert_eq!(compute_gcd(17, 31), 1);
    assert_eq!(compute_gcd(u64::MAX, u64::MAX), u64::MAX);
    assert_eq!(compute_gcd(u64::MAX, 3), 3);
}

#[test]
fn divisor_of_a_column() {
    assert_eq!(find_divisor(&[]), 1);
    assert_eq!(find_divisor(&[0]), 1);
    assert_eq!(find_divisor(&[0, 0, 0]), 1);
    assert_eq!(find_divisor(&[7]), 7);
    assert_eq!(find_divisor(&[10, 20, 30, 40]), 10);
    assert_eq!(find_divisor(&[0, 10, 20]), 10);
    assert_eq!(find_divisor(&[10, 0, 20, 0]), 10);
    assert_eq!(find_divisor(&[6, 10, 15]), 1);
    assert_eq!(find_divisor(&[6, 10, 15, 0, 30]), 1);
    assert_eq!(find_divisor(&[1000, 2000, 3000, 4500]), 500);
    assert_eq!(find_divisor(&[u64::MAX]), u64::MAX);
    assert_eq!(quotients(&[10, 20, 30, 40], 10), vec![1, 2, 3, 4]);
    assert_eq!(quotients(&[0, 0], 1), vec![0, 0]);
    assert_eq!(quotients(&[7, 8, 9, u64::MAX], 4), vec![1, 2, 2, u64::MAX / 4]);
}

#[test]
fn divisor_is_the_greatest() {
    for vals in datasets() {
        let g = find_divisor(&vals);
        assert!(g >= 1);
        for v in &vals {
            assert_eq!(v % g, 0);
        }
        if vals.iter().any(|v| *v != 0) && g <= 5000 {
            assert_eq!(g, true_gcd(&vals));
        }
    }
}

#[test]
fn gcd_wrapper_divides_the_column() {
    let vals: Vec<u64> = vec![10, 20, 30, 40];
    let bytes = serialize_gcd(&vals, FastFieldCodecType::Bitpacked);
    assert_eq!(bytes[0], 4);
    assert_eq!(bytes[1], 1);
    assert_eq!(&bytes[2..10], &[10u8, 0, 0, 0, 0, 0, 0, 0]);
    assert_eq!(&bytes[10..], &serialize_payload(&[1, 2, 3, 4], FastFieldCodecType::Bitpacked)[..]);
    let reader = DynamicFastFieldReader::<u64>::open(OwnedBytes::new(bytes)).unwrap();
    match &reader {
        DynamicFastFieldReader::BitpackedGCD(wrapper) => {
            let gcd_reader = wrapper.reader();
            assert_eq!(gcd_reader.divisor(), 10);
            let stored = gcd_reader.quotients();
            assert_eq!(stored.num_vals(), 4);
            for i in 0..4u64 {
                assert_eq!(stored.get_val(i), i + 1);
            }
        }
        _ => panic!("the reader is not a bitpacked reader under the GCD meta-codec"),
    }
    check_reader(&reader, &vals);
}

#[test]
fn every_codec_reads_back_what_it_wrote() {
    for vals in datasets() {
        for codec in CODECS {
            let bytes = serialize(&vals, codec);
            assert_eq!(bytes[0], codec.to_code());
            let reader = DynamicFastFieldReader::<u64>::open(OwnedBytes::new(bytes)).unwrap();
            check_reader(&reader, &vals);
            let same_variant = match (&reader, codec) {
                (DynamicFastFieldReader::Bitpacked(_), FastFieldCodecType::Bitpacked) => true,
                (DynamicFastFieldReader::Linear(_), FastFieldCodecType::Linear) => true,
                (
                    DynamicFastFieldReader::BlockwiseLinear(_),
                    FastFieldCodecType::BlockwiseLinear,
                ) => true,
                _ => false,
            };
            assert!(same_variant);
        }
    }
}

#[test]
fn every_codec_reads_back_under_the_gcd_wrapper() {
    for vals in datasets() {
        for codec in CODECS {
            let bytes = serialize_gcd(&vals, codec);
            assert_eq!(bytes[0], 4);
            assert_eq!(bytes[1], codec.to_code());
            let reader = DynamicFastFieldReader::<u64>::open(OwnedBytes::new(bytes)).unwrap();
            check_reader(&reader, &vals);
            let divisor = match &reader {
                DynamicFastFieldReader::BitpackedGCD(w) => w.reader().divisor(),
                DynamicFastFieldReader::LinearGCD(w) => w.reader().divisor(),
                DynamicFastFieldReader::BlockwiseLinearGCD(w) => w.reader().divisor(),
                _ => panic!("the reader is not under the GCD meta-codec"),
            };
            assert_eq!(divisor, find_divisor(&vals));
            for i in 0..vals.len() {
                assert_eq!(reader.get_val(i as u64) % divisor, 0);
            }
        }
    }
}

#[test]
fn open_from_id_takes_the_bytes_behind_the_tag() {
    let vals: Vec<u64> = vec![4, 8, 15, 16, 23, 42];
    for codec in CODECS {
        let payload = serialize_payload(&vals, codec);
        let reader =
            DynamicFastFieldReader::<u64>::open_from_id(OwnedBytes::new(payload), codec).unwrap();
        check_reader(&reader, &vals);
        let framed = serialize_gcd(&vals, codec);
        let reader = DynamicFastFieldReader::<u64>::open_from_id(
            OwnedBytes::new(framed).advance(1),
            FastFieldCodecType::Gcd,
        )
        .unwrap();
        check_reader(&reader, &vals);
    }
}

#[test]
fn gcd_wrapped_in_gcd_is_refused() {
    let inner = serialize_gcd(&[10, 20, 30, 40], FastFieldCodecType::Bitpacked);
    let mut nested: Vec<u8> = vec![4];
    nested.extend_from_slice(&inner);
    let r = DynamicFastFieldReader::<u64>::open(OwnedBytes::new(nested));
    assert_eq!(r.err(), Some(DataCorruption::NestedGcd));
    let r = DynamicFastFieldReader::<u64>::open(OwnedBytes::new(vec![4, 4]));
    assert_eq!(r.err(), Some(DataCorruption::NestedGcd));
    let r = DynamicFastFieldReader::<i64>::open_from_id(
        OwnedBytes::new(vec![4, 1, 2, 3]),
        FastFieldCodecType::Gcd,
    );
    assert_eq!(r.err(), Some(DataCorruption::NestedGcd));
    assert_eq!(DataCorruption::NestedGcd.comment(), "Gcd wrapped in Gcd is not allowed");
}

#[test]
fn unknown_tags_are_refused() {
    for tag in [0u8, 5, 6, 77, 255] {
        let r = DynamicFastFieldReader::<u64>::open(OwnedBytes::new(vec![tag, 1, 2, 3]));
        assert_eq!(r.err(), Some(DataCorruption::UnknownCodec));
        let r = DynamicFastFieldReader::<u64>::open(OwnedBytes::new(vec![4, tag, 2, 3]));
        assert_eq!(r.err(), Some(DataCorruption::UnknownCodec));
    }
    assert_eq!(DataCorruption::UnknownCodec.comment(), "Unknown fast field codec");
}

#[test]
fn truncated_regions_are_refused() {
    let r = DynamicFastFieldReader::<u64>::open(OwnedBytes::new(vec![]));
    assert_eq!(r.err(), Some(DataCorruption::MalformedFraming));
    let r = DynamicFastFieldReader::<u64>::open(OwnedBytes::new(vec![4]));
    assert_eq!(r.err(), Some(DataCorruption::MalformedFraming));
    for codec in CODECS {
        let plain = serialize(&[1, 2, 3, 900, 77], codec);
        for cut in 1..plain.len() {
            let r = DynamicFastFieldReader::<u64>::open(OwnedBytes::new(plain[..cut].to_vec()));
            assert_eq!(r.err(), Some(DataCorruption::MalformedFraming));
        }
        let wrapped = serialize_gcd(&[3, 6, 9, 900, 78], codec);
        for cut in 2..wrapped.len() {
            let r = DynamicFastFieldReader::<u64>::open(OwnedBytes::new(wrapped[..cut].to_vec()));
            assert_eq!(r.err(), Some(DataCorruption::MalformedFraming));
        }
    }
    assert_eq!(
        DataCorruption::MalformedFraming.comment(),
        "Fast field framing is malformed or truncated"
    );
}

#[test]
fn gcd_records_with_a_bad_divisor_are_refused() {
    let good = serialize_gcd(&[10, 20, 30, 40], FastFieldCodecType::Linear);
    let mut zero = good.clone();
    zero[2] = 0;
    let r = DynamicFastFieldReader::<u64>::open(OwnedBytes::new(zero));
    assert_eq!(r.err(), Some(DataCorruption::MalformedFraming));
    let mut huge = good.clone();
    for b in &mut huge[2..10] {
        *b = 0xFF;
    }
    let r = DynamicFastFieldReader::<u64>::open(OwnedBytes::new(huge));
    assert_eq!(r.err(), Some(DataCorruption::MalformedFraming));
}

#[test]
fn opening_twice_gives_the_same_column() {
    for vals in datasets() {
        let bytes = serialize_column(&vals);
        let region = OwnedBytes::new(bytes);
        let first = DynamicFastFieldReader::<u64>::open(region.clone()).unwrap();
        let second = DynamicFastFieldReader::<u64>::open(region).unwrap();
        let third = first.clone();
        assert_eq!(first.num_vals(), second.num_vals());
        assert_eq!(first.min_value(), second.min_value());
        assert_eq!(first.max_value(), second.max_value());
        for i in 0..vals.len() as u64 {
            assert_eq!(first.get_val(i), second.get_val(i));
            assert_eq!(first.get_val(i), third.get_val(i));
        }
    }
}

#[test]
fn write_path_takes_the_shortest_codec() {
    let ramp: Vec<u64> = (0..=100u64).map(|i| i * 10).collect();
    let bytes = serialize_column(&ramp);
    assert_eq!(&bytes[..2], &[4u8, 2]);
    assert_eq!(bytes.len(), 10 + 49);
    let plain_ramp: Vec<u64> = (0..=100u64).map(|i| i * 10 + 1).collect();
    let bytes = serialize_column(&plain_ramp);
    assert_eq!(bytes[0], 2);
    let constant: Vec<u64> = vec![1; 50];
    let bytes = serialize_column(&constant);
    assert_eq!(bytes[0], 1);
    assert_eq!(bytes.len(), 1 + 25);
    let mut steps: Vec<u64> = (0..600u64).collect();
    steps.extend((0..600u64).map(|i| 1_000_001 + i * 2));
    let bytes = serialize_column(&steps);
    assert_eq!(bytes[0], 3);
    for vals in datasets() {
        let bytes = serialize_column(&vals);
        let wrapped = find_divisor(&vals) > 1;
        assert_eq!(bytes[0] == 4, wrapped);
        let stored: Vec<u64> = if wrapped {
            quotients(&vals, find_divisor(&vals))
        } else {
            vals.clone()
        };
        let header = if wrapped { 10 } else { 1 };
        for codec in CODECS {
            assert!(bytes.len() <= header + serialize_payload(&stored, codec).len());
        }
        let reader = DynamicFastFieldReader::<u64>::open(OwnedBytes::new(bytes)).unwrap();
        check_reader(&reader, &vals);
    }
}

#[test]
fn column_from_values_in_memory() {
    let vals: Vec<i64> = vec![-5, 0, 17, i64::MIN, i64::MAX, -1, 1];
    let reader = DynamicFastFieldReader::<i64>::from(vals.clone());
    assert_eq!(reader.num_vals(), 7);
    for (i, v) in vals.iter().enumerate() {
        assert_eq!(reader.get_val(i as u64), *v);
    }
    assert_eq!(reader.min_value(), i64::MIN);
    assert_eq!(reader.max_value(), i64::MAX);
    let reader = DynamicFastFieldReader::<u64>::from(vec![]);
    assert_eq!(reader.num_vals(), 0);
    let dates: Vec<DateTime> =
        vec![DateTime::from_timestamp_micros(1_600_000_000_000_000), DateTime::from_timestamp_micros(-3)];
    let reader = DynamicFastFieldReader::<DateTime>::from(dates.clone());
    assert_eq!(reader.get_val(0), dates[0]);
    assert_eq!(reader.get_val(1), dates[1]);
    assert_eq!(reader.min_value().into_timestamp_micros(), -3);
    assert_eq!(reader.max_value().into_timestamp_micros(), 1_600_000_000_000_000);
}

#[test]
fn column_of_floats() {
    let floats: Vec<f64> = vec![1.5, -2.25, 0.0, -0.0, f64::MAX, f64::MIN, f64::INFINITY, 1e-300];
    let vals: Vec<F64Bits> = floats.iter().map(|f| F64Bits { bits: f.to_bits() }).collect();
    let reader = DynamicFastFieldReader::<F64Bits>::from(vals);
    for (i, f) in floats.iter().enumerate() {
        assert_eq!(f64::from_bits(reader.get_val(i as u64).bits).to_bits(), f.to_bits());
    }
    assert_eq!(f64::from_bits(reader.min_value().bits), f64::MIN);
    assert_eq!(f64::from_bits(reader.max_value().bits), f64::INFINITY);
}

#[test]
fn wrapper_maps_numbers_to_values() {
    let payload = serialize_linear(&[0, 1u64 << 63, u64::MAX]);
    let codec_reader = LinearReader::open(OwnedBytes::new(payload)).unwrap();
    let wrapper: FastFieldReaderCodecWrapper<i64, LinearReader> =
        FastFieldReaderCodecWrapper::from(codec_reader);
    assert_eq!(wrapper.get_u64(0), i64::MIN);
    assert_eq!(wrapper.get_u64(1), 0);
    assert_eq!(wrapper.get_u64(2), i64::MAX);
    assert_eq!(wrapper.get_val(1), 0);
    assert_eq!(wrapper.min_value(), i64::MIN);
    assert_eq!(wrapper.max_value(), i64::MAX);
    assert_eq!(wrapper.num_vals(), 3);
    assert_eq!(wrapper.reader().get_val(1), 1u64 << 63);
    let copy = wrapper.clone();
    assert_eq!(copy.get_u64(2), i64::MAX);
}

#[test]
fn gcd_reader_refuses_what_overflows() {
    let payload = serialize_linear(&[1, 2, 3]);
    let reader = LinearReader::open(OwnedBytes::new(payload.clone())).unwrap();
    assert!(GCDReader::wrap(reader, 0).is_err());
    let reader = LinearReader::open(OwnedBytes::new(payload.clone())).unwrap();
    assert!(GCDReader::wrap(reader, u64::MAX / 2).is_err());
    let reader = LinearReader::open(OwnedBytes::new(payload)).unwrap();
    let wrapped = GCDReader::wrap(reader, u64::MAX / 3).unwrap();
    assert_eq!(wrapped.get_val(2), u64::MAX);
    assert_eq!(wrapped.max_value(), u64::MAX);
    assert_eq!(wrapped.min_value(), u64::MAX / 3);
    assert_eq!(wrapped.num_vals(), 3);
}

#[test]
fn tags_of_the_codecs() {
    assert_eq!(FastFieldCodecType::Bitpacked.to_code(), 1);
    assert_eq!(FastFieldCodecType::Linear.to_code(), 2);
    assert_eq!(FastFieldCodecType::BlockwiseLinear.to_code(), 3);
    assert_eq!(FastFieldCodecType::Gcd.to_code(), 4);
    let mut count = 0;
    for code in 0..=255u8 {
        if let Some(codec) = FastFieldCodecType::from_code(code) {
            assert_eq!(codec.to_code(), code);
            count += 1;
        }
    }
    assert_eq!(count, 4);
}

#[test]
fn signed_numbers_keep_their_order() {
    assert_eq!(i64::MIN.to_u64(), 0);
    assert_eq!((-1i64).to_u64(), (1u64 << 63) - 1);
    assert_eq!(0i64.to_u64(), 1u64 << 63);
    assert_eq!(i64::MAX.to_u64(), u64::MAX);
    assert_eq!(<i64 as FastValue>::from_u64(0), i64::MIN);
    assert_eq!(<i64 as FastValue>::from_u64(u64::MAX), i64::MAX);
    assert_eq!(<u64 as FastValue>::from_u64(17), 17);
    assert_eq!(17u64.to_u64(), 17);
    let samples: [i64; 9] = [i64::MIN, i64::MIN + 1, -1000, -1, 0, 1, 1000, i64::MAX - 1, i64::MAX];
    for a in samples {
        assert_eq!(<i64 as FastValue>::from_u64(a.to_u64()), a);
        for b in samples {
            assert_eq!(a < b, a.to_u64() < b.to_u64());
        }
    }
    for n in [0u64, 1, 1 << 63, u64::MAX] {
        assert_eq!(<i64 as FastValue>::from_u64(n).to_u64(), n);
        assert_eq!(<DateTime as FastValue>::from_u64(n).to_u64(), n);
        assert_eq!(<F64Bits as FastValue>::from_u64(n).to_u64(), n);
    }
}

#[test]
fn floats_keep_their_order() {
    let samples: [f64; 11] = [
        f64::NEG_INFINITY,
        f64::MIN,
        -1.5,
        -1e-300,
        -0.0,
        0.0,
        1e-300,
        1.0,
        1.5,
        f64::MAX,
        f64::INFINITY,
    ];
    for (i, a) in samples.iter().enumerate() {
        let na = F64Bits { bits: a.to_bits() }.to_u64();
        assert_eq!(<F64Bits as FastValue>::from_u64(na).bits, a.to_bits());
        for (j, b) in samples.iter().enumerate() {
            let nb = F64Bits { bits: b.to_bits() }.to_u64();
            assert_eq!(i < j, na < nb);
        }
    }
    assert_eq!(F64Bits { bits: 0f64.to_bits() }.to_u64(), 1u64 << 63);
    assert_eq!(F64Bits { bits: (-0f64).to_bits() }.to_u64(), (1u64 << 63) - 1);
}

#[test]
fn column_covers_its_segment() {
    let reader = DynamicFastFieldReader::<u64>::from(vec![3, 1, 4, 1, 5]);
    let mut segment = SegmentMeta::new(SegmentId { uuid: 9 });
    assert!(!reader.covers(&segment));
    segment.set_max_doc(5);
    assert!(reader.covers(&segment));
    segment.set_delete_meta(2, 1);
    assert!(reader.covers(&segment));
    segment.set_max_doc(6);
    assert!(!reader.covers(&segment));
}

#[test]
fn wrapper_is_made_from_a_reader() {
    let payload = serialize_linear(&[9, 8, 7]);
    let codec_reader = LinearReader::open(OwnedBytes::new(payload)).unwrap();
    let wrapper: FastFieldReaderCodecWrapper<u64, LinearReader> = codec_reader.into();
    assert_eq!(wrapper.get_u64(0), 9);
    assert_eq!(wrapper.get_u64(2), 7);
}

#[test]
fn reader_holds_the_stored_divisor() {
    for codec in CODECS {
        let plain = serialize(&[6, 12, 18], codec);
        let reader = DynamicFastFieldReader::<u64>::open(OwnedBytes::new(plain)).unwrap();
        assert_eq!(reader.divisor(), None);
        let wrapped = serialize_gcd(&[6, 12, 18], codec);
        let reader = DynamicFastFieldReader::<u64>::open(OwnedBytes::new(wrapped)).unwrap();
        assert_eq!(reader.divisor(), Some(6));
        let empty = serialize_gcd(&[], codec);
        let mut other = empty.clone();
        other[2] = 9;
        let reader = DynamicFastFieldReader::<u64>::open(OwnedBytes::new(empty)).unwrap();
        assert_eq!(reader.divisor(), Some(1));
        let reader = DynamicFastFieldReader::<u64>::open(OwnedBytes::new(other)).unwrap();
        assert_eq!(reader.divisor(), Some(9));
    }
    let reader = DynamicFastFieldReader::<u64>::from(vec![50, 150, 100]);
    assert_eq!(reader.divisor(), Some(50));
    assert_eq!(reader.clone().divisor(), Some(50));
    let reader = DynamicFastFieldReader::<u64>::from(vec![50, 151, 100]);
    assert_eq!(reader.divisor(), None);
}

#[test]
fn write_path_stores_the_quotients() {
    let vals: Vec<u64> = vec![0, 8, 1u64 << 63, 24];
    let bytes = serialize_column(&vals);
    assert_eq!(bytes[0], 4);
    let inner = FastFieldCodecType::from_code(bytes[1]).unwrap();
    assert_eq!(&bytes[2..10], &[8u8, 0, 0, 0, 0, 0, 0, 0]);
    assert_eq!(&bytes[10..], &serialize_payload(&[0, 1, 1u64 << 60, 3], inner)[..]);
}
