use fastfield::bitpacked::{serialize_bitpacked, BitpackedReader};
use fastfield::bits::{compute_num_bits, pack, unpack};
use fastfield::blockwise::{serialize_blockwise_linear, BlockwiseLinearReader};
use fastfield::column::{can_encode, min_max, Column};
use fastfield::error::DataCorruption;
use fastfield::line::{fit, line_value};
use fastfield::linear::{serialize_linear, LinearReader};
use fastfield::owned_bytes::OwnedBytes;
use fastfield::wire::{read_u32, read_u64, write_u32, write_u64, write_u8};

fn datasets() -> Vec<Vec<u64>> {
    let mut sets: Vec<Vec<u64>> = Vec::new();
    sets.push(vec![]);
    sets.push(vec![10]);
    sets.push(vec![0]);
    sets.push(vec![u64::MAX]);
    sets.push(vec![7, 7, 7, 7, 7]);
    sets.push((10..=3000u64).collect());
    sets.push(vec![5, 6, 7, 8, 9, 10, 99, 100]);
    sets.push(vec![3, 18446744073709551613, 5]);
    sets.push(vec![5, 50, 3, 13, 1, 1000, 35]);
    sets.push(vec![1572656989877777, 1170935903116329, 720575940379279, 0]);
    sets.push(vec![0, u64::MAX, 0, u64::MAX, 1]);
    sets.push(vec![u64::MAX, 0]);
    sets.push(vec![u64::MAX, u64::MAX - 1, 0, 1, u64::MAX / 2]);
    sets.push((0..1500u64).map(|i| 1000 - (i % 7) * (i % 11)).collect());
    let mut state: u64 = 0x9E37_79B9_7F4A_7C15;
    let mut noise: Vec<u64> = Vec::new();
    for _ in 0..2000 {
        state = state.wrapping_mul(6364136223846793005).wrapping_add(1442695040888963407);
        noise.push(state >> 11);
    }
    sets.push(noise);
    sets
}

fn check_column<C: Column<u64>>(reader: &C, vals: &[u64]) {
    assert_eq!(reader.num_vals(), vals.len() as u64);
    for (i, v) in vals.iter().enumerate() {
        assert_eq!(reader.get_val(i as u64), *v);
        assert!(reader.min_value() <= *v);
        assert!(*v <= reader.max_value());
    }
    let lo = vals.iter().copied().min().unwrap_or(0);
    let hi = vals.iter().copied().max().unwrap_or(0);
    assert_eq!(reader.min_value(), lo);
    assert_eq!(reader.max_value(), hi);
}

#[test]
fn bit_width_of_numbers() {
    assert_eq!(compute_num_bits(0), 0);
    assert_eq!(compute_num_bits(1), 1);
    assert_eq!(compute_num_bits(2), 2);
    assert_eq!(compute_num_bits(3), 2);
    assert_eq!(compute_num_bits(4), 3);
    assert_eq!(compute_num_bits(255), 8);
    assert_eq!(compute_num_bits(256), 9);
    assert_eq!(compute_num_bits(5_000_000_000), 33);
    assert_eq!(compute_num_bits(u64::MAX / 2), 63);
    assert_eq!(compute_num_bits(u64::MAX / 2 + 1), 64);
    assert_eq!(compute_num_bits(u64::MAX), 64);
}

#[test]
fn pack_puts_low_bits_first() {
    assert_eq!(pack(&[1, 2, 3], 2), vec![0b0011_1001u8]);
    assert_eq!(pack(&[1, 0, 1, 1, 0, 0, 0, 1, 1], 1), vec![0b1000_1101u8, 0b0000_0001u8]);
    assert_eq!(pack(&[0x1FF, 0], 9), vec![0xFFu8, 0x01, 0x00]);
    assert_eq!(pack(&[5, 9, 2], 0), Vec::<u8>::new());
    assert_eq!(pack(&[], 13), Vec::<u8>::new());
    assert_eq!(
        pack(&[0x0102_0304_0506_0708], 64),
        vec![0x08u8, 0x07, 0x06, 0x05, 0x04, 0x03, 0x02, 0x01]
    );
}

#[test]
fn pack_drops_high_bits() {
    assert_eq!(pack(&[0xFF, 0xF0], 4), vec![0x0Fu8]);
}

#[test]
fn unpack_reads_what_pack_wrote() {
    for width in 0..=64u8 {
        let mask: u64 = if width == 64 { u64::MAX } else { (1u64 << width) - 1 };
        let vals: Vec<u64> = (0..100u64)
            .map(|i| i.wrapping_mul(0x9E37_79B9_7F4A_7C15).rotate_left((i % 64) as u32) & mask)
            .collect();
        let packed = pack(&vals, width);
        assert_eq!(packed.len(), (vals.len() * width as usize + 7) / 8);
        for (i, v) in vals.iter().enumerate() {
            assert_eq!(unpack(&packed, 0, i as u64, width), *v);
        }
    }
}

#[test]
fn unpack_reads_behind_a_header() {
    let mut data: Vec<u8> = vec![0xAA, 0xBB, 0xCC];
    data.extend(pack(&[5, 1, 7, 2], 3));
    assert_eq!(unpack(&data, 3, 0, 3), 5);
    assert_eq!(unpack(&data, 3, 1, 3), 1);
    assert_eq!(unpack(&data, 3, 2, 3), 7);
    assert_eq!(unpack(&data, 3, 3, 3), 2);
}

#[test]
fn fields_are_little_endian() {
    let mut out: Vec<u8> = Vec::new();
    write_u64(&mut out, 0x0102_0304_0506_0708);
    write_u32(&mut out, 0x0A0B_0C0D);
    write_u8(&mut out, 0x7F);
    assert_eq!(
        out,
        vec![0x08u8, 0x07, 0x06, 0x05, 0x04, 0x03, 0x02, 0x01, 0x0D, 0x0C, 0x0B, 0x0A, 0x7F]
    );
    assert_eq!(read_u64(&out, 0), 0x0102_0304_0506_0708);
    assert_eq!(read_u32(&out, 8), 0x0A0B_0C0D);
    assert_eq!(read_u64(&out, 1), 0x0D01_0203_0405_0607);
    let mut edge: Vec<u8> = Vec::new();
    write_u64(&mut edge, u64::MAX);
    write_u64(&mut edge, 0);
    write_u32(&mut edge, u32::MAX);
    assert_eq!(read_u64(&edge, 0), u64::MAX);
    assert_eq!(read_u64(&edge, 8), 0);
    assert_eq!(read_u32(&edge, 16), u32::MAX);
}

#[test]
fn columns_that_fit_in_memory() {
    assert!(can_encode(0));
    assert!(can_encode(1_000_000));
    assert!(can_encode((usize::MAX - 128) / 64));
    assert!(!can_encode((usize::MAX - 128) / 64 + 1));
    assert!(!can_encode(usize::MAX));
}

#[test]
fn least_and_greatest() {
    assert_eq!(min_max(&[]), (0, 0));
    assert_eq!(min_max(&[4]), (4, 4));
    assert_eq!(min_max(&[5, 50, 3, 13, 1, 1000, 35]), (1, 1000));
    assert_eq!(min_max(&[u64::MAX, 0]), (0, u64::MAX));
}

#[test]
fn line_through_the_ends() {
    assert_eq!(line_value(0, 10, 5, 0), 0);
    assert_eq!(line_value(0, 10, 5, 1), 2);
    assert_eq!(line_value(0, 10, 5, 2), 5);
    assert_eq!(line_value(0, 10, 5, 3), 7);
    assert_eq!(line_value(0, 10, 5, 4), 10);
    assert_eq!(line_value(10, 0, 5, 1), 8);
    assert_eq!(line_value(10, 0, 5, 3), 3);
    assert_eq!(line_value(10, 0, 5, 4), 0);
    assert_eq!(line_value(42, 99, 1, 0), 42);
    assert_eq!(line_value(0, u64::MAX, 3, 1), u64::MAX / 2);
    assert_eq!(line_value(0, u64::MAX, u64::MAX, u64::MAX - 1), u64::MAX);
    assert_eq!(line_value(u64::MAX, 0, 2, 1), 0);
}

#[test]
fn fit_shifts_by_the_least_residual() {
    let f = fit(&[0, 10, 20, 30]);
    assert_eq!((f.shift, f.width), (0, 0));
    assert_eq!(f.residuals, vec![0, 0, 0, 0]);
    let f = fit(&[5, 6, 7, 8, 9, 10, 99, 100]);
    // the line gives 5, 18, 32, 45, 59, 72, 86, 100
    assert_eq!(f.shift, (-62i64) as u64);
    assert_eq!(f.width, 7);
    assert_eq!(f.residuals, vec![62, 50, 37, 25, 12, 0, 75, 62]);
    let f = fit(&[]);
    assert_eq!((f.shift, f.width), (0, 0));
    assert!(f.residuals.is_empty());
    let f = fit(&[9]);
    assert_eq!((f.shift, f.width), (0, 0));
    assert_eq!(f.residuals, vec![0]);
}

#[test]
fn fit_stores_wide_residuals_at_full_width() {
    let vals = [0, u64::MAX, 0, u64::MAX, 0];
    let f = fit(&vals);
    assert_eq!(f.width, 64);
    for (i, v) in vals.iter().enumerate() {
        let point = line_value(0, 0, 5, i as u64);
        assert_eq!(point.wrapping_add(f.shift).wrapping_add(f.residuals[i]), *v);
    }
    let vals = [u64::MAX, 0, u64::MAX, 0];
    let f = fit(&vals);
    assert_eq!((f.shift, f.width), (0, 64));
}

#[test]
fn bitpacked_of_a_constant_needs_no_bits() {
    let bytes = serialize_bitpacked(&[7, 7, 7, 7, 7]);
    let mut expected: Vec<u8> = Vec::new();
    write_u64(&mut expected, 7);
    write_u64(&mut expected, 7);
    write_u8(&mut expected, 0);
    write_u64(&mut expected, 5);
    assert_eq!(bytes, expected);
    let reader = BitpackedReader::open(OwnedBytes::new(bytes)).unwrap();
    assert_eq!(reader.num_bits(), 0);
    assert_eq!(reader.num_vals(), 5);
    for i in 0..5 {
        assert_eq!(reader.get_val(i), 7);
    }
    assert_eq!(reader.min_value(), 7);
    assert_eq!(reader.max_value(), 7);
}

#[test]
fn bitpacked_layout() {
    let bytes = serialize_bitpacked(&[100, 103, 101]);
    let mut expected: Vec<u8> = Vec::new();
    write_u64(&mut expected, 100);
    write_u64(&mut expected, 103);
    write_u8(&mut expected, 2);
    write_u64(&mut expected, 3);
    expected.push(0b0001_1100);
    assert_eq!(bytes, expected);
}

#[test]
fn bitpacked_round_trip() {
    for vals in datasets() {
        let bytes = serialize_bitpacked(&vals);
        let reader = BitpackedReader::open(OwnedBytes::new(bytes)).unwrap();
        check_column(&reader, &vals);
        let lo = vals.iter().copied().min().unwrap_or(0);
        let hi = vals.iter().copied().max().unwrap_or(0);
        assert_eq!(reader.num_bits(), compute_num_bits(hi - lo));
    }
}

#[test]
fn bitpacked_refuses_malformed_framing() {
    let good = serialize_bitpacked(&[1, 2, 3, 900]);
    for cut in 0..good.len() {
        let r = BitpackedReader::open(OwnedBytes::new(good[..cut].to_vec()));
        assert_eq!(r.err(), Some(DataCorruption::MalformedFraming));
    }
    let mut wide = good.clone();
    wide[16] = 65;
    assert_eq!(
        BitpackedReader::open(OwnedBytes::new(wide)).err(),
        Some(DataCorruption::MalformedFraming)
    );
    let mut crossed = good.clone();
    crossed[0] = 0xFF;
    crossed[1] = 0xFF;
    assert_eq!(
        BitpackedReader::open(OwnedBytes::new(crossed)).err(),
        Some(DataCorruption::MalformedFraming)
    );
    let mut longer = good.clone();
    longer.push(0);
    assert!(BitpackedReader::open(OwnedBytes::new(longer)).is_ok());
}

#[test]
fn linear_ramp_has_no_residuals() {
    let vals: Vec<u64> = (0..=100u64).map(|i| i * 10).collect();
    assert_eq!(vals.len(), 101);
    let bytes = serialize_linear(&vals);
    assert_eq!(bytes.len(), 49);
    let reader = LinearReader::open(OwnedBytes::new(bytes)).unwrap();
    assert_eq!(reader.num_bits(), 0);
    assert_eq!(reader.min_value(), 0);
    assert_eq!(reader.max_value(), 1000);
    check_column(&reader, &vals);
}

#[test]
fn linear_layout() {
    let bytes = serialize_linear(&[5, 6, 7, 8, 9, 10, 99, 100]);
    let mut expected: Vec<u8> = Vec::new();
    write_u64(&mut expected, 5);
    write_u64(&mut expected, 100);
    write_u64(&mut expected, (-62i64) as u64);
    write_u64(&mut expected, 8);
    write_u8(&mut expected, 7);
    write_u64(&mut expected, 5);
    write_u64(&mut expected, 100);
    expected.extend(pack(&[62, 50, 37, 25, 12, 0, 75, 62], 7));
    assert_eq!(bytes, expected);
}

#[test]
fn linear_round_trip() {
    for vals in datasets() {
        let bytes = serialize_linear(&vals);
        let reader = LinearReader::open(OwnedBytes::new(bytes)).unwrap();
        check_column(&reader, &vals);
    }
}

#[test]
fn linear_refuses_malformed_framing() {
    let good = serialize_linear(&[1, 2, 3, 900]);
    for cut in 0..good.len() {
        let r = LinearReader::open(OwnedBytes::new(good[..cut].to_vec()));
        assert_eq!(r.err(), Some(DataCorruption::MalformedFraming));
    }
    let mut wide = good.clone();
    wide[32] = 200;
    assert_eq!(
        LinearReader::open(OwnedBytes::new(wide)).err(),
        Some(DataCorruption::MalformedFraming)
    );
    let mut crossed = good.clone();
    crossed[40] = 0xFF;
    assert_eq!(
        LinearReader::open(OwnedBytes::new(crossed)).err(),
        Some(DataCorruption::MalformedFraming)
    );
}

#[test]
fn blockwise_fits_every_block_alone() {
    let vals: Vec<u64> = vec![0, 1, 2, 3, 100, 101, 102, 103];
    let bytes = serialize_blockwise_linear(&vals, 4);
    assert_eq!(bytes.len(), 28 + 2 * 25);
    let reader = BlockwiseLinearReader::open(OwnedBytes::new(bytes)).unwrap();
    assert_eq!(reader.num_blocks(), 2);
    assert_eq!(reader.block_num_bits(0), 0);
    assert_eq!(reader.block_num_bits(1), 0);
    check_column(&reader, &vals);
}

#[test]
fn blockwise_layout() {
    let bytes = serialize_blockwise_linear(&[0, 1, 2, 3, 100, 300, 102], 4);
    let mut expected: Vec<u8> = Vec::new();
    write_u32(&mut expected, 4);
    write_u64(&mut expected, 7);
    write_u64(&mut expected, 0);
    write_u64(&mut expected, 300);
    write_u64(&mut expected, 0);
    write_u64(&mut expected, 3);
    write_u64(&mut expected, 0);
    write_u8(&mut expected, 0);
    // the second block holds 100, 300, 102; its line gives 100, 101, 102
    write_u64(&mut expected, 100);
    write_u64(&mut expected, 102);
    write_u64(&mut expected, 0);
    write_u8(&mut expected, 8);
    expected.extend(pack(&[0, 199, 0], 8));
    assert_eq!(bytes, expected);
}

#[test]
fn blockwise_round_trip() {
    for vals in datasets() {
        for block_size in [1u32, 2, 3, 4, 7, 512, 513, 100_000, u32::MAX] {
            let bytes = serialize_blockwise_linear(&vals, block_size);
            let reader = BlockwiseLinearReader::open(OwnedBytes::new(bytes)).unwrap();
            check_column(&reader, &vals);
            let blocks = (vals.len() + block_size as usize - 1) / block_size as usize;
            assert_eq!(reader.num_blocks(), blocks);
        }
    }
}

#[test]
fn blockwise_last_block_may_be_short() {
    let vals: Vec<u64> = (0..10u64).map(|i| i * i).collect();
    let bytes = serialize_blockwise_linear(&vals, 4);
    let reader = BlockwiseLinearReader::open(OwnedBytes::new(bytes)).unwrap();
    assert_eq!(reader.num_blocks(), 3);
    check_column(&reader, &vals);
}

#[test]
fn blockwise_refuses_malformed_framing() {
    let good = serialize_blockwise_linear(&[1, 2, 3, 900, 5, 6, 70, 8, 9], 4);
    for cut in 0..good.len() {
        let r = BlockwiseLinearReader::open(OwnedBytes::new(good[..cut].to_vec()));
        assert_eq!(r.err(), Some(DataCorruption::MalformedFraming));
    }
    let mut no_blocks = good.clone();
    no_blocks[0] = 0;
    assert_eq!(
        BlockwiseLinearReader::open(OwnedBytes::new(no_blocks)).err(),
        Some(DataCorruption::MalformedFraming)
    );
    let mut wide = good.clone();
    wide[28 + 25 + 24] = 65;
    assert_eq!(
        BlockwiseLinearReader::open(OwnedBytes::new(wide)).err(),
        Some(DataCorruption::MalformedFraming)
    );
    let mut crossed = good.clone();
    crossed[12] = 0xFF;
    crossed[13] = 0xFF;
    assert_eq!(
        BlockwiseLinearReader::open(OwnedBytes::new(crossed)).err(),
        Some(DataCorruption::MalformedFraming)
    );
    let mut many = good.clone();
    for b in &mut many[4..12] {
        *b = 0xFF;
    }
    assert_eq!(
        BlockwiseLinearReader::open(OwnedBytes::new(many)).err(),
        Some(DataCorruption::MalformedFraming)
    );
}

#[test]
fn owned_bytes_moves_its_front() {
    let bytes = OwnedBytes::new(vec![1, 2, 3, 4, 5]);
    assert_eq!(bytes.len(), 5);
    assert_eq!(bytes.as_slice(), &[1, 2, 3, 4, 5]);
    let shared = bytes.clone();
    let tail = bytes.advance(2);
    assert_eq!(tail.len(), 3);
    assert_eq!(tail.as_slice(), &[3, 4, 5]);
    let end = tail.advance(3);
    assert_eq!(end.len(), 0);
    assert_eq!(end.as_slice(), &[] as &[u8]);
    assert_eq!(shared.as_slice(), &[1, 2, 3, 4, 5]);
}
