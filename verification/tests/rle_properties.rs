use rle_block::plain_builders::{
    PlainBlobBlockBuilder, PlainCharBlockBuilder, PlainPrimitiveBlockBuilder,
    PlainPrimitiveNullableBlockBuilder,
};
use rle_block::rle_block::{decode_rle_block, try_decode_rle_block, RLETypeEncode};
use rle_block::rle_block_builder::RLEBlockBuilder;
use rle_block::values::{Date, DecimalValue, F64Bits, Interval};
use rle_block::RLETypeKind;

fn i32_rle_builder(target: usize) -> RLEBlockBuilder<i32, PlainPrimitiveBlockBuilder<i32>> {
    RLEBlockBuilder::new(
        PlainPrimitiveBlockBuilder::new(0),
        target,
        RLETypeKind::Primitive,
    )
}

#[test]
fn test_round_trip_i32() {
    let values: [i32; 7] = [1, 1, 1, 2, 3, 3, -7];
    let mut rle_builder = i32_rle_builder(100);
    for v in values.iter() {
        rle_builder.append(Some(v));
    }
    let block = rle_builder.finish();

    let (n, counts_data, payload) = decode_rle_block(bytes::Bytes::from(block));
    assert_eq!(n, 4);
    let counts: Vec<u16> = counts_data
        .chunks(2)
        .map(|c| u16::from_le_bytes([c[0], c[1]]))
        .collect();
    assert_eq!(counts, vec![3, 1, 2, 1]);
    let decoded: Vec<i32> = payload
        .chunks(4)
        .map(|c| i32::from_le_bytes([c[0], c[1], c[2], c[3]]))
        .collect();
    assert_eq!(decoded, vec![1, 2, 3, -7]);

    let mut expanded: Vec<i32> = Vec::new();
    for (i, c) in counts.iter().enumerate() {
        for _ in 0..*c {
            expanded.push(decoded[i]);
        }
    }
    assert_eq!(expanded, values.to_vec());
}

#[test]
fn test_run_merging_cap() {
    // 65536 equal values split into runs of 65535 and 1.
    let mut rle_builder = i32_rle_builder(0);
    for _ in 0..65536 {
        rle_builder.append(Some(&7));
    }
    let block = rle_builder.finish();
    assert_eq!(&block[0..4], &2u32.to_le_bytes()[..]);
    assert_eq!(&block[4..6], &65535u16.to_le_bytes()[..]);
    assert_eq!(&block[6..8], &1u16.to_le_bytes()[..]);
    assert_eq!(block.len(), 4 + 2 * 2 + 4 * 2);
}

#[test]
fn test_run_merging_single() {
    let mut rle_builder = i32_rle_builder(0);
    for _ in 0..30 {
        rle_builder.append(Some(&9));
    }
    let block = rle_builder.finish();
    assert_eq!(&block[0..4], &1u32.to_le_bytes()[..]);
    assert_eq!(&block[4..6], &30u16.to_le_bytes()[..]);
    assert_eq!(&block[6..10], &9i32.to_le_bytes()[..]);
    assert_eq!(block.len(), 10);
}

#[test]
fn test_null_runs_merge() {
    // Nulls merge into one run exactly like a repeated scalar value.
    let builder = PlainPrimitiveNullableBlockBuilder::new(0);
    let mut rle_builder = RLEBlockBuilder::<i32, PlainPrimitiveNullableBlockBuilder<i32>>::new(
        builder,
        0,
        RLETypeKind::Primitive,
    );
    for _ in 0..10 {
        rle_builder.append(None);
    }
    // one run of 10 nulls: est = 4 + 2 * 1 + (4 data bytes + 1 bitmap byte)
    assert_eq!(rle_builder.estimated_size(), 4 + 2 + 5);
    let block = rle_builder.finish();
    assert_eq!(&block[0..4], &1u32.to_le_bytes()[..]);
    assert_eq!(&block[4..6], &10u16.to_le_bytes()[..]);
    // one zero-filled cell, then the bitmap byte with its low bit clear
    assert_eq!(&block[6..10], &[0, 0, 0, 0]);
    assert_eq!(block[10], 0);
}

#[test]
fn test_nullable_payload_layout() {
    let builder = PlainPrimitiveNullableBlockBuilder::new(0);
    let mut rle_builder = RLEBlockBuilder::<i32, PlainPrimitiveNullableBlockBuilder<i32>>::new(
        builder,
        0,
        RLETypeKind::Primitive,
    );
    rle_builder.append(Some(&5));
    rle_builder.append(None);
    let block = rle_builder.finish();
    // two runs of one value each; cells 5 and zeros; bitmap byte 0b01
    assert_eq!(
        block,
        vec![2, 0, 0, 0, 1, 0, 1, 0, 5, 0, 0, 0, 0, 0, 0, 0, 1]
    );
}

#[test]
fn test_should_finish_empty_block() {
    // A block must accept at least one value, whatever the target size.
    let rle_builder = i32_rle_builder(0);
    assert!(!rle_builder.should_finish(&Some(&1)));
    assert!(!rle_builder.should_finish(&None));
}

#[test]
fn test_estimated_size_monotonic() {
    let mut rle_builder = i32_rle_builder(0);
    let mut last: usize = rle_builder.estimated_size();
    let items: [Option<&i32>; 6] = [Some(&1), Some(&1), Some(&2), Some(&2), Some(&3), Some(&1)];
    for item in items.iter() {
        rle_builder.append(*item);
        let est = rle_builder.estimated_size();
        assert!(est >= last);
        last = est;
    }
    // 4 runs forwarded: 4 + 2 * 4 + 4 * 4
    assert_eq!(last, 4 + 8 + 16);
}

#[test]
fn test_statistics_passthrough() {
    let mut rle_builder = i32_rle_builder(0);
    rle_builder.append(Some(&1));
    assert!(rle_builder.get_statistics().is_empty());
}

#[test]
fn test_try_decode_truncated() {
    // announces 5 runs but holds only one count byte
    let bad = bytes::Bytes::from(vec![5u8, 0, 0, 0, 1]);
    assert!(try_decode_rle_block(&bad).is_none());
    let short = bytes::Bytes::from(vec![1u8, 0]);
    assert!(try_decode_rle_block(&short).is_none());

    let good = bytes::Bytes::from(vec![1u8, 0, 0, 0, 3, 0, 9, 9, 9]);
    let (n, counts_data, payload) = try_decode_rle_block(&good).unwrap();
    assert_eq!(n, 1);
    assert_eq!(&counts_data[..], &[3, 0]);
    assert_eq!(&payload[..], &[9, 9, 9]);
}

#[test]
fn test_bool_block_bytes() {
    let builder = PlainPrimitiveBlockBuilder::new(0);
    let mut rle_builder = RLEBlockBuilder::<bool, PlainPrimitiveBlockBuilder<bool>>::new(
        builder,
        0,
        RLETypeKind::Primitive,
    );
    for item in [Some(&true), Some(&true), Some(&true), Some(&false), Some(&false)] {
        rle_builder.append(item);
    }
    let block = rle_builder.finish();
    assert_eq!(block, vec![2, 0, 0, 0, 3, 0, 2, 0, 1, 0]);
}

#[test]
fn test_char_block_bytes() {
    let builder = PlainCharBlockBuilder::new(0, 4);
    let mut rle_builder = RLEBlockBuilder::<str, PlainCharBlockBuilder>::new(
        builder,
        0,
        RLETypeKind::Bytes(Some(4)),
    );
    rle_builder.append(Some("ab"));
    let block = rle_builder.finish();
    assert_eq!(block, vec![1, 0, 0, 0, 1, 0, b'a', b'b', 0, 0]);
}

#[test]
fn test_blob_block_bytes() {
    let builder = PlainBlobBlockBuilder::new(0);
    let mut rle_builder = RLEBlockBuilder::<[u8], PlainBlobBlockBuilder<[u8]>>::new(
        builder,
        0,
        RLETypeKind::Bytes(None),
    );
    let blob: [u8; 3] = [7, 8, 9];
    rle_builder.append(Some(&blob[..]));
    rle_builder.append(Some(&blob[..]));
    let block = rle_builder.finish();
    assert_eq!(block, vec![1, 0, 0, 0, 2, 0, 3, 0, 0, 0, 7, 8, 9]);
}

#[test]
fn test_value_signatures() {
    assert_eq!(Date(1).to_vec_bytes(), vec![1, 0, 0, 0]);
    assert_eq!(Date(-1).to_vec_bytes(), (-1i32 as u32).to_le_bytes().to_vec());
    assert_eq!(
        Interval::new(1, 2).to_vec_bytes(),
        vec![1, 0, 0, 0, 2, 0, 0, 0]
    );
    let d = DecimalValue {
        flags: 0x0003_0000,
        lo: 2333,
        mid: 0,
        hi: 0,
    };
    let mut expected: Vec<u8> = Vec::new();
    expected.extend_from_slice(&0x0003_0000u32.to_le_bytes());
    expected.extend_from_slice(&2333u32.to_le_bytes());
    expected.extend_from_slice(&0u32.to_le_bytes());
    expected.extend_from_slice(&0u32.to_le_bytes());
    assert_eq!(d.to_vec_bytes(), expected);
    assert_eq!(d.len(), 16);
    let f = F64Bits(1.5f64.to_bits());
    assert_eq!(f.to_vec_bytes(), 1.5f64.to_le_bytes().to_vec());
    assert_eq!(RLETypeEncode::len(&f), 8);
    assert_eq!("233".to_vec_bytes(), vec![b'2', b'3', b'3']);
}

#[test]
fn test_decimal_matches_library_serialization() {
    // The 16-byte layout agrees with rust_decimal's serialized form.
    let d = rust_decimal::Decimal::new(2333, 3);
    let raw = d.serialize();
    let v = DecimalValue {
        flags: u32::from_le_bytes([raw[0], raw[1], raw[2], raw[3]]),
        lo: u32::from_le_bytes([raw[4], raw[5], raw[6], raw[7]]),
        mid: u32::from_le_bytes([raw[8], raw[9], raw[10], raw[11]]),
        hi: u32::from_le_bytes([raw[12], raw[13], raw[14], raw[15]]),
    };
    assert_eq!(v.to_vec_bytes(), raw.to_vec());
}
