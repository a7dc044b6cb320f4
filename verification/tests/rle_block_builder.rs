use itertools::Itertools;
use rle_block::plain_builders::{
    PlainBlobBlockBuilder, PlainCharBlockBuilder, PlainPrimitiveBlockBuilder,
    PlainPrimitiveNullableBlockBuilder,
};
use rle_block::rle_block_builder::RLEBlockBuilder;
use rle_block::RLETypeKind;

#[test]
fn test_build_rle_primitive_i32() {
    // Test primitive rle block builder for i32
    let builder = PlainPrimitiveBlockBuilder::new(0);
    let mut rle_builder = RLEBlockBuilder::<i32, PlainPrimitiveBlockBuilder<i32>>::new(
        builder,
        20,
        RLETypeKind::Primitive,
    );
    for item in [Some(&1)].iter().cycle().cloned().take(30) {
        rle_builder.append(item);
    }
    for item in [Some(&2)].iter().cycle().cloned().take(30) {
        rle_builder.append(item);
    }
    for item in [Some(&3)].iter().cycle().cloned().take(30) {
        rle_builder.append(item);
    }
    assert_eq!(rle_builder.estimated_size(), 4 * 3 + 2 * 3 + 4);
    assert!(!rle_builder.should_finish(&Some(&3)));
    assert!(rle_builder.should_finish(&Some(&4)));
    rle_builder.finish();
}

#[test]
fn test_build_rle_primitive_nullable_i32() {
    // Test primitive nullable rle block builder for i32
    let builder = PlainPrimitiveNullableBlockBuilder::new(0);
    let mut rle_builder = RLEBlockBuilder::<i32, PlainPrimitiveNullableBlockBuilder<i32>>::new(
        builder,
        70,
        RLETypeKind::Primitive,
    );
    for item in [None].iter().cycle().cloned().take(30) {
        rle_builder.append(item);
    }
    for item in [Some(&1)].iter().cycle().cloned().take(30) {
        rle_builder.append(item);
    }
    for item in [None].iter().cycle().cloned().take(30) {
        rle_builder.append(item);
    }
    for item in [Some(&2)].iter().cycle().cloned().take(30) {
        rle_builder.append(item);
    }
    for item in [None].iter().cycle().cloned().take(30) {
        rle_builder.append(item);
    }
    for item in [Some(&3)].iter().cycle().cloned().take(30) {
        rle_builder.append(item);
    }
    for item in [None].iter().cycle().cloned().take(30) {
        rle_builder.append(item);
    }
    for item in [Some(&4)].iter().cycle().cloned().take(30) {
        rle_builder.append(item);
    }
    for item in [None].iter().cycle().cloned().take(30) {
        rle_builder.append(item);
    }
    for item in [Some(&5)]
        .iter()
        .cycle()
        .cloned()
        .take(u16::MAX as usize * 2)
    {
        rle_builder.append(item);
    }
    assert_eq!(rle_builder.estimated_size(), 11 * 4 + 2 + 11 * 2 + 4);
    assert!(rle_builder.should_finish(&Some(&5)));
    rle_builder.finish();
}

#[test]
fn test_build_rle_char() {
    // Test rle block builder for char
    let builder = PlainCharBlockBuilder::new(0, 40);
    let mut rle_builder = RLEBlockBuilder::<str, PlainCharBlockBuilder>::new(
        builder,
        150,
        RLETypeKind::Bytes(Some(40)),
    );

    let width_40_char = ["2"].iter().cycle().take(40).join("");

    for item in [Some("233")].iter().cycle().cloned().take(30) {
        rle_builder.append(item);
    }
    for item in [Some("2333")].iter().cycle().cloned().take(30) {
        rle_builder.append(item);
    }
    for item in [Some(&width_40_char[..])].iter().cycle().cloned().take(30) {
        rle_builder.append(item);
    }
    assert_eq!(rle_builder.estimated_size(), 40 * 3 + 2 * 3 + 4);
    assert!(!rle_builder.should_finish(&Some(&width_40_char[..])));
    assert!(rle_builder.should_finish(&Some("2333333")));
    rle_builder.finish();
}

#[test]
fn test_build_rle_varchar() {
    // Test rle block builder for varchar
    let builder = PlainBlobBlockBuilder::new(0);
    let mut rle_builder = RLEBlockBuilder::<str, PlainBlobBlockBuilder<str>>::new(
        builder,
        40,
        RLETypeKind::Bytes(None),
    );
    for item in [Some("233")].iter().cycle().cloned().take(30) {
        rle_builder.append(item);
    }
    for item in [Some("23333")].iter().cycle().cloned().take(30) {
        rle_builder.append(item);
    }
    for item in [Some("2333333")].iter().cycle().cloned().take(30) {
        rle_builder.append(item);
    }
    assert_eq!(rle_builder.estimated_size(), 15 + 4 * 3 + 2 * 3 + 4); // 37
    assert!(rle_builder.should_finish(&Some("23333333")));
    assert!(!rle_builder.should_finish(&Some("2333333")));
    rle_builder.finish();
}
