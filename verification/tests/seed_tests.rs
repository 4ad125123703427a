use gymnarium_base::Seed;

#[test]
fn folding_four_bytes_reads_back_as_the_documented_value() {
    let seed = Seed::from(vec![1u8, 2u8, 3u8, 4u8]);
    assert_eq!(seed.to_u64(), 72623859706101760u64);
}

#[test]
fn text_seeds_hold_their_utf8_bytes() {
    let seed = Seed::from_text("12345678");
    assert_eq!(
        seed.fold_to(8),
        vec![49u8, 50u8, 51u8, 52u8, 53u8, 54u8, 55u8, 56u8]
    );
    assert_eq!(seed.seed_value, b"12345678".to_vec());
}

#[test]
fn byte_slice_seeds_copy_the_bytes() {
    let bytes = [0u8, 1u8, 2u8, 3u8, 4u8, 5u8, 6u8, 7u8, 8u8];
    let seed = Seed::from_bytes(&bytes[1..9]);
    assert_eq!(
        seed.fold_to(8),
        vec![1u8, 2u8, 3u8, 4u8, 5u8, 6u8, 7u8, 8u8]
    );
}

#[test]
fn u64_seeds_hold_their_big_endian_bytes() {
    let seed = Seed::from_u64(2306414829080219452u64);
    assert_eq!(
        seed.seed_value,
        vec![32u8, 2u8, 8u8, 17u8, 48u8, 5u8, 15u8, 60u8]
    );
    assert_eq!(seed.to_u64(), 2306414829080219452u64);
}

#[test]
fn folding_into_32_slots_wraps_in_storage_order() {
    let seed = Seed::from((0u8..64u8).collect::<Vec<u8>>());
    let expected = vec![
        32u8, 34u8, 36u8, 38u8, 40u8, 42u8, 44u8, 46u8, 48u8, 50u8, 52u8, 54u8, 56u8, 58u8, 60u8,
        62u8, 64u8, 66u8, 68u8, 70u8, 72u8, 74u8, 76u8, 78u8, 80u8, 82u8, 84u8, 86u8, 88u8, 90u8,
        92u8, 94u8,
    ];
    assert_eq!(seed.fold_to(32), expected);
}

#[test]
fn folding_into_16_slots_wraps_in_storage_order() {
    let seed = Seed::from((0u8..32u8).collect::<Vec<u8>>());
    let expected = vec![
        16u8, 18u8, 20u8, 22u8, 24u8, 26u8, 28u8, 30u8, 32u8, 34u8, 36u8, 38u8, 40u8, 42u8, 44u8,
        46u8,
    ];
    assert_eq!(seed.fold_to(16), expected);
}

#[test]
fn folding_into_8_slots_wraps_in_storage_order() {
    let seed = Seed::from((0u8..16u8).collect::<Vec<u8>>());
    let expected = vec![8u8, 10u8, 12u8, 14u8, 16u8, 18u8, 20u8, 22u8];
    assert_eq!(seed.fold_to(8), expected);
}

#[test]
fn folding_wraps_at_256() {
    let seed = Seed::from(vec![200u8, 200u8]);
    assert_eq!(seed.fold_to(1), vec![144u8]);
}

#[test]
fn random_seeds_have_32_bytes() {
    let seed = Seed::new_random();
    assert_eq!(seed.seed_value.len(), 32);
}
