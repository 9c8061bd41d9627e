use negweight::weight::{radix_distance, radix_similarity, round_up, Radix, WeightType, MAX, NUM_BITS};

#[test]
fn radix_distance_is_the_position_of_the_highest_differing_bit() {
    assert_eq!(radix_distance(0, 0), 0);
    assert_eq!(radix_distance(5, 5), 0);
    assert_eq!(radix_distance(0, 1), 1);
    assert_eq!(radix_distance(4, 5), 1);
    assert_eq!(radix_distance(4, 7), 2);
    assert_eq!(radix_distance(0, 1 << 40), 41);
    assert_eq!(radix_distance(0, MAX), 63);
    assert_eq!(radix_distance(-1, 0), 64);
    assert_eq!(radix_similarity(4, 7), 62);
    assert_eq!(NUM_BITS, 64);
}

#[test]
fn radix_distance_and_similarity_add_up_to_the_width() {
    for &(a, b) in &[(0i64, 0i64), (3, 12), (1 << 50, 1), (77, 78)] {
        assert_eq!(radix_distance(a, b) + radix_similarity(a, b), 64);
        assert_eq!(Radix::radix_distance(&a, &b), radix_distance(a, b));
        assert_eq!(Radix::radix_similarity(&a, &b), radix_similarity(a, b));
    }
    assert_eq!(<i64 as Radix>::num_bits(), 64);
    assert_eq!(<u32 as Radix>::num_bits(), 32);
    assert_eq!(Radix::radix_distance(&8u32, &9u32), 1);
    assert_eq!(Radix::radix_similarity(&0u64, &1u64), 63);
}

#[test]
fn round_up_leaves_integer_weights_alone() {
    assert_eq!(round_up(5, 5), 5);
    assert_eq!(round_up(5, 3), 5);
    assert_eq!(round_up(-2, -7), -2);
    assert_eq!(round_up(3, 9), 3);
}

#[test]
fn weight_types_are_read_off_their_names() {
    assert_eq!(WeightType::from_str("i8"), WeightType::I8);
    assert_eq!(WeightType::from_str("i16"), WeightType::I16);
    assert_eq!(WeightType::from_str("i32"), WeightType::I32);
    assert_eq!(WeightType::from_str("i64"), WeightType::I64);
    assert_eq!(WeightType::from_str("i"), WeightType::I64);
    assert_eq!(WeightType::from_str("int4"), WeightType::I64);
    assert_eq!(WeightType::from_str("f32"), WeightType::F32);
    assert_eq!(WeightType::from_str("f64"), WeightType::F64);
    assert_eq!(WeightType::from_str("float"), WeightType::F64);
    assert_eq!(WeightType::from_str(""), WeightType::F64);
    assert_eq!(WeightType::from_str("2"), WeightType::F32);
    assert_eq!(WeightType::I8.num_bits(), 8);
    assert_eq!(WeightType::F64.num_bits(), 64);
}

#[test]
fn narrow_integers_count_their_own_width() {
    assert_eq!(<u8 as Radix>::num_bits(), 8);
    assert_eq!(<i8 as Radix>::num_bits(), 8);
    assert_eq!(<u16 as Radix>::num_bits(), 16);
    assert_eq!(<i16 as Radix>::num_bits(), 16);
    assert_eq!(<i32 as Radix>::num_bits(), 32);
    assert_eq!(Radix::radix_distance(&4u8, &7u8), 2);
    assert_eq!(Radix::radix_similarity(&4u8, &7u8), 6);
    assert_eq!(Radix::radix_distance(&-1i8, &0i8), 8);
    assert_eq!(Radix::radix_distance(&3i16, &3i16), 0);
    assert_eq!(Radix::radix_similarity(&0u16, &1u16), 15);
    assert_eq!(Radix::radix_distance(&0i32, &i32::MAX), 31);
}
