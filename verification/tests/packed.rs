use canvas::packed_u8::{
    get_shift, invert, invert_mask, mask, required_u8, vec_for, PackedEnum, PackedU8s,
};
use rand::Rng;

fn test_equal(uints: &PackedU8s, values: &[u8]) {
    for (i, value) in values.iter().enumerate() {
        assert_eq!(*value, uints.get(i));
    }
}

fn roundtrip(uints: &mut PackedU8s, values: &[u8]) {
    for (i, value) in values.iter().enumerate() {
        uints.set(i, *value);
    }
    test_equal(uints, values);
}

#[test]
pub fn test_from_iter() {
    let mut rng = rand::thread_rng();
    let values: [u8; 100] = [(); 100].map(|_| rng.gen_range(0..16));
    let uints = PackedU8s::from(&values);
    test_equal(&uints, &values);
}

fn test_ubits<const BITS: usize>() {
    let mut rng = rand::thread_rng();
    let mut uints = PackedU8s::new(100);
    let values: [u8; 100] = [(); 100].map(|_| rng.gen_range(0..2u32.pow(BITS as u32)) as u8);
    roundtrip(&mut uints, &values);
    assert!(uints.mask == mask::<BITS>());
}

#[test]
pub fn test_u1() {
    test_ubits::<1>();
}

#[test]
pub fn test_u2() {
    test_ubits::<2>();
}

#[test]
pub fn test_u4() {
    test_ubits::<4>();
}

#[test]
pub fn test_u8() {
    test_ubits::<8>();
}

#[test]
fn masks_and_counts_per_width() {
    assert_eq!(mask::<1>(), 0b1);
    assert_eq!(mask::<2>(), 0b11);
    assert_eq!(mask::<3>(), 0b111);
    assert_eq!(mask::<4>(), 0b1111);
    assert_eq!(mask::<8>(), 255);
    assert_eq!(invert::<1>(), 8);
    assert_eq!(invert::<2>(), 4);
    assert_eq!(invert::<4>(), 2);
    assert_eq!(invert::<8>(), 1);
    assert_eq!(invert_mask::<1>(), 255);
    assert_eq!(invert_mask::<2>(), 15);
    assert_eq!(invert_mask::<4>(), 3);
    assert_eq!(invert_mask::<8>(), 1);
}

#[test]
fn shifts_inside_a_byte() {
    assert_eq!(get_shift::<1>(0), 0);
    assert_eq!(get_shift::<1>(13), 5);
    assert_eq!(get_shift::<2>(3), 6);
    assert_eq!(get_shift::<2>(4), 0);
    assert_eq!(get_shift::<4>(1), 4);
    assert_eq!(get_shift::<4>(6), 0);
    assert_eq!(get_shift::<8>(5), 0);
}

#[test]
fn bytes_set_aside() {
    assert_eq!(required_u8::<1>(100), 13);
    assert_eq!(required_u8::<1>(8), 2);
    assert_eq!(required_u8::<1>(256), 32);
    assert_eq!(required_u8::<1>(0), 0);
    assert_eq!(required_u8::<2>(3), 1);
    assert_eq!(required_u8::<2>(16), 4);
    assert_eq!(required_u8::<4>(5), 3);
    assert_eq!(required_u8::<4>(4), 2);
    assert_eq!(required_u8::<8>(3), 4);
    assert_eq!(required_u8::<8>(4), 4);
    assert_eq!(vec_for::<4>(5), vec![0u8, 0, 0]);
    assert_eq!(vec_for::<1>(0), Vec::<u8>::new());
}

#[test]
fn bits_needed_by_a_value() {
    let expected: [(u8, u8); 12] = [
        (0, 1),
        (1, 1),
        (2, 2),
        (3, 2),
        (4, 3),
        (7, 3),
        (8, 4),
        (15, 4),
        (16, 5),
        (127, 7),
        (128, 8),
        (255, 8),
    ];
    for (value, bits) in expected {
        assert_eq!(PackedU8s::bits_for(value), bits);
    }
}

#[test]
fn packed_enum_reads_each_place() {
    let two = PackedEnum::U2(vec![0b1110_0100, 0b0000_0001]);
    assert_eq!(two.get(0), 0);
    assert_eq!(two.get(1), 1);
    assert_eq!(two.get(2), 2);
    assert_eq!(two.get(3), 3);
    assert_eq!(two.get(4), 1);
    let one = PackedEnum::U1(vec![0b0010_0001]);
    assert_eq!(one.get(0), 1);
    assert_eq!(one.get(1), 0);
    assert_eq!(one.get(5), 1);
    let four = PackedEnum::U4(vec![0xA7]);
    assert_eq!(four.get(0), 7);
    assert_eq!(four.get(1), 10);
    let eight = PackedEnum::U8(vec![3, 200]);
    assert_eq!(eight.get(1), 200);
}

#[test]
fn packed_enum_stores_in_place() {
    let mut two = PackedEnum::U2(vec![0b1110_0100]);
    two.set(1, 3);
    match &two {
        PackedEnum::U2(bytes) => assert_eq!(bytes, &vec![0b1110_1100u8]),
        _ => panic!("the width changed"),
    }
    two.set(3, 0);
    assert_eq!(two.iter(), vec![0, 3, 2, 0]);
    let mut eight = PackedEnum::U8(vec![1, 2, 3]);
    eight.set(2, 77);
    assert_eq!(eight.iter(), vec![1, 2, 77]);
}

#[test]
fn packed_enum_store_spills_when_value_is_too_wide() {
    let mut one = PackedEnum::U1(vec![0]);
    one.set(2, 3);
    assert_eq!(one.get(2), 1);
    assert_eq!(one.get(3), 1);
    assert_eq!(one.get(4), 0);
}

#[test]
fn iter_lists_every_place() {
    let one = PackedEnum::U1(vec![0b1000_0101]);
    assert_eq!(one.iter(), vec![1, 0, 1, 0, 0, 0, 0, 1]);
    let four = PackedEnum::U4(vec![0x21, 0x43]);
    assert_eq!(four.iter(), vec![1, 2, 3, 4]);
    assert_eq!(PackedU8s::new(100).iter().len(), 104);
    assert_eq!(PackedU8s::new(8).iter().len(), 16);
}

#[test]
fn new_is_all_zero_at_one_bit() {
    let uints = PackedU8s::new(20);
    assert_eq!(uints.length, 20);
    assert_eq!(uints.mask, 1);
    assert!(matches!(uints.data, PackedEnum::U1(_)));
    for i in 0..20 {
        assert_eq!(uints.get(i), 0);
    }
}

#[test]
fn from_with_bits_packs_exact_bytes() {
    let uints = PackedU8s::from_with_bits(&[1, 2, 3], 2);
    assert_eq!(uints.length, 3);
    assert_eq!(uints.mask, 3);
    match &uints.data {
        PackedEnum::U2(bytes) => assert_eq!(bytes, &vec![57u8]),
        _ => panic!("not packed at two bits"),
    }
    let uints = PackedU8s::from_with_bits(&[1, 0, 1, 1, 0, 0, 0, 1, 1], 0);
    match &uints.data {
        PackedEnum::U1(bytes) => assert_eq!(bytes, &vec![0b1000_1101u8, 0b0000_0001]),
        _ => panic!("not packed at one bit"),
    }
    let uints = PackedU8s::from_with_bits(&[9, 15, 4], 3);
    assert_eq!(uints.mask, 15);
    match &uints.data {
        PackedEnum::U4(bytes) => assert_eq!(bytes, &vec![0xF9u8, 0x04]),
        _ => panic!("not packed at four bits"),
    }
    let uints = PackedU8s::from_with_bits(&[9, 200], 5);
    assert_eq!(uints.mask, 255);
    match &uints.data {
        PackedEnum::U8(bytes) => assert_eq!(bytes, &vec![9u8, 200]),
        _ => panic!("not kept at eight bits"),
    }
}

#[test]
fn from_with_bits_too_narrow_spills() {
    let uints = PackedU8s::from_with_bits(&[3, 0], 1);
    assert_eq!(uints.get(0), 1);
    assert_eq!(uints.get(1), 1);
}

#[test]
fn from_picks_the_narrowest_width() {
    assert_eq!(PackedU8s::from(&[]).mask, 1);
    assert_eq!(PackedU8s::from(&[0, 1, 1]).mask, 1);
    assert_eq!(PackedU8s::from(&[0, 2]).mask, 3);
    assert_eq!(PackedU8s::from(&[4]).mask, 15);
    assert_eq!(PackedU8s::from(&[15, 1]).mask, 15);
    assert_eq!(PackedU8s::from(&[16]).mask, 255);
    let values = [5u8, 0, 13, 7, 1];
    test_equal(&PackedU8s::from(&values), &values);
}

#[test]
fn set_widens_and_keeps_values() {
    let mut uints = PackedU8s::new(5);
    uints.set(0, 1);
    uints.set(4, 1);
    assert_eq!(uints.mask, 1);
    uints.set(2, 9);
    assert_eq!(uints.mask, 15);
    assert_eq!(uints.length, 5);
    test_equal(&uints, &[1, 0, 9, 0, 1]);
    uints.set(1, 2);
    assert_eq!(uints.mask, 15);
    uints.set(3, 255);
    assert_eq!(uints.mask, 255);
    test_equal(&uints, &[1, 2, 9, 255, 1]);
    uints.set(3, 0);
    assert_eq!(uints.mask, 255);
    test_equal(&uints, &[1, 2, 9, 0, 1]);
}

#[test]
fn upscale_leaves_fitting_values_alone() {
    let mut uints = PackedU8s::from(&[1, 2, 3]);
    uints.upscale_if_needed(3);
    assert_eq!(uints.mask, 3);
    uints.upscale_if_needed(5);
    assert_eq!(uints.mask, 15);
    test_equal(&uints, &[1, 2, 3]);
}
