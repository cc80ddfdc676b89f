use game_of_life::BitFieldRepresentation;

#[test]
fn word_widths() {
    assert_eq!(<u8 as BitFieldRepresentation>::bits(), 8);
    assert_eq!(<u16 as BitFieldRepresentation>::bits(), 16);
    assert_eq!(<u32 as BitFieldRepresentation>::bits(), 32);
    assert_eq!(<u64 as BitFieldRepresentation>::bits(), 64);
    assert_eq!(<u128 as BitFieldRepresentation>::bits(), 128);
}

#[test]
fn words_from_small_numbers() {
    for v in [0u8, 1, 0x7F, 0x80, 0xFF] {
        assert_eq!(<u8 as BitFieldRepresentation>::from_u8(v), v);
        assert_eq!(<u16 as BitFieldRepresentation>::from_u8(v), u16::from(v));
        assert_eq!(<u32 as BitFieldRepresentation>::from_u8(v), u32::from(v));
        assert_eq!(<u64 as BitFieldRepresentation>::from_u8(v), u64::from(v));
        assert_eq!(<u128 as BitFieldRepresentation>::from_u8(v), u128::from(v));
    }
}

#[test]
fn bitwise_operations_on_bytes() {
    let a = 0b1100_1010u8;
    let b = 0b1010_0110u8;
    assert_eq!(BitFieldRepresentation::bitand(a, b), 0b1000_0010);
    assert_eq!(BitFieldRepresentation::bitor(a, b), 0b1110_1110);
    assert_eq!(BitFieldRepresentation::bitxor(a, b), 0b0110_1100);
    assert_eq!(BitFieldRepresentation::not(a), 0b0011_0101);
    assert_eq!(BitFieldRepresentation::shl(a, 0), a);
    assert_eq!(BitFieldRepresentation::shl(a, 3), 0b0101_0000);
    assert_eq!(BitFieldRepresentation::shl(a, 7), 0);
    assert_eq!(BitFieldRepresentation::shr(a, 0), a);
    assert_eq!(BitFieldRepresentation::shr(a, 3), 0b0001_1001);
    assert_eq!(BitFieldRepresentation::shr(a, 7), 1);
}

#[test]
fn bitwise_operations_on_wider_words() {
    let a = 0xF0F0u16;
    assert_eq!(BitFieldRepresentation::bitand(a, 0x3C3Cu16), 0x3030);
    assert_eq!(BitFieldRepresentation::bitor(a, 0x3C3Cu16), 0xFCFC);
    assert_eq!(BitFieldRepresentation::bitxor(a, 0x3C3Cu16), 0xCCCC);
    assert_eq!(BitFieldRepresentation::not(a), 0x0F0F);
    assert_eq!(BitFieldRepresentation::shl(a, 15), 0);
    assert_eq!(BitFieldRepresentation::shl(0x0001u16, 15), 0x8000);
    assert_eq!(BitFieldRepresentation::shr(a, 12), 0xF);

    let a = 0xDEAD_BEEFu32;
    assert_eq!(BitFieldRepresentation::bitand(a, 0x0000_FFFFu32), 0x0000_BEEF);
    assert_eq!(BitFieldRepresentation::bitor(a, 0x0000_FFFFu32), 0xDEAD_FFFF);
    assert_eq!(BitFieldRepresentation::bitxor(a, 0xFFFF_FFFFu32), 0x2152_4110);
    assert_eq!(BitFieldRepresentation::not(a), 0x2152_4110);
    assert_eq!(BitFieldRepresentation::shl(a, 16), 0xBEEF_0000);
    assert_eq!(BitFieldRepresentation::shr(a, 31), 1);

    let a = 0x0123_4567_89AB_CDEFu64;
    assert_eq!(BitFieldRepresentation::bitand(a, 0xFFu64), 0xEF);
    assert_eq!(BitFieldRepresentation::bitor(a, 0xFFu64), 0x0123_4567_89AB_CDFF);
    assert_eq!(BitFieldRepresentation::bitxor(a, a), 0);
    assert_eq!(BitFieldRepresentation::not(a), 0xFEDC_BA98_7654_3210);
    assert_eq!(BitFieldRepresentation::shl(a, 60), 0xF000_0000_0000_0000);
    assert_eq!(BitFieldRepresentation::shr(a, 56), 0x01);

    let a = 0x0123_4567_89AB_CDEF_0011_2233_4455_6677u128;
    assert_eq!(BitFieldRepresentation::bitand(a, 0xFFFFu128), 0x6677);
    assert_eq!(BitFieldRepresentation::bitor(a, 0xFFFFu128) & 0xFFFFF, 0x5FFFF);
    assert_eq!(BitFieldRepresentation::bitxor(a, a), 0);
    assert_eq!(BitFieldRepresentation::not(0u128), u128::MAX);
    assert_eq!(BitFieldRepresentation::shl(a, 127), 1u128 << 127);
    assert_eq!(BitFieldRepresentation::shr(a, 120), 0x01);
}
