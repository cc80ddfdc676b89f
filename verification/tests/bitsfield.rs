use game_of_life::{BitFieldCompatible, BitsField, BitsFieldError, State};

#[derive(Debug, PartialEq)]
enum TwoBitsState {
    Alive,
    Dead,
}

impl BitFieldCompatible<u8> for TwoBitsState {
    fn from_type(value: u8) -> Self {
        match value {
            0 => TwoBitsState::Dead,
            _ => TwoBitsState::Alive,
        }
    }

    fn to_type(&self) -> u8 {
        match self {
            TwoBitsState::Alive => 1,
            TwoBitsState::Dead => 0,
        }
    }
}

/// A raw pattern, stored as it is.
#[derive(Debug, PartialEq, Clone, Copy)]
struct Raw(u8);

impl BitFieldCompatible<u8> for Raw {
    fn from_type(value: u8) -> Self {
        Raw(value)
    }

    fn to_type(&self) -> u8 {
        self.0
    }
}

impl BitFieldCompatible<u16> for Raw {
    fn from_type(value: u16) -> Self {
        Raw(u8::try_from(value).unwrap())
    }

    fn to_type(&self) -> u16 {
        u16::from(self.0)
    }
}

impl BitFieldCompatible<u32> for Raw {
    fn from_type(value: u32) -> Self {
        Raw(u8::try_from(value).unwrap())
    }

    fn to_type(&self) -> u32 {
        u32::from(self.0)
    }
}

impl BitFieldCompatible<u64> for Raw {
    fn from_type(value: u64) -> Self {
        Raw(u8::try_from(value).unwrap())
    }

    fn to_type(&self) -> u64 {
        u64::from(self.0)
    }
}

impl BitFieldCompatible<u128> for Raw {
    fn from_type(value: u128) -> Self {
        Raw(u8::try_from(value).unwrap())
    }

    fn to_type(&self) -> u128 {
        u128::from(self.0)
    }
}

/// A pseudo-random pattern for position `i`.
fn pattern(i: usize, salt: usize) -> u8 {
    let x = (i + salt).wrapping_mul(2654435761) >> 7;
    (x % 256) as u8
}

fn low_bits(pattern: u8, width: usize) -> u8 {
    if width == 8 {
        pattern
    } else {
        pattern % (1u8 << width)
    }
}

#[test]
fn test_two_bits_states() {
    // Create a new BitsField with 1 bit per element. And 16 elements.
    let mut bits_field = BitsField::<u8>::new(1, 16).unwrap();
    // Check if the vec is sized correctly.
    assert_eq!(bits_field.storage().len(), 2);

    // Check if the bits_field is not empty.
    assert_eq!(bits_field.is_empty(), false);

    // Set the even elements to Alive.
    for i in 0..bits_field.len() {
        if i % 2 == 0 {
            bits_field.set(i, TwoBitsState::Alive).unwrap();
        }
    }

    // Check if the even elements are Alive.
    for i in 0..bits_field.len() {
        if i % 2 == 0 {
            assert_eq!(bits_field.get::<TwoBitsState>(i).unwrap(), TwoBitsState::Alive);
        } else {
            assert_eq!(bits_field.get::<TwoBitsState>(i).unwrap(), TwoBitsState::Dead);
        }
    }
}

#[test]
fn alternating_cell_states() {
    let mut field = BitsField::<u8>::new(1, 16).unwrap();
    assert_eq!(field.len(), 16);
    for i in 0..16 {
        if i % 2 == 0 {
            assert_eq!(field.set(i, State::Alive), Ok(()));
        }
    }
    for i in 0..16 {
        let expected = if i % 2 == 0 { State::Alive } else { State::Dead };
        assert_eq!(field.get::<State>(i), Ok(expected));
    }
    assert_eq!(field.storage(), &vec![0b0101_0101u8, 0b0101_0101]);
}

#[test]
fn capacity_of_sixteen_single_bits() {
    let field = BitsField::<u8>::new(1, 16).unwrap();
    assert_eq!(field.storage().len(), 2);
    assert_eq!(field.len(), 16);
    assert_eq!(field.storage(), &vec![0u8, 0]);
}

#[test]
fn storage_is_rounded_up_and_length_rounded_down() {
    // 10 elements of 3 bits: 30 bits, 4 bytes, which hold 10 elements.
    let field = BitsField::<u8>::new(3, 10).unwrap();
    assert_eq!(field.storage().len(), 4);
    assert_eq!(field.len(), 10);
    // 1 element of 3 bits: 1 byte, which holds 2 elements.
    let field = BitsField::<u8>::new(3, 1).unwrap();
    assert_eq!(field.storage().len(), 1);
    assert_eq!(field.len(), 2);
    // 3 elements of 5 bits: 15 bits, one 16-bit word.
    let field = BitsField::<u16>::new(5, 3).unwrap();
    assert_eq!(field.storage().len(), 1);
    assert_eq!(field.len(), 3);
    // 100 elements of 7 bits: 700 bits, 11 words of 64 bits, 704 bits.
    let field = BitsField::<u64>::new(7, 100).unwrap();
    assert_eq!(field.storage().len(), 11);
    assert_eq!(field.len(), 100);
    // 33 elements of 8 bits: 264 bits, 9 words of 32 bits, 36 elements.
    let field = BitsField::<u32>::new(8, 33).unwrap();
    assert_eq!(field.storage().len(), 9);
    assert_eq!(field.len(), 36);
    // 50 elements of 3 bits: 150 bits, 2 words of 128 bits, 85 elements.
    let field = BitsField::<u128>::new(3, 50).unwrap();
    assert_eq!(field.storage().len(), 2);
    assert_eq!(field.len(), 85);
}

#[test]
fn zero_capacity_gives_an_empty_array() {
    let mut field = BitsField::<u32>::new(4, 0).unwrap();
    assert_eq!(field.storage().len(), 0);
    assert_eq!(field.len(), 0);
    assert!(field.is_empty());
    assert_eq!(field.get::<Raw>(0), Err(BitsFieldError::IndexOutOfBounds));
    assert_eq!(field.set(0, Raw(1)), Err(BitsFieldError::IndexOutOfBounds));
}

#[test]
fn a_new_array_holds_zeros() {
    let field = BitsField::<u16>::new(5, 20).unwrap();
    for i in 0..field.len() {
        assert_eq!(field.get::<Raw>(i), Ok(Raw(0)));
    }
}

#[test]
fn invalid_widths_are_refused() {
    assert!(matches!(BitsField::<u8>::new(0, 4), Err(BitsFieldError::InvalidWidth)));
    assert!(matches!(BitsField::<u8>::new(9, 4), Err(BitsFieldError::InvalidWidth)));
    assert!(matches!(BitsField::<u64>::new(0, 0), Err(BitsFieldError::InvalidWidth)));
    assert!(matches!(BitsField::<u128>::new(usize::MAX, 1), Err(BitsFieldError::InvalidWidth)));
    for width in 1..=8 {
        assert!(BitsField::<u8>::new(width, 4).is_ok());
        assert!(BitsField::<u16>::new(width, 4).is_ok());
        assert!(BitsField::<u32>::new(width, 4).is_ok());
        assert!(BitsField::<u64>::new(width, 4).is_ok());
        assert!(BitsField::<u128>::new(width, 4).is_ok());
    }
}

#[test]
fn the_placeholder_is_empty_whatever_width_is_asked() {
    for width in [0usize, 1, 5, 8, 9, 100] {
        let mut field = BitsField::<u8>::default(width);
        assert!(field.is_empty());
        assert_eq!(field.len(), 0);
        assert_eq!(field.storage().len(), 0);
        assert_eq!(field.get::<Raw>(0), Err(BitsFieldError::IndexOutOfBounds));
        assert_eq!(field.set(0, Raw(1)), Err(BitsFieldError::IndexOutOfBounds));
    }
}

#[test]
fn indices_from_the_length_on_are_out_of_bounds() {
    let mut field = BitsField::<u8>::new(3, 10).unwrap();
    let len = field.len();
    assert_eq!(len, 10);
    assert_eq!(field.set(len - 1, Raw(0b110)), Ok(()));
    assert_eq!(field.get::<Raw>(len - 1), Ok(Raw(0b110)));
    assert_eq!(field.get_raw(len - 1), Ok(0b110));
    assert_eq!(field.convert_index(len - 1), Ok((3, 3)));
    for index in [len, len + 1, 2 * len, usize::MAX] {
        assert_eq!(field.get::<Raw>(index), Err(BitsFieldError::IndexOutOfBounds));
        assert_eq!(field.get_raw(index), Err(BitsFieldError::IndexOutOfBounds));
        assert_eq!(field.set(index, Raw(1)), Err(BitsFieldError::IndexOutOfBounds));
        assert_eq!(field.set_raw(index, 1), Err(BitsFieldError::IndexOutOfBounds));
        assert_eq!(field.convert_index(index), Err(BitsFieldError::IndexOutOfBounds));
    }
}

#[test]
fn a_refused_write_changes_nothing() {
    let mut field = BitsField::<u8>::new(3, 8).unwrap();
    for i in 0..8 {
        field.set(i, Raw(pattern(i, 3))).unwrap();
    }
    let before = field.storage().clone();
    assert_eq!(field.set(8, Raw(0b111)), Err(BitsFieldError::IndexOutOfBounds));
    assert_eq!(field.set_raw(usize::MAX, 0b111), Err(BitsFieldError::IndexOutOfBounds));
    assert_eq!(field.storage(), &before);
    assert_eq!(field.len(), 8);
}

#[test]
fn locations_follow_the_bit_position() {
    let field = BitsField::<u8>::new(3, 8).unwrap();
    assert_eq!(field.convert_index(0), Ok((0, 0)));
    assert_eq!(field.convert_index(1), Ok((0, 3)));
    assert_eq!(field.convert_index(2), Ok((0, 6)));
    assert_eq!(field.convert_index(3), Ok((1, 1)));
    assert_eq!(field.convert_index(5), Ok((1, 7)));
    assert_eq!(field.convert_index(7), Ok((2, 5)));
    let field = BitsField::<u16>::new(5, 6).unwrap();
    assert_eq!(field.convert_index(3), Ok((0, 15)));
    assert_eq!(field.convert_index(4), Ok((1, 4)));
    let field = BitsField::<u128>::new(7, 40).unwrap();
    assert_eq!(field.convert_index(18), Ok((0, 126)));
    assert_eq!(field.convert_index(19), Ok((1, 5)));
}

#[test]
fn an_element_that_fills_the_rest_of_its_word_stays_in_it() {
    // Element 1 of width 4 begins at bit 4 of an 8-bit word and ends with it.
    let mut field = BitsField::<u8>::new(4, 4).unwrap();
    field.set(1, Raw(0b1001)).unwrap();
    assert_eq!(field.storage(), &vec![0b1001_0000u8, 0]);
    assert_eq!(field.get::<Raw>(1), Ok(Raw(0b1001)));
    // Width 8 on 8-bit words: every element is one word.
    let mut field = BitsField::<u8>::new(8, 3).unwrap();
    field.set(1, Raw(0xA5)).unwrap();
    assert_eq!(field.storage(), &vec![0u8, 0xA5, 0]);
}

#[test]
fn straddling_element_keeps_its_neighbours() {
    let mut field = BitsField::<u8>::new(3, 8).unwrap();
    assert_eq!(field.storage().len(), 3);
    assert_eq!(field.len(), 8);
    for i in 0..8 {
        field.set(i, Raw(pattern(i, 11))).unwrap();
    }
    // Element 5 begins at bit 7 of word 1: one bit there, two in word 2.
    assert_eq!(field.convert_index(5), Ok((1, 7)));
    for prior in [0b000u8, 0b111, 0b010] {
        field.set(5, Raw(prior)).unwrap();
        let before = field.storage().clone();
        field.set(5, Raw(0b101)).unwrap();
        assert_eq!(field.get::<Raw>(5), Ok(Raw(0b101)));
        let after = field.storage().clone();
        assert_eq!(after[0], before[0]);
        assert_eq!(after[1] & 0b0111_1111, before[1] & 0b0111_1111);
        assert_eq!(after[2] & 0b1111_1100, before[2] & 0b1111_1100);
        // The high bit of the pattern is the top bit of word 1, its low two
        // bits are the bottom of word 2.
        assert_eq!(after[1] >> 7, 0b1);
        assert_eq!(after[2] & 0b11, 0b01);
        for i in 0..8 {
            if i != 5 {
                assert_eq!(field.get::<Raw>(i), Ok(Raw(low_bits(pattern(i, 11), 3))));
            }
        }
    }
}

#[test]
fn straddling_layout_in_wider_words() {
    // Width 5 on 16-bit words: element 3 has one bit at the top of word 0
    // and four at the bottom of word 1.
    let mut field = BitsField::<u16>::new(5, 6).unwrap();
    field.set(3, Raw(0b10110)).unwrap();
    assert_eq!(field.storage(), &vec![0x8000u16, 0b0110]);
    assert_eq!(field.get::<Raw>(3), Ok(Raw(0b10110)));
    // Width 7 on 128-bit words: element 18 has two bits at the top of word 0
    // and five at the bottom of word 1.
    let mut field = BitsField::<u128>::new(7, 40).unwrap();
    field.set(18, Raw(0b11_01001)).unwrap();
    assert_eq!(field.storage()[0], 0b11u128 << 126);
    assert_eq!(field.storage()[1], 0b01001u128);
    assert_eq!(field.get::<Raw>(18), Ok(Raw(0b11_01001)));
}

#[test]
fn only_the_low_bits_of_a_pattern_are_stored() {
    let mut field = BitsField::<u8>::new(3, 8).unwrap();
    for i in 0..8 {
        field.set(i, Raw(0xFF)).unwrap();
        assert_eq!(field.get::<Raw>(i), Ok(Raw(0b111)));
        for j in i + 1..8 {
            assert_eq!(field.get::<Raw>(j), Ok(Raw(0)));
        }
    }
    assert_eq!(field.storage(), &vec![0xFFu8, 0xFF, 0xFF]);
    field.set(2, Raw(0b1111_1010)).unwrap();
    assert_eq!(field.get::<Raw>(2), Ok(Raw(0b010)));
    assert_eq!(field.get::<Raw>(1), Ok(Raw(0b111)));
    assert_eq!(field.get::<Raw>(3), Ok(Raw(0b111)));
}

#[test]
fn round_trip_in_bytes() {
    for width in 1..=8usize {
        let mut field = BitsField::<u8>::new(width, 37).unwrap();
        for i in 0..field.len() {
            for value in 0..=255u8 {
                if usize::from(value) < (1usize << width) {
                    field.set(i, Raw(value)).unwrap();
                    assert_eq!(field.get::<Raw>(i), Ok(Raw(value)));
                }
            }
        }
    }
}

#[test]
fn round_trip_in_wider_words() {
    for width in 1..=8usize {
        let mut f16 = BitsField::<u16>::new(width, 29).unwrap();
        let mut f32 = BitsField::<u32>::new(width, 29).unwrap();
        let mut f64 = BitsField::<u64>::new(width, 29).unwrap();
        let mut f128 = BitsField::<u128>::new(width, 49).unwrap();
        for value in [0u8, 1, 0b101, 0x5A, 0xA5, 0xFF] {
            let stored = low_bits(value, width);
            for i in 0..f16.len() {
                f16.set(i, Raw(value)).unwrap();
                assert_eq!(f16.get::<Raw>(i), Ok(Raw(stored)));
            }
            for i in 0..f32.len() {
                f32.set(i, Raw(value)).unwrap();
                assert_eq!(f32.get::<Raw>(i), Ok(Raw(stored)));
            }
            for i in 0..f64.len() {
                f64.set(i, Raw(value)).unwrap();
                assert_eq!(f64.get::<Raw>(i), Ok(Raw(stored)));
            }
            for i in 0..f128.len() {
                f128.set(i, Raw(value)).unwrap();
                assert_eq!(f128.get::<Raw>(i), Ok(Raw(stored)));
            }
        }
    }
}

#[test]
fn a_write_leaves_the_other_elements() {
    for width in 1..=8usize {
        let mut field = BitsField::<u8>::new(width, 41).unwrap();
        let mut wide = BitsField::<u64>::new(width, 41).unwrap();
        let len = field.len();
        let mut model = vec![0u8; len];
        let mut wide_model = vec![0u8; wide.len()];
        for round in 0..6 {
            for i in 0..len {
                let target = (i * 7 + round) % len;
                let value = pattern(target, round * 31 + width);
                field.set(target, Raw(value)).unwrap();
                model[target] = low_bits(value, width);
                wide.set(target, Raw(value)).unwrap();
                wide_model[target] = low_bits(value, width);
                for j in 0..len {
                    assert_eq!(field.get::<Raw>(j), Ok(Raw(model[j])));
                }
                for j in 0..wide.len() {
                    assert_eq!(wide.get::<Raw>(j), Ok(Raw(wide_model[j])));
                }
            }
        }
    }
}

#[test]
fn raw_access_agrees_with_the_codec() {
    let mut field = BitsField::<u32>::new(6, 20).unwrap();
    assert_eq!(field.set_raw(7, 0xFFFF_FFE5), Ok(()));
    assert_eq!(field.get_raw(7), Ok(0b100101));
    assert_eq!(field.get::<Raw>(7), Ok(Raw(0b100101)));
    assert_eq!(field.get_raw(6), Ok(0));
    assert_eq!(field.get_raw(8), Ok(0));
}

#[test]
fn clearing_empties_the_array() {
    let mut field = BitsField::<u8>::new(2, 12).unwrap();
    field.set(3, Raw(0b11)).unwrap();
    assert!(!field.is_empty());
    field.clear();
    assert!(field.is_empty());
    assert_eq!(field.len(), 0);
    assert_eq!(field.storage().len(), 0);
    for index in [0usize, 1, 3, 11, 12, usize::MAX] {
        assert_eq!(field.get::<Raw>(index), Err(BitsFieldError::IndexOutOfBounds));
        assert_eq!(field.set(index, Raw(1)), Err(BitsFieldError::IndexOutOfBounds));
    }
    field.clear();
    assert!(field.is_empty());
}
