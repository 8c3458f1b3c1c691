use rational_codec::bitslice::{masked_bit, BitDecoder, BitEncoder};
use rational_codec::masked_bits::{fp_ishl, fp_ishr, fp_shl, fp_shr, MaskedBits};

fn byte_pairs() -> Vec<[u8; 2]> {
    let mut pairs = Vec::new();
    let mut state: u32 = 0x1234_5678;
    for _ in 0..500 {
        state = state.wrapping_mul(1664525).wrapping_add(1013904223);
        pairs.push([(state >> 8) as u8, (state >> 20) as u8]);
    }
    pairs.push([0x00, 0x00]);
    pairs.push([0xFF, 0xFF]);
    pairs.push([0x80, 0x01]);
    pairs
}

#[test]
fn read_bit_write_bit_eq() {
    for bits in byte_pairs() {
        let mut new_bits = [0_u8; 2];
        let mut bit_buffer = vec![];

        let mut reader = BitDecoder::new(&bits);
        while let Ok(bit) = reader.read_bit() {
            bit_buffer.push(bit);
        }
        assert_eq!(bit_buffer.len(), 16);

        let mut writer = BitEncoder::new(&mut new_bits);
        for bit in bit_buffer.into_iter() {
            writer
                .write_bit(bit)
                .expect("can write the same number of bits read");
        }

        assert_eq!(new_bits, bits);
    }
}

#[test]
fn test_read_bit_is_most_significant_first() {
    let bytes = [0b1000_0001_u8, 0b0100_0000];
    let mut reader = BitDecoder::new(&bytes);
    let mut seen = Vec::new();
    assert_eq!(reader.bits_left(), 16);
    assert!(!reader.is_empty());
    while let Ok(bit) = reader.read_bit() {
        seen.push(bit);
    }
    let expected: Vec<bool> = "1000000101000000".chars().map(|c| c == '1').collect();
    assert_eq!(seen, expected);
    assert!(reader.is_empty());
    assert_eq!(reader.read_bit(), Err(1));
    assert_eq!(reader.bits_left(), 0);
}

#[test]
fn test_skip_bits() {
    let bytes = [0x00_u8, 0x10, 0xFF];
    let mut reader = BitDecoder::new(&bytes);
    assert_eq!(reader.skip_bits(11), Ok(()));
    assert_eq!(reader.bits_left(), 13);
    assert_eq!(reader.read_bit(), Ok(true));
    assert_eq!(reader.skip_bits(13), Err(1));
    assert_eq!(reader.bits_left(), 12);
    assert_eq!(reader.skip_bits(40), Err(28));
    assert_eq!(reader.skip_bits(12), Ok(()));
    assert!(reader.is_empty());
    assert_eq!(reader.skip_bits(0), Ok(()));
}

#[test]
fn test_write_bit_keeps_the_other_bits() {
    let mut bytes = [0b1010_1010_u8, 0b0101_0101];
    {
        let mut writer = BitEncoder::new(&mut bytes);
        assert_eq!(writer.bits_left(), 16);
        writer.write_bit(false).unwrap();
        writer.write_bit(true).unwrap();
        writer.write_bit(true).unwrap();
        assert_eq!(writer.bits_left(), 13);
        assert!(!writer.is_empty());
    }
    assert_eq!(bytes, [0b0110_1010, 0b0101_0101]);

    let mut one = [0u8];
    let mut writer = BitEncoder::new(&mut one);
    for _ in 0..8 {
        assert_eq!(writer.write_bit(true), Ok(()));
    }
    assert!(writer.is_empty());
    assert_eq!(writer.write_bit(true), Err(1));
    assert_eq!(one, [0xFF]);

    let mut none: [u8; 0] = [];
    let mut writer = BitEncoder::new(&mut none);
    assert_eq!(writer.write_bit(false), Err(1));
}

#[test]
fn test_masked_bit() {
    assert!(masked_bit(0b0000_0100, 2));
    assert!(!masked_bit(0b0000_0100, 3));
    assert!(masked_bit(0x80, 7));
}

#[test]
fn test_fp_shifts() {
    for value in 0..=u8::MAX {
        for shift in 0..8u32 {
            assert_eq!(fp_shl(value, shift), value << shift);
            assert_eq!(fp_shr(value, shift), value >> shift);
            assert_eq!(fp_ishl(value, shift as i32), value << shift);
            assert_eq!(fp_ishr(value, shift as i32), value >> shift);
            assert_eq!(fp_ishl(value, -(shift as i32)), value >> shift);
            assert_eq!(fp_ishr(value, -(shift as i32)), value << shift);
        }
        assert_eq!(fp_shl(value, 8), 0);
        assert_eq!(fp_shr(value, 8), 0);
        assert_eq!(fp_shl(value, 200), 0);
        assert_eq!(fp_ishl(value, 8), 0);
        assert_eq!(fp_ishl(value, -8), 0);
        assert_eq!(fp_ishr(value, 8), 0);
        assert_eq!(fp_ishr(value, -8), 0);
    }
}

#[test]
fn test_bitwise_masked() {
    for left_margin in 0..=4u32 {
        for right_margin in 0..=4u32 {
            let bits = MaskedBits::new(0xFF, left_margin, right_margin);
            let calc_result = bits.masked();
            assert_eq!(calc_result, bits.mask());
            assert_eq!(calc_result.count_ones(), 8 - left_margin - right_margin);
            assert_eq!(bits.len(), 8 - left_margin - right_margin);
            if calc_result.count_ones() != 0 {
                assert_eq!(calc_result.leading_zeros(), left_margin);
                assert_eq!(calc_result.trailing_zeros(), right_margin);
            }
        }
    }
    assert_eq!(MaskedBits::new(0xAB, 8, 0).len(), 0);
    assert_eq!(MaskedBits::new(0xAB, 8, 0).mask(), 0);
    assert_eq!(MaskedBits::new(0xAB, 0, 8).value(), 0);
    assert_eq!(MaskedBits::new_leading(0xAB, 3).value(), 0b101);
    assert_eq!(MaskedBits::new_trailing(0xAB, 3).value(), 0b011);
    assert_eq!(MaskedBits::new_trailing(0xAB, 3).data(), 0xAB);
}

#[test]
fn test_bitwise_array_eq() {
    for value in 0x00_u8..0x10 {
        for shift1 in 0..=4u32 {
            for shift2 in 0..=4u32 {
                let bits1 = MaskedBits::new(value << shift1, 4 - shift1, shift1);
                let bits2 = MaskedBits::new(value << shift2, 4 - shift2, shift2);
                assert_eq!(bits1, bits2);
                assert_ne!(bits1, MaskedBits::new((value ^ 1) << shift2, 4 - shift2, shift2));
                assert_ne!(bits1, MaskedBits::new(value, 3, 0));
            }
        }
    }
}

#[test]
fn test_trim_leading_to() {
    for value in 0..=u8::MAX {
        for new_size in 0..=8u32 {
            let bits = MaskedBits::new(value, 0, 0).trim_leading_to(new_size);
            assert_eq!(bits.value(), fp_shr(fp_shl(value, 8 - new_size), 8 - new_size));
            assert_eq!(bits.len(), new_size);
        }
        assert_eq!(MaskedBits::new(value, 2, 2).trim_leading_to(6).len(), 4);
    }
}

#[test]
fn test_trim_trailing_to() {
    for value in 0..=u8::MAX {
        for new_size in 0..=8u32 {
            let bits = MaskedBits::new(value, 0, 0).trim_trailing_to(new_size);
            assert_eq!(bits.value(), fp_shr(value, 8 - new_size));
            assert_eq!(bits.len(), new_size);
        }
        assert_eq!(MaskedBits::new(value, 2, 2).trim_trailing_to(6).len(), 4);
    }
}

#[test]
fn test_split() {
    let bits = MaskedBits::new(0b0110_1001, 1, 1);
    let (first, second) = bits.split_leading_at(2);
    assert_eq!((first.len(), first.value()), (2, 0b11));
    assert_eq!((second.len(), second.value()), (4, 0b0100));
    let (first, second) = bits.split_trailing_at(2);
    assert_eq!((first.len(), first.value()), (4, 0b1101));
    assert_eq!((second.len(), second.value()), (2, 0b00));
    let (first, second) = bits.split_leading_at(0);
    assert_eq!((first.len(), second.len()), (0, 6));
    let (first, second) = bits.split_leading_at(6);
    assert_eq!((first.len(), second.len()), (6, 0));
}

#[test]
fn test_counts() {
    for value in 0_u8..0x10 {
        for shift_left in 0..=4u32 {
            let bits = MaskedBits::new(value << shift_left, 4 - shift_left, shift_left);
            assert_eq!(bits.leading_zeros(), value.leading_zeros() - 4);
            assert_eq!(bits.leading_ones(), (value | (0xFF << 4)).leading_ones() - 4);
            assert_eq!(bits.trailing_zeros(), (value | (0xFF << 4)).trailing_zeros());
            assert_eq!(bits.trailing_ones(), value.trailing_ones());
            // Whatever lies outside the margins is not counted.
            let noisy = MaskedBits::new(
                (value << shift_left) | !(0x0F << shift_left),
                4 - shift_left,
                shift_left,
            );
            assert_eq!(noisy.leading_zeros(), bits.leading_zeros());
            assert_eq!(noisy.trailing_ones(), bits.trailing_ones());
        }
    }
    let empty = MaskedBits::new(0x5A, 3, 5);
    assert_eq!(empty.leading_zeros(), 0);
    assert_eq!(empty.leading_ones(), 0);
    assert_eq!(empty.trailing_zeros(), 0);
    assert_eq!(empty.trailing_ones(), 0);
}

#[test]
fn test_bit_operators() {
    for value1 in 0_u8..0x10 {
        for lshift1 in 0..=4u32 {
            for value2 in 0_u8..0x10 {
                for lshift2 in 0..=4u32 {
                    let bits1 = MaskedBits::new(value1 << lshift1, 4 - lshift1, lshift1);
                    let bits2 = MaskedBits::new(value2 << lshift2, 4 - lshift2, lshift2);
                    assert_eq!((bits1.len(), bits2.len()), (4, 4));
                    assert_eq!((bits1.value(), bits2.value()), (value1, value2));

                    let result = bits1.bitand(bits2);
                    assert_eq!((result.len(), result.value()), (4, value1 & value2));
                    let result = bits1.bitor(bits2);
                    assert_eq!((result.len(), result.value()), (4, value1 | value2));
                    let result = bits2.bitxor(bits1);
                    assert_eq!((result.len(), result.value()), (4, value1 ^ value2));
                }
            }
        }
    }
}

#[test]
fn test_assign() {
    for value1 in 0_u8..0x10 {
        for lshift1 in 0..=4u32 {
            for value2 in 0_u8..0x10 {
                for lshift2 in 0..=4u32 {
                    let backing = (value1 << lshift1) | !(0x0F << lshift1);
                    let mask = (0xFF_u8 << lshift1) & (0xFF_u8 >> (4 - lshift1));
                    let other = MaskedBits::new(value2 << lshift2, 4 - lshift2, lshift2);

                    let mut target = MaskedBits::new(backing, 4 - lshift1, lshift1);
                    target.assign(other);
                    assert_eq!(target.len(), 4);
                    assert_eq!(target.data() & !mask, backing & !mask);
                    assert_eq!(target.value(), value2);

                    let mut target = MaskedBits::new(backing, 4 - lshift1, lshift1);
                    target.bitand_assign(other);
                    assert_eq!(target.data() & !mask, backing & !mask);
                    assert_eq!(target.value(), value1 & value2);

                    let mut target = MaskedBits::new(backing, 4 - lshift1, lshift1);
                    target.bitor_assign(other);
                    assert_eq!(target.data() & !mask, backing & !mask);
                    assert_eq!(target.value(), value1 | value2);

                    let mut target = MaskedBits::new(backing, 4 - lshift1, lshift1);
                    target.bitxor_assign(other);
                    assert_eq!(target.data() & !mask, backing & !mask);
                    assert_eq!(target.value(), value1 ^ value2);
                }
            }
        }
    }
}
