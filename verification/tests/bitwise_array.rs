use rational_codec::bitwise_array::{BitwiseArray, TrimLeft, TrimRight, TrimSide};
use rational_codec::masked_bits::{fp_shl, fp_shr};

#[test]
fn test_trim_sides() {
    assert!(!TrimLeft::ANCHOR_LEFT);
    assert!(TrimRight::ANCHOR_LEFT);
}

#[test]
fn test_bitwise_array_masked() {
    for left_margin in 0..=4u32 {
        for right_margin in 0..=4u32 {
            let bits = BitwiseArray::<TrimRight>::new(0xFF, left_margin, right_margin);
            let calc_result = bits.masked();
            assert_eq!(calc_result, bits.mask());
            assert_eq!(calc_result.count_ones(), 8 - left_margin - right_margin);
            assert_eq!(bits.len(), 8 - left_margin - right_margin);
            if calc_result.count_ones() != 0 {
                assert_eq!(calc_result.leading_zeros(), left_margin);
                assert_eq!(calc_result.trailing_zeros(), right_margin);
            }
        }
    }
}

#[test]
fn test_bitwise_array_same_bits() {
    for value in 0x00_u8..0x10 {
        for shift1 in 0..=4u32 {
            for shift2 in 0..=4u32 {
                let bits1 = BitwiseArray::<TrimRight>::new(value << shift1, 4 - shift1, shift1);
                let bits2 = BitwiseArray::<TrimLeft>::new(value << shift2, 4 - shift2, shift2);
                assert!(bits1.same_bits(&bits2));
                let other = BitwiseArray::<TrimLeft>::new((value ^ 8) << shift2, 4 - shift2, shift2);
                assert!(!bits1.same_bits(&other));
                assert!(!bits1.same_bits(&BitwiseArray::<TrimLeft>::new(value, 3, 0)));
            }
        }
    }
}

#[test]
fn test_trim_left() {
    for value in 0..=u8::MAX {
        for new_size in 0..=8u32 {
            let mut bits = BitwiseArray::<TrimLeft>::new(value, 0, 0);
            bits.trim(new_size);
            assert_eq!(bits.value(), fp_shr(fp_shl(value, 8 - new_size), 8 - new_size));
            assert_eq!(bits.len(), new_size);
            bits.trim(8);
            assert_eq!(bits.len(), new_size);
        }
    }
}

#[test]
fn test_trim_right() {
    for value in 0..=u8::MAX {
        for new_size in 0..=8u32 {
            let mut bits = BitwiseArray::<TrimRight>::new(value, 0, 0);
            bits.trim(new_size);
            assert_eq!(bits.value(), fp_shr(value, 8 - new_size));
            assert_eq!(bits.len(), new_size);
        }
    }
}

#[test]
fn test_bitwise_array_operators() {
    for value1 in 0_u8..0x10 {
        for lshift1 in 0..=4u32 {
            for value2 in 0_u8..0x40 {
                for lshift2 in 0..=2u32 {
                    let bits1 = BitwiseArray::<TrimLeft>::new(value1 << lshift1, 4 - lshift1, lshift1);
                    let left = BitwiseArray::<TrimLeft>::new(value2 << lshift2, 2 - lshift2, lshift2);
                    let right = BitwiseArray::<TrimRight>::new(value2 << lshift2, 2 - lshift2, lshift2);
                    assert_eq!((bits1.len(), left.len(), right.len()), (4, 6, 6));
                    assert_eq!((bits1.value(), left.value()), (value1, value2));

                    let result = bits1.bitand(left);
                    assert_eq!((result.len(), result.value()), (4, value1 & value2 & 0x0F));
                    let result = bits1.bitor(right);
                    assert_eq!((result.len(), result.value()), (4, value1 | (value2 >> 2)));
                    let result = right.bitxor(bits1);
                    assert_eq!((result.len(), result.value()), (4, value1 ^ (value2 >> 2)));
                    let result = left.bitxor(bits1);
                    assert_eq!((result.len(), result.value()), (4, value1 ^ (value2 & 0x0F)));
                }
            }
        }
    }
}
