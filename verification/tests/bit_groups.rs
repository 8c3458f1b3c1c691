use rational_codec::nom_ext::{take_align, take_ones, take_zeros};
use rational_codec::nom_mod::{give8, take_partial, Shortage, TakeFailure};

#[test]
fn test_take_partial_reads_most_significant_first() {
    let bytes = [0b1010_0110_u8, 0b1100_0001, 0xFF];
    let found = take_partial(4, (&bytes[..], 0)).unwrap();
    assert_eq!(found.value, 0b1010);
    assert_eq!((found.rest, found.bit_offset), (&bytes[..], 4));

    let found = take_partial(9, (&bytes[..], 3)).unwrap();
    assert_eq!(found.value, 0b0_0110_1100);
    assert_eq!((found.rest, found.bit_offset), (&bytes[1..], 4));

    let found = take_partial(13, (&bytes[..], 3)).unwrap();
    assert_eq!(found.value, 0b0_0110_1100_0001);
    assert_eq!((found.rest, found.bit_offset), (&bytes[2..], 0));

    let found = take_partial(0, (&bytes[..], 5)).unwrap();
    assert_eq!(found.value, 0);
    assert_eq!((found.rest, found.bit_offset), (&bytes[..], 5));

    let wide = [0x12_u8, 0x34, 0x56, 0x78, 0x9A, 0xBC, 0xDE, 0xF0, 0xFF];
    let found = take_partial(64, (&wide[..], 0)).unwrap();
    assert_eq!(found.value, 0x1234_5678_9ABC_DEF0);
    let found = take_partial(64, (&wide[..], 4)).unwrap();
    assert_eq!(found.value, 0x2345_6789_ABCD_EF0F);
    assert_eq!((found.rest, found.bit_offset), (&wide[8..], 4));
}

#[test]
fn test_take_partial_on_short_input() {
    let bytes = [0b1010_0110_u8];
    assert_eq!(take_partial(9, (&bytes[..], 0)), Err((0, 9)));
    assert_eq!(take_partial(6, (&bytes[..], 3)), Err((0, 6)));
    assert_eq!(take_partial(1, (&[][..], 0)), Err((0, 1)));
    assert!(take_partial(5, (&bytes[..], 3)).is_ok());
}

#[test]
fn test_give8_1() {
    for bit_offset in 0_usize..8 {
        for source in 0..=u8::MAX {
            let mut buffer = [0_u8; 1];
            let (position, calc_result) = give8(&mut buffer[..], bit_offset, (source, 8)).unwrap();
            assert_eq!(calc_result, (source & !(0xFF_u8 << bit_offset), bit_offset));
            assert_eq!(buffer, [source >> bit_offset]);
            assert_eq!(position, (1, 0));
        }
    }
}

#[test]
fn test_give8_2() {
    for source in 0..=u8::MAX {
        for bitlen in 0_usize..8 {
            let mut buffer = [0_u8; 1];
            let (position, calc_result) = give8(&mut buffer[..], 0, (source, bitlen)).unwrap();
            assert_eq!(
                buffer,
                [source.checked_shl(8 - bitlen as u32).unwrap_or_default()]
            );
            assert_eq!(calc_result, (0, 0));
            assert_eq!(position, (0, bitlen));
        }
    }
}

#[test]
fn test_give8_keeps_the_bits_around_the_window() {
    let mut buffer = [0xFF_u8, 0xAA];
    let outcome = give8(&mut buffer[..], 3, (0b0000_0010, 3));
    assert_eq!(outcome, Ok(((0, 6), (0, 0))));
    assert_eq!(buffer, [0b1110_1011, 0xAA]);

    let mut buffer = [0x00_u8];
    let outcome = give8(&mut buffer[..], 6, (0b1111_0110, 4));
    assert_eq!(outcome, Ok(((1, 0), (0b10, 2))));
    assert_eq!(buffer, [0b0000_0001]);

    let mut empty: [u8; 0] = [];
    assert_eq!(give8(&mut empty[..], 0, (0xFF, 3)), Err(3));
    assert_eq!(give8(&mut empty[..], 5, (0xFF, 0)), Ok(((0, 5), (0, 0))));
}

#[test]
fn test_take_align() {
    let bytes = [0b1010_0110_u8, 0x3C];
    assert_eq!(take_align((&bytes[..], 0)), Ok((&bytes[..], (0, 0))));
    assert_eq!(take_align((&bytes[..], 3)), Ok((&bytes[1..], (0b0_0110, 5))));
    assert_eq!(take_align((&bytes[..], 7)), Ok((&bytes[1..], (0, 1))));
    assert_eq!(
        take_align((&[][..], 2)),
        Err(TakeFailure::Incomplete(Shortage::Size(6)))
    );
}

#[test]
fn test_take_zeros() {
    for streak_len in 0_usize..56 {
        for bit_offset in 0_usize..8 {
            let source: u64 = !(!(u64::MAX >> streak_len) >> bit_offset);
            let source_bytes = source.to_be_bytes();
            let input = (&source_bytes[..], bit_offset);
            let (position, calc_result) = take_zeros(usize::MAX, input).unwrap();
            assert_eq!(calc_result, streak_len);
            assert_eq!(
                position,
                (
                    &source_bytes[(bit_offset + streak_len) / 8..],
                    (bit_offset + streak_len) % 8
                )
            );
        }
    }
}

#[test]
fn test_take_ones() {
    for streak_len in 0_usize..56 {
        for bit_offset in 0_usize..8 {
            let source: u64 = !(u64::MAX >> streak_len) >> bit_offset;
            let source_bytes = source.to_be_bytes();
            let input = (&source_bytes[..], bit_offset);
            let (position, calc_result) = take_ones(usize::MAX, input).unwrap();
            assert_eq!(calc_result, streak_len);
            assert_eq!(
                position,
                (
                    &source_bytes[(bit_offset + streak_len) / 8..],
                    (bit_offset + streak_len) % 8
                )
            );
        }
    }
}

#[test]
fn test_take_zeros_limit() {
    for streak_limit in 0_usize..56 {
        for bit_offset in 0_usize..8 {
            let source: u64 = !(u64::MAX >> bit_offset);
            let source_bytes = source.to_be_bytes();
            let input = (&source_bytes[..], bit_offset);
            let (_input, calc_result) = take_zeros(streak_limit, input).unwrap();
            assert_eq!(calc_result, streak_limit);
        }
    }
}

#[test]
fn test_take_ones_limit() {
    for streak_limit in 0_usize..56 {
        for bit_offset in 0_usize..8 {
            let source: u64 = u64::MAX >> bit_offset;
            let source_bytes = source.to_be_bytes();
            let input = (&source_bytes[..], bit_offset);
            let (_input, calc_result) = take_ones(streak_limit, input).unwrap();
            assert_eq!(calc_result, streak_limit);
        }
    }
}

#[test]
fn test_take_run_at_the_end_of_the_input() {
    let zeros = [0x00_u8, 0x00];
    assert_eq!(
        take_zeros(17, (&zeros[..], 0)),
        Err(TakeFailure::Incomplete(Shortage::Unknown))
    );
    assert_eq!(take_zeros(16, (&zeros[..], 0)), Ok(((&zeros[2..], 0), 16)));
    assert_eq!(take_zeros(13, (&zeros[..], 3)), Ok(((&zeros[2..], 0), 13)));
    assert_eq!(take_zeros(12, (&zeros[..], 3)), Ok(((&zeros[1..], 7), 12)));
    assert_eq!(take_zeros(0, (&[][..], 3)), Ok(((&[][..], 3), 0)));
    assert_eq!(
        take_ones(1, (&[][..], 0)),
        Err(TakeFailure::Incomplete(Shortage::Unknown))
    );
    assert_eq!(take_ones(5, (&zeros[..], 2)), Ok(((&zeros[..], 2), 0)));
}
