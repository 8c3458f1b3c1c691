use rational_codec::bitslice::{BitDecoder, BitEncoder};
use rational_codec::sbs_main::RhoRegion::{Eq0, Eq1, Geq3Div4, Gthan1d3Lthan3d4, Leq1div3};
use rational_codec::sbs_main::{Coder, RhoRegion, SbsMarker};
use rational_codec::utils::IncompleteInt;
use rational_codec::{sbs1, sbs2, sbs_utils};

type Outcome = Result<u64, IncompleteInt<u64>>;

fn bounded(lo: u64, hi: u64, bits_needed: usize) -> IncompleteInt<u64> {
    IncompleteInt::new_bounded((lo, hi), bits_needed)
}

fn unbounded(start: u64) -> IncompleteInt<u64> {
    IncompleteInt::new_unbounded(start)
}

fn inner_cases() -> Vec<(u8, Outcome)> {
    vec![
        (0b00111111, Ok(3)),
        (0b01011111, Ok(4)),
        (0b01111111, Ok(5)),
        (0b10001111, Ok(6)),
        (0b10011111, Ok(7)),
        (0b10100111, Ok(8)),
        (0b10111111, Ok(11)),
        (0b11000011, Ok(12)),
        (0b11001111, Ok(15)),
        (0b11010001, Ok(16)),
        (0b11011111, Ok(23)),
        (0b11100000, Ok(24)),
        (0b11100111, Ok(31)),
        (0b11101000, Err(bounded(32, 33, 1))),
        (0b11111111, Err(unbounded(0x300))),
    ]
}

fn first_cases() -> Vec<(u8, Outcome)> {
    vec![
        (0b01111111, Ok(1)),
        (0b10011111, Ok(2)),
        (0b10101111, Ok(3)),
        (0b10111111, Ok(4)),
        (0b11000111, Ok(5)),
        (0b11001111, Ok(6)),
        (0b11010011, Ok(7)),
        (0b11011111, Ok(10)),
        (0b11100001, Ok(11)),
        (0b11100111, Ok(14)),
        (0b11101000, Ok(15)),
        (0b11101111, Ok(22)),
        (0b11110000, Err(bounded(23, 24, 1))),
        (0b11111111, Err(unbounded(0x17F))),
    ]
}

fn second_cases() -> Vec<(u8, Outcome)> {
    vec![
        (0b00111111, Ok(1)),
        (0b01111111, Ok(2)),
        (0b10011111, Ok(3)),
        (0b10101111, Ok(4)),
        (0b10111111, Ok(5)),
        (0b11000111, Ok(6)),
        (0b11001111, Ok(7)),
        (0b11010011, Ok(8)),
        (0b11011111, Ok(11)),
        (0b11100001, Ok(12)),
        (0b11100111, Ok(15)),
        (0b11101000, Ok(16)),
        (0b11101111, Ok(23)),
        (0b11110000, Err(bounded(24, 25, 1))),
        (0b11111111, Err(unbounded(0x180))),
    ]
}

fn written_value(expected: &Outcome) -> u64 {
    match expected {
        Ok(value) => *value,
        Err(IncompleteInt::Unbounded { start }) => *start,
        Err(IncompleteInt::Bounded { lo, .. }) => *lo,
    }
}

fn write_outcome(expected: &Outcome) -> Result<(), IncompleteInt<u64>> {
    match expected {
        Ok(_) => Ok(()),
        Err(incomplete) => Err(incomplete.clone()),
    }
}

#[test]
fn test_sbs_utils_read() {
    for (byte, expected) in inner_cases() {
        let stream = [byte];
        let mut bitstream = BitDecoder::new(&stream[..]);
        assert_eq!(sbs_utils::decode::read(&mut bitstream), expected);
    }
}

#[test]
fn test_sbs_utils_write() {
    for (byte, expected) in inner_cases() {
        let mut stream = [0xFF_u8];
        let mut bitstream = BitEncoder::new(&mut stream[..]);
        let outcome = sbs_utils::encode::write(&mut bitstream, written_value(&expected));
        sbs_utils::encode::write_inf(&mut bitstream);
        assert_eq!(outcome, write_outcome(&expected));
        assert_eq!(stream, [byte]);
    }
}

#[test]
fn test_sbs_utils_write_into_cleared_buffer() {
    for (byte, expected) in inner_cases() {
        let mut stream = [0x00_u8];
        let mut bitstream = BitEncoder::new(&mut stream[..]);
        let outcome = sbs_utils::encode::write(&mut bitstream, written_value(&expected));
        sbs_utils::encode::write_inf(&mut bitstream);
        assert_eq!(outcome, write_outcome(&expected));
        assert_eq!(stream, [byte]);
    }
}

#[test]
fn test_sbs1_read() {
    for (byte, expected) in first_cases() {
        let stream = [byte];
        let mut bitstream = BitDecoder::new(&stream[..]);
        assert_eq!(sbs1::decode::read(&mut bitstream), expected);
    }
}

#[test]
fn test_sbs1_write() {
    for (byte, expected) in first_cases() {
        let mut stream = [0xFF_u8];
        let mut bitstream = BitEncoder::new(&mut stream[..]);
        let outcome = sbs1::encode::write(&mut bitstream, written_value(&expected));
        sbs1::encode::write_inf(&mut bitstream);
        assert_eq!(outcome, write_outcome(&expected));
        assert_eq!(stream, [byte]);
    }
}

#[test]
fn test_sbs2_read() {
    for (byte, expected) in second_cases() {
        let stream = [byte];
        let mut bitstream = BitDecoder::new(&stream[..]);
        assert_eq!(sbs2::decode::read(&mut bitstream), expected);
    }
}

#[test]
fn test_sbs2_write() {
    for (byte, expected) in second_cases() {
        let mut stream = [0xFF_u8];
        let mut bitstream = BitEncoder::new(&mut stream[..]);
        let outcome = sbs2::encode::write(&mut bitstream, written_value(&expected));
        sbs2::encode::write_inf(&mut bitstream);
        assert_eq!(outcome, write_outcome(&expected));
        assert_eq!(stream, [byte]);
    }
}

#[test]
fn test_symbol_seed_vectors() {
    let read1 = |byte: u8| sbs1::decode::read(&mut BitDecoder::new(&[byte][..]));
    let read2 = |byte: u8| sbs2::decode::read(&mut BitDecoder::new(&[byte][..]));
    let read = |byte: u8| sbs_utils::decode::read(&mut BitDecoder::new(&[byte][..]));
    assert_eq!(read1(0b01111111), Ok(1));
    assert_eq!(read1(0b10011111), Ok(2));
    assert_eq!(read1(0b11101000), Ok(15));
    assert_eq!(read1(0b11110000), Err(bounded(23, 24, 1)));
    assert_eq!(read1(0b11111111), Err(unbounded(0x17F)));
    assert_eq!(read2(0b00111111), Ok(1));
    assert_eq!(read2(0b01111111), Ok(2));
    assert_eq!(read2(0b10011111), Ok(3));
    assert_eq!(read(0b00111111), Ok(3));
    assert_eq!(read(0b11100000), Ok(24));
    assert_eq!(read(0b11111111), Err(unbounded(0x300)));
}

#[test]
fn test_incomplete_symbols_at_every_cut() {
    // 0b1110_1101_0: the code word of 42, cut after each of its bits.
    let word: [bool; 9] = [true, true, true, false, true, true, false, true, false];
    let expected: [IncompleteInt<u64>; 9] = [
        unbounded(3),
        unbounded(6),
        unbounded(12),
        unbounded(24),
        bounded(24, 47, 5),
        bounded(32, 47, 4),
        bounded(40, 47, 3),
        bounded(40, 43, 2),
        bounded(42, 43, 1),
    ];
    for cut in 0..9 {
        let mut bytes = [0u8; 2];
        for (i, bit) in word.iter().take(cut).enumerate() {
            if *bit {
                bytes[i / 8] |= 0x80 >> (i % 8);
            }
        }
        // Read from a stream that holds exactly `cut` bits: skip the rest.
        let mut bitstream = BitDecoder::new(&bytes[..]);
        bitstream.skip_bits(16 - cut).unwrap();
        let mut shifted = [0u8; 2];
        let mut writer = BitEncoder::new(&mut shifted[..]);
        for _ in 0..(16 - cut) {
            writer.write_bit(false).unwrap();
        }
        for bit in word.iter().take(cut) {
            writer.write_bit(*bit).unwrap();
        }
        let mut reader = BitDecoder::new(&shifted[..]);
        reader.skip_bits(16 - cut).unwrap();
        assert_eq!(sbs_utils::decode::read(&mut reader), Err(expected[cut].clone()));
        assert!(bitstream.bits_left() == cut);

        // Writing the same value into a buffer with room for `cut` bits
        // reports the same.
        let mut target = [0u8; 2];
        let mut encoder = BitEncoder::new(&mut target[..]);
        for _ in 0..(16 - cut) {
            encoder.write_bit(false).unwrap();
        }
        assert_eq!(
            sbs_utils::encode::write(&mut encoder, 42),
            Err(expected[cut].clone())
        );
        assert_eq!(target, shifted);
    }
    let mut target = [0u8; 2];
    let mut encoder = BitEncoder::new(&mut target[..]);
    assert_eq!(sbs_utils::encode::write(&mut encoder, 42), Ok(()));
    assert_eq!(target, [0b1110_1101, 0b0000_0000]);
}

#[test]
fn test_large_values_round_trip() {
    for value in [3u64, 1 << 20, (1 << 31) + 12345, (3 << 30) + 7, u64::MAX, 3 << 62, 1 << 63] {
        let mut stream = [0u8; 16];
        let mut encoder = BitEncoder::new(&mut stream[..]);
        assert_eq!(sbs_utils::encode::write(&mut encoder, value), Ok(()));
        let mut decoder = BitDecoder::new(&stream[..]);
        assert_eq!(sbs_utils::decode::read(&mut decoder), Ok(value));
    }
}

#[test]
fn test_values_beyond_64_bits_read_as_the_maximum() {
    // 63 ones, a zero, the bit 0 and 63 suffix bits: a value of 65 bits.
    let mut stream = [0xFFu8; 17];
    stream[7] = 0xFE;
    stream[8] = 0x00;
    let mut decoder = BitDecoder::new(&stream[..]);
    assert_eq!(sbs_utils::decode::read(&mut decoder), Ok(u64::MAX));
    assert_eq!(decoder.bits_left(), 17 * 8 - (63 + 2 + 63));

    let ones = [0xFFu8; 8];
    let mut decoder = BitDecoder::new(&ones[..]);
    assert_eq!(
        sbs_utils::decode::read(&mut decoder),
        Err(unbounded(u64::MAX))
    );
    let ones = [0xFFu8; 7];
    let mut decoder = BitDecoder::new(&ones[..]);
    assert_eq!(
        sbs_utils::decode::read(&mut decoder),
        Err(unbounded(3 << 56))
    );
}

#[test]
fn test_write_inf_reports_the_ones_written() {
    let mut stream = [0u8; 2];
    let mut encoder = BitEncoder::new(&mut stream[..]);
    encoder.write_bit(false).unwrap();
    encoder.write_bit(false).unwrap();
    assert_eq!(sbs_utils::encode::write_inf(&mut encoder), unbounded(3 << 14));
    assert_eq!(stream, [0x3F, 0xFF]);
}

#[test]
fn test_translate_err() {
    assert_eq!(sbs1::translate_err(unbounded(0x300)), unbounded(0x2FF));
    assert_eq!(sbs1::translate_err(bounded(32, 33, 1)), bounded(31, 32, 1));
}

#[test]
fn test_region_table() {
    let table = [
        (Eq0, SbsMarker::Mode1, [Eq1, Leq1div3, Leq1div3]),
        (Leq1div3, SbsMarker::Mode1, [Geq3Div4, Leq1div3, Leq1div3]),
        (
            Gthan1d3Lthan3d4,
            SbsMarker::Mode1,
            [Gthan1d3Lthan3d4, Gthan1d3Lthan3d4, Leq1div3],
        ),
        (
            Geq3Div4,
            SbsMarker::Mode2,
            [Gthan1d3Lthan3d4, Gthan1d3Lthan3d4, Leq1div3],
        ),
        (Eq1, SbsMarker::Mode2, [Gthan1d3Lthan3d4, Leq1div3, Gthan1d3Lthan3d4]),
    ];
    for (region, mode, next) in table {
        assert_eq!(region.which(), mode);
        assert_eq!(region.next(1), next[0]);
        assert_eq!(region.next(2), next[1]);
        assert_eq!(region.next(3), next[2]);
        assert_eq!(region.next(1000), next[2]);
    }
    assert_eq!(RhoRegion::default(), Eq0);
    assert_eq!(Coder::default().0, Eq0);
}

#[test]
fn test_coder_read_uses_the_code_of_the_region() {
    for (region, cases) in [
        (RhoRegion::Eq0, first_cases()),
        (RhoRegion::Eq1, second_cases()),
    ] {
        for (byte, expected) in cases {
            let stream = [byte];
            let mut bitstream = BitDecoder::new(&stream[..]);
            let mut coder = Coder(region);
            let outcome = coder.read(&mut bitstream);
            assert_eq!(outcome, expected);
            match expected {
                Ok(value) => assert_eq!(coder.0, region.next(value)),
                Err(_) => assert_eq!(coder.0, region),
            }
        }
    }
}

#[test]
fn test_coder_write_uses_the_code_of_the_region() {
    for (region, cases) in [
        (RhoRegion::Eq0, first_cases()),
        (RhoRegion::Eq1, second_cases()),
    ] {
        for (byte, expected) in cases {
            let mut stream = [0xFF_u8];
            let mut bitstream = BitEncoder::new(&mut stream[..]);
            let mut coder = Coder(region);
            let value = written_value(&expected);
            let outcome = coder.write(&mut bitstream, value);
            match outcome {
                Ok(()) => assert_eq!(coder.0, region.next(value)),
                Err(_) => assert_eq!(coder.0, region),
            }
            coder.write_inf(&mut bitstream);
            assert_eq!(coder.0, RhoRegion::Eq0);
            assert_eq!(outcome, write_outcome(&expected));
            assert_eq!(stream, [byte]);
        }
    }
}

#[test]
fn test_read_iter_ends_with_the_incomplete_symbol() {
    // 0 | 00 | 0 | 1 111: the digits 1, 1, 1 and an open range from 23 on.
    let stream = [0x0F_u8];
    let items = Coder::default().read_iter(BitDecoder::new(&stream[..]));
    assert_eq!(items, vec![Ok(1), Ok(1), Ok(1), Err(unbounded(23))]);

    // 100 | 0 | 01 | 11: the digits 2, 1, 2 and an open range from 5 on.
    let stream = [0b1000_0111_u8];
    let items = Coder::default().read_iter(BitDecoder::new(&stream[..]));
    assert_eq!(items, vec![Ok(2), Ok(1), Ok(2), Err(unbounded(5))]);

    let items = Coder::default().read_iter(BitDecoder::new(&[][..]));
    assert_eq!(items, vec![Err(unbounded(1))]);
}

#[test]
fn test_write_iter() {
    let mut stream = [0u8; 1];
    let outcome = Coder::default().write_iter(BitEncoder::new(&mut stream[..]), &[2, 1, 2]);
    assert_eq!(outcome, Ok(()));
    assert_eq!(stream, [0b1000_0111]);

    let mut stream = [0u8; 1];
    let outcome = Coder::default().write_iter(BitEncoder::new(&mut stream[..]), &[1, 1, 1, 24]);
    assert_eq!(outcome, Err(()));
    assert_eq!(stream, [0x0F]);

    let mut stream = [0u8; 2];
    let outcome = Coder::default().write_iter(BitEncoder::new(&mut stream[..]), &[]);
    assert_eq!(outcome, Ok(()));
    assert_eq!(stream, [0xFF, 0xFF]);
}

#[test]
fn test_incomplete_int_bounds() {
    let open = IncompleteInt::new_unbounded(7u64);
    assert_eq!(open, IncompleteInt::Unbounded { start: 7 });
    assert_eq!(open.start_bound(), &7);
    assert_eq!(open.end_bound(), None);
    let closed = IncompleteInt::new_bounded((3u64, 9u64), 2);
    assert_eq!(
        closed,
        IncompleteInt::Bounded {
            lo: 3,
            hi: 9,
            bits_needed: 2
        }
    );
    assert_eq!(closed.start_bound(), &3);
    assert_eq!(closed.end_bound(), Some(&9));
}
