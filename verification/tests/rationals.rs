use std::collections::HashSet;

use rational_codec::rationals::{
    bytes_to_word, cf_iter_to_rational64, decode_c16, decode_c32, decode_c64, decode_c8,
    decode_stream, encode_c16, encode_c32, encode_c64, encode_c8, encode_stream,
    map_resolve_incomplete_ints, rational64_to_cf_iter, reversed, word_to_bytes,
};
use rational_codec::utils::IncompleteInt;

fn gcd(mut a: u64, mut b: u64) -> u64 {
    if b < a {
        std::mem::swap(&mut a, &mut b);
    }
    while a > 0 {
        b %= a;
        std::mem::swap(&mut a, &mut b);
    }
    b
}

fn unwrap_either<W>(outcome: Result<W, W>) -> W {
    match outcome {
        Ok(word) => word,
        Err(word) => word,
    }
}

#[test]
fn test_decode_c8_uniqueness() {
    let encodings = u8::MIN..=u8::MAX;
    let mut decodings = encodings.map(|byte| decode_c8(&byte));

    let mut duplicates = HashSet::new();
    assert!(decodings.all(|decoding| duplicates.insert(decoding)));
}

#[test]
fn test_decode_c16_uniqueness() {
    let encodings = u16::MIN..=u16::MAX;
    let mut decodings = encodings.map(|byte| decode_c16(&byte));

    let mut duplicates = HashSet::new();
    assert!(decodings.all(|decoding| duplicates.insert(decoding)));
}

#[test]
fn test_c8_denominator_12_incomplete() {
    const DENOMINATOR: u64 = 12;
    assert!((1..DENOMINATOR)
        .filter(|numerator| gcd(*numerator, DENOMINATOR) == 1)
        .any(|numerator| encode_c8(numerator, DENOMINATOR).is_err()));
}

#[test]
fn test_c16_denominator_126_incomplete() {
    const DENOMINATOR: u64 = 126;
    assert!((1..DENOMINATOR)
        .filter(|numerator| gcd(*numerator, DENOMINATOR) == 1)
        .any(|numerator| encode_c16(numerator, DENOMINATOR).is_err()));
}

#[test]
fn test_c32_denominator_13860_incomplete() {
    const DENOMINATOR: u64 = 13860;
    assert!((1..DENOMINATOR)
        .filter(|numerator| gcd(*numerator, DENOMINATOR) == 1)
        .any(|numerator| encode_c32(numerator, DENOMINATOR).is_err()));
}

#[test]
fn test_gcd() {
    assert_eq!(gcd(5, 0), 5);

    assert_eq!(gcd(5, 2), 1);
    assert_eq!(gcd(2, 5), 1);

    assert_eq!(gcd(128, 36), 4);
}

#[test]
fn test_c8_decode_encode_inverse() {
    for encoding in u8::MIN..=u8::MAX {
        let (numerator, denominator) = decode_c8(&encoding);
        let encoding2 = unwrap_either(encode_c8(numerator, denominator));
        assert_eq!(encoding, encoding2);
    }
}

#[test]
fn test_c16_decode_encode_inverse() {
    for encoding in u16::MIN..=u16::MAX {
        let (numerator, denominator) = decode_c16(&encoding);
        let encoding2 = unwrap_either(encode_c16(numerator, denominator));
        assert_eq!(encoding, encoding2);
    }
}

#[test]
fn test_c32_decode_encode_inverse() {
    let mut encoding: u32 = 0x9E37_79B9;
    for _ in 0..20000 {
        encoding = encoding.wrapping_mul(0x0019_660D).wrapping_add(0x3C6E_F35F);
        let (numerator, denominator) = decode_c32(&encoding);
        let encoding2 = unwrap_either(encode_c32(numerator, denominator));
        assert_eq!(encoding, encoding2);
    }
}

#[test]
fn test_c64_decode_encode_inverse() {
    let mut encoding: u64 = 0x9E37_79B9_7F4A_7C15;
    for _ in 0..20000 {
        encoding = encoding
            .wrapping_mul(6364136223846793005)
            .wrapping_add(1442695040888963407);
        let (numerator, denominator) = decode_c64(&encoding);
        if numerator == 1 && denominator == u64::MAX {
            continue;
        }
        let encoding2 = unwrap_either(encode_c64(numerator, denominator));
        assert_eq!(encoding, encoding2);
    }
}

#[test]
fn test_c8_denominator_11_completeness() {
    for denominator in 1..=11u64 {
        for numerator in 0..=denominator {
            if gcd(numerator, denominator) == 1 {
                assert!(encode_c8(numerator, denominator).is_ok());
            }
        }
    }
}

#[test]
fn test_c16_denominator_125_completeness() {
    for denominator in 1..=125u64 {
        for numerator in 0..=denominator {
            if gcd(numerator, denominator) == 1 {
                assert!(encode_c16(numerator, denominator).is_ok());
            }
        }
    }
}

#[test]
fn test_decode_c8_seed_words() {
    assert_eq!(decode_c8(&0x7F), (1, 1));
    assert_eq!(decode_c8(&0xFF), (0, 1));
    assert_eq!(decode_c8(&0x9F), (1, 2));
    assert_eq!(decode_c8(&0x0F), (49, 74));
    assert_eq!(decode_c8(&0xFE), (1, 192));
}

#[test]
fn test_one_half_reencodes_bit_exact() {
    for word in u8::MIN..=u8::MAX {
        if decode_c8(&word) == (1, 2) {
            assert_eq!(encode_c8(1, 2), Ok(word));
        }
    }
    assert_eq!(encode_c8(1, 2), Ok(0x9F));
}

#[test]
fn test_every_small_fraction_has_a_c8_word() {
    let decodings: HashSet<(u64, u64)> = (u8::MIN..=u8::MAX).map(|word| decode_c8(&word)).collect();
    for denominator in 1..=11u64 {
        for numerator in 1..=denominator {
            if gcd(numerator, denominator) == 1 {
                assert!(decodings.contains(&(numerator, denominator)));
            }
        }
    }
}

#[test]
fn test_decode_is_a_fraction_in_the_unit_interval() {
    for word in u16::MIN..=u16::MAX {
        let (numerator, denominator) = decode_c16(&word);
        assert!(denominator >= 1);
        assert!(numerator <= denominator);
    }
    assert_eq!(decode_c64(&u64::MAX), (0, 1));
    assert_eq!(decode_c64(&0xFFFF_FFFF_FFFF_FFFE), (1, 3 << 62));
    assert_eq!(decode_c32(&0xFFFF_FFFE), (1, 3 << 30));
}

fn digits_of(numerator: u64, denominator: u64) -> Vec<u64> {
    let mut digits = rational64_to_cf_iter(numerator, denominator);
    let mut all = Vec::new();
    while let Some(digit) = digits.next() {
        all.push(digit);
    }
    assert_eq!(digits.next(), None);
    all
}

#[test]
fn test_continued_fraction_digits() {
    assert_eq!(digits_of(0, 1), Vec::<u64>::new());
    assert_eq!(digits_of(0, 9), Vec::<u64>::new());
    assert_eq!(digits_of(1, 1), vec![1]);
    assert_eq!(digits_of(1, 2), vec![2]);
    assert_eq!(digits_of(49, 74), vec![1, 1, 1, 24]);
    assert_eq!(digits_of(5, 12), vec![2, 2, 2]);
    assert_eq!(digits_of(4, 8), vec![2]);
    assert_eq!(digits_of(1, u64::MAX), vec![u64::MAX]);
    assert_eq!(digits_of(355, 1130), vec![3, 5, 2, 6]);
}

#[test]
fn test_fold_of_digits() {
    assert_eq!(cf_iter_to_rational64(&[]), (0, 1));
    assert_eq!(cf_iter_to_rational64(&[1]), (1, 1));
    assert_eq!(cf_iter_to_rational64(&[2]), (1, 2));
    assert_eq!(cf_iter_to_rational64(&[24, 1, 1, 1]), (49, 74));
    assert_eq!(cf_iter_to_rational64(&[2, 2, 2]), (5, 12));
    assert_eq!(cf_iter_to_rational64(&[3, 1, 1, 4, 2, 5, 3]), (387, 1232));
    assert_eq!(cf_iter_to_rational64(&[6, 2, 5, 3]), (71, 226));
    for denominator in 1..=60u64 {
        for numerator in 0..=denominator {
            let divisor = gcd(numerator, denominator);
            let digits = digits_of(numerator, denominator);
            assert_eq!(
                cf_iter_to_rational64(&reversed(&digits)),
                (numerator / divisor, denominator / divisor)
            );
        }
    }
}

#[test]
fn test_reversed() {
    assert_eq!(reversed(&[]), Vec::<u64>::new());
    assert_eq!(reversed(&[1, 2, 3]), vec![3, 2, 1]);
}

#[test]
fn test_resolving_incomplete_symbols() {
    let open = |start: u64| Err(IncompleteInt::new_unbounded(start));
    let closed = |lo: u64, hi: u64| Err(IncompleteInt::new_bounded((lo, hi), 1));
    assert_eq!(map_resolve_incomplete_ints(&[]), Vec::<u64>::new());
    assert_eq!(map_resolve_incomplete_ints(&[open(1)]), Vec::<u64>::new());
    assert_eq!(map_resolve_incomplete_ints(&[Ok(1), open(5)]), vec![1]);
    assert_eq!(map_resolve_incomplete_ints(&[Ok(4), Ok(1), open(5)]), vec![4, 1, 6]);
    assert_eq!(map_resolve_incomplete_ints(&[Ok(1), Ok(4), open(5)]), vec![1, 4]);
    assert_eq!(map_resolve_incomplete_ints(&[Ok(1), Ok(2), open(5)]), vec![1, 2]);
    assert_eq!(map_resolve_incomplete_ints(&[closed(23, 24)]), vec![24]);
    assert_eq!(map_resolve_incomplete_ints(&[Ok(3), closed(1, 2)]), vec![3, 2]);
    assert_eq!(
        map_resolve_incomplete_ints(&[Ok(3), open(7), Ok(1), open(9), closed(1, 2)]),
        vec![3, 1, 10, 2]
    );
}

#[test]
fn test_word_and_bytes() {
    assert_eq!(word_to_bytes(0x1234_5678_9ABC_DEF0, 8), 0x1234_5678_9ABC_DEF0u64.to_be_bytes());
    assert_eq!(word_to_bytes(0x1234_5678_9ABC_DEF0, 3), vec![0xBC, 0xDE, 0xF0]);
    assert_eq!(word_to_bytes(0xAB, 1), vec![0xAB]);
    assert_eq!(word_to_bytes(0xAB, 0), Vec::<u8>::new());
    assert_eq!(bytes_to_word(&[]), 0);
    assert_eq!(bytes_to_word(&[0xAB]), 0xAB);
    assert_eq!(bytes_to_word(&[0x12, 0x34, 0x56]), 0x12_3456);
    assert_eq!(
        bytes_to_word(&[0x12, 0x34, 0x56, 0x78, 0x9A, 0xBC, 0xDE, 0xF0]),
        0x1234_5678_9ABC_DEF0
    );
}

#[test]
fn test_streams_of_other_lengths() {
    let mut buffer = [0u8; 3];
    assert!(encode_stream(49, 74, &mut buffer));
    assert_eq!(buffer, [0x0F, 0x0F, 0xFF]);
    assert_eq!(decode_stream(&buffer), (49, 74));

    let mut buffer = [0u8; 1];
    assert!(!encode_stream(5, 12, &mut buffer));
    assert_eq!(encode_c8(5, 12), Err(buffer[0]));
    let mut buffer = [0u8; 2];
    assert!(encode_stream(5, 12, &mut buffer));
    assert_eq!(decode_stream(&buffer), (5, 12));

    let mut empty: [u8; 0] = [];
    assert!(encode_stream(0, 1, &mut empty));
    assert!(!encode_stream(1, 1, &mut empty));
    assert_eq!(decode_stream(&empty), (0, 1));

    for length in 0..=8usize {
        for (numerator, denominator) in [(1u64, 3u64), (2, 7), (13, 21), (1, 1000), (999, 1000)] {
            let mut buffer = vec![0u8; length];
            let complete = encode_stream(numerator, denominator, &mut buffer);
            let decoded = decode_stream(&buffer);
            if complete {
                assert_eq!(decoded, (numerator, denominator));
            }
            let mut again = vec![0u8; length];
            encode_stream(decoded.0, decoded.1, &mut again);
            assert_eq!(again, buffer);
        }
    }
}

#[test]
fn test_encode_exact_words() {
    assert_eq!(encode_c8(0, 1), Ok(0xFF));
    assert_eq!(encode_c8(1, 1), Ok(0x7F));
    assert_eq!(encode_c8(1, 2), Ok(0x9F));
    assert_eq!(encode_c8(2, 4), Ok(0x9F));
    assert_eq!(encode_c8(1, 192), Err(0xFE));
    assert_eq!(encode_c8(49, 74), Err(0x0F));
    assert_eq!(encode_c16(1, 2), Ok(0x9FFF));
    assert_eq!(encode_c16(49, 74), Ok(0x0F0F));
    assert_eq!(encode_c8(5, 12), Err(0x92));
    assert_eq!(encode_c32(1, 2), Ok(0x9FFF_FFFF));
    assert_eq!(encode_c64(1, 2), Ok(0x9FFF_FFFF_FFFF_FFFF));
    assert_eq!(encode_c64(0, 5), Ok(u64::MAX));
    assert_eq!(encode_c64(1, 3 << 62), Err(0xFFFF_FFFF_FFFF_FFFE));
    assert_eq!(encode_c64(1, u64::MAX - 1), Err(0xFFFF_FFFF_FFFF_FFFE));
}

#[test]
fn test_c32_denominator_13859_completeness() {
    let mut denominators: Vec<u64> = (13840..=13859).collect();
    denominators.extend([1, 2, 3, 126, 1000, 4096, 9973, 12870]);
    for denominator in denominators {
        for numerator in 0..=denominator {
            if gcd(numerator, denominator) == 1 {
                assert!(encode_c32(numerator, denominator).is_ok());
            }
        }
    }
}

#[test]
fn test_decoded_fractions_are_in_lowest_terms() {
    for word in u16::MIN..=u16::MAX {
        let (numerator, denominator) = decode_c16(&word);
        assert_eq!(gcd(numerator, denominator), 1);
    }
    assert_eq!(decode_c8(&0xFF), (0, 1));
}

#[test]
fn test_encoding_what_fits_decodes_to_the_fraction() {
    for denominator in 1..=200u64 {
        for numerator in 0..=denominator {
            if gcd(numerator, denominator) != 1 {
                continue;
            }
            if let Ok(word) = encode_c8(numerator, denominator) {
                assert_eq!(decode_c8(&word), (numerator, denominator));
            }
            if let Ok(word) = encode_c16(numerator, denominator) {
                assert_eq!(decode_c16(&word), (numerator, denominator));
            }
            let word = encode_c32(numerator, denominator).unwrap();
            assert_eq!(decode_c32(&word), (numerator, denominator));
            let word = encode_c64(numerator, denominator).unwrap();
            assert_eq!(decode_c64(&word), (numerator, denominator));
        }
    }
}

#[test]
fn test_fractions_just_beyond_the_thresholds() {
    assert!(encode_c8(5, 12).is_err());
    assert!(encode_c16(5, 12).is_ok());
    assert!(encode_c16(55, 126).is_err());
    assert!(encode_c32(55, 126).is_ok());
    assert!(encode_c32(5741, 13860).is_err());
    assert!(encode_c64(5741, 13860).is_ok());
    assert_eq!(gcd(55, 126), 1);
    assert_eq!(gcd(5741, 13860), 1);
}
