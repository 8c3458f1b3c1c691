//! Reading and writing undo each other: symbol by symbol, and word by word.

use vstd::prelude::*;
use vstd::arithmetic::power2::{lemma2_to64, lemma_pow2_adds, lemma_pow2_pos, pow2};
use crate::bits::{
    be_bits, be_value, leading_ones, lemma_be_bits_of_value, lemma_be_bits_prefix,
    lemma_be_bits_value, lemma_be_value_bound, lemma_be_value_injective, lemma_leading_ones,
    repeat,
};
use crate::bounds::{
    finish, lemma_decode_fits, lemma_leading_ones_bound, lemma_resolved_is_finish, next_bit_of,
    oks, tail_value,
};
use crate::rationals::{
    cf_digits, cf_fold, decoded_digits, decoded_fraction, divides, encoded, encoded_word, fits,
    reduced,
};
use crate::sbs_main::{
    filled, read_all, region_after, stream_of, writable, RhoRegion, SbsMarker,
};
use crate::sbs_utils::{
    lemma_codeword_of_parts, lemma_pow2_le, lemma_prefix_value_bounds, partial_range,
    prefix_value, suffix_size,
};
use crate::utils::IncompleteInt;
use crate::{sbs_main, sbs_utils};

verus! {

/// The parts of a value from 3 upwards as its code word shows them: the
/// length of the run of ones, the bit behind the zero, and the suffix.
pub open spec fn parts_of(v: nat) -> (nat, bool, nat) {
    let size = (sbs_utils::bit_length(v) - 2) as nat;
    let second = (v / pow2(size)) % 2 == 1;
    (if second {
        size
    } else {
        (size - 1) as nat
    }, !second, v % pow2(size))
}

/// A value from 3 upwards is made of its parts, and so is its code word.
pub proof fn lemma_parts_of(v: nat)
    requires
        3 <= v <= u64::MAX,
    ensures
        ({
            let (ones, next_bit, suffix) = parts_of(v);
            let size = suffix_size(ones, next_bit);
            &&& size <= 62
            &&& suffix < pow2(size)
            &&& v == prefix_value(ones, next_bit) + suffix
            &&& sbs_utils::codeword(v) == repeat(true, ones) + seq![false, next_bit] + be_bits(
                suffix,
                size,
            )
            &&& sbs_utils::codeword(v).len() == ones + 2 + size
        }),
{
    let (ones, next_bit, suffix) = parts_of(v);
    let size = (sbs_utils::bit_length(v) - 2) as nat;
    sbs_utils::lemma_second_bit(v);
    lemma2_to64();
    if size == 0 {
        assert(v / 1 == v);
    }
    sbs_utils::encode::lemma_codeword_parts(v as u64, ones, next_bit, size, suffix);
}

/// Reading the code word of a value gives the value back, whatever follows
/// the code word in the stream.
pub proof fn lemma_inner_read_of_written(v: nat, rest: Seq<bool>)
    requires
        3 <= v <= u64::MAX,
    ensures
        sbs_utils::decoded(sbs_utils::codeword(v) + rest) == Ok::<u64, IncompleteInt<u64>>(
            v as u64,
        ),
        sbs_utils::decoded_len(sbs_utils::codeword(v) + rest) == sbs_utils::codeword(v).len(),
        sbs_utils::codeword(v).len() >= 2,
{
    let (ones, next_bit, suffix) = parts_of(v);
    let size = suffix_size(ones, next_bit);
    let word = sbs_utils::codeword(v);
    let bits = word + rest;
    let k = ones as int;
    lemma_parts_of(v);
    lemma_leading_ones(bits, ones);
    assert(bits[k + 1] == next_bit);
    assert(bits.subrange(k + 2, k + 2 + size) =~= be_bits(suffix, size));
    lemma_be_bits_value(suffix, size);
}

/// A complete code word at the front of a stream is the code word of the
/// value that is read from it.
pub proof fn lemma_inner_written_of_read(bits: Seq<bool>)
    requires
        bits.len() <= 64,
        sbs_utils::decoded_len(bits) <= bits.len(),
    ensures
        sbs_utils::decoded(bits).is_ok(),
        sbs_utils::codeword(sbs_utils::decoded(bits).unwrap() as nat) == bits.take(
            sbs_utils::decoded_len(bits) as int,
        ),
{
    let ones = leading_ones(bits);
    let k = ones as int;
    let next_bit = next_bit_of(bits);
    let size = suffix_size(ones, next_bit);
    let seen = bits.subrange(k + 2, k + 2 + size);
    lemma_leading_ones_bound(bits);
    lemma_be_value_bound(seen);
    lemma_prefix_value_bounds(ones, next_bit);
    lemma_codeword_of_parts(ones, next_bit, be_value(seen));
    lemma_be_bits_of_value(seen);
    let word = repeat(true, ones) + seq![false, next_bit] + be_bits(be_value(seen), size);
    assert(word =~= bits.take(k + 2 + size)) by {
        assert forall|i: int| 0 <= i < k implies bits[i] by {
            lemma_leading_ones_all(bits, i);
        }
    }
}

/// Every bit of the run of ones at the front is a one.
pub proof fn lemma_leading_ones_all(bits: Seq<bool>, i: int)
    requires
        0 <= i < leading_ones(bits),
    ensures
        i < bits.len(),
        bits[i],
    decreases bits.len(),
{
    if i > 0 {
        lemma_leading_ones_all(bits.skip(1), i - 1);
    }
}

/// Reading the code word of a digit gives the digit back, whatever follows
/// the code word in the stream.
pub proof fn lemma_read_of_written(mode: SbsMarker, digit: u64, rest: Seq<bool>)
    requires
        sbs_main::writable(mode, digit),
    ensures
        sbs_main::decoded(mode, sbs_main::codeword(mode, digit) + rest) == Ok::<
            u64,
            IncompleteInt<u64>,
        >(digit),
        sbs_main::decoded_len(mode, sbs_main::codeword(mode, digit) + rest)
            == sbs_main::codeword(mode, digit).len(),
        sbs_main::codeword(mode, digit).len() >= 1,
{
    let word = sbs_main::codeword(mode, digit);
    let bits = word + rest;
    match mode {
        SbsMarker::Mode1 => {
            if digit > 1 {
                let inner = sbs_utils::codeword((digit + 1) as nat);
                lemma_inner_read_of_written((digit + 1) as nat, rest);
                assert(bits.skip(1) =~= inner + rest);
            }
        },
        SbsMarker::Mode2 => {
            if digit > 2 {
                let inner = sbs_utils::codeword(digit as nat);
                lemma_inner_read_of_written(digit as nat, rest);
                assert(bits.skip(1) =~= inner + rest);
            }
        },
    }
}

/// A complete code word at the front of a stream is the code word of the
/// digit that is read from it.
pub proof fn lemma_written_of_read(mode: SbsMarker, bits: Seq<bool>)
    requires
        bits.len() <= 64,
        sbs_main::decoded_len(mode, bits) <= bits.len(),
    ensures
        sbs_main::decoded(mode, bits).is_ok(),
        sbs_main::writable(mode, sbs_main::decoded(mode, bits).unwrap()),
        sbs_main::codeword(mode, sbs_main::decoded(mode, bits).unwrap()) == bits.take(
            sbs_main::decoded_len(mode, bits) as int,
        ),
{
    if bits[0] {
        let inner = bits.skip(1);
        lemma_inner_written_of_read(inner);
        crate::bounds::lemma_inner_complete(inner);
        let len = sbs_utils::decoded_len(inner);
        assert(seq![true] + inner.take(len as int) =~= bits.take(len as int + 1));
    } else {
        match mode {
            SbsMarker::Mode1 => {
                assert(seq![false] =~= bits.take(1));
            },
            SbsMarker::Mode2 => {
                assert(seq![false, bits[1]] =~= bits.take(2));
            },
        }
    }
}

/// A stream that ends in its run of ones, or just behind the zero that ends
/// the run: the code word of the value just above `3 * 2^k` begins with it.
proof fn lemma_tail_after_ones(bits: Seq<bool>)
    requires
        leading_ones(bits) <= 62,
        bits.len() <= leading_ones(bits) + 1,
    ensures
        ({
            let v = 3 * pow2(leading_ones(bits)) + 1;
            &&& 4 <= v <= u64::MAX
            &&& sbs_utils::codeword(v as nat).len() > bits.len()
            &&& sbs_utils::codeword(v as nat).take(bits.len() as int) == bits
        }),
{
    let n = bits.len();
    let ones = leading_ones(bits);
    let k = ones as int;
    lemma_leading_ones_bound(bits);
    lemma2_to64();
    vstd::arithmetic::power2::lemma2_to64_rest();
    lemma_prefix_value_bounds(ones, false);
    lemma_pow2_pos(ones);
    lemma_pow2_le(ones, 62);
    assert forall|i: int| 0 <= i < k implies bits[i] by {
        lemma_leading_ones_all(bits, i);
    }
    if ones == 0 {
        lemma_codeword_of_parts(0, true, 0);
        assert(sbs_utils::codeword(4).take(n as int) =~= bits);
    } else {
        lemma_pow2_le(1, ones);
        lemma_codeword_of_parts(ones, false, 1);
        let word = sbs_utils::codeword((3 * pow2(ones) + 1) as nat);
        assert(word.len() == ones + 2 + ones);
        assert forall|i: int| 0 <= i < n implies word[i] == bits[i] by {
            if i < k {
                assert(word[i] == repeat(true, ones)[i]);
            } else {
                assert(word[i] == seq![false, false][i - k]);
            }
        }
        assert(word.take(n as int) =~= bits);
    }
}

/// A stream that ends inside the suffix of a code word: the code word of
/// the value just above the lower end of the range begins with it.
#[verifier::rlimit(60)]
proof fn lemma_tail_in_suffix(bits: Seq<bool>)
    requires
        bits.len() <= 63,
        bits.len() >= leading_ones(bits) + 2,
        sbs_utils::decoded_len(bits) > bits.len(),
    ensures
        ({
            let ones = leading_ones(bits);
            let size = suffix_size(ones, next_bit_of(bits));
            let have = (bits.len() - ones - 2) as nat;
            let seen = bits.subrange(ones as int + 2, bits.len() as int);
            let v = partial_range(ones, next_bit_of(bits), be_value(seen), have).0 + 1;
            &&& 4 <= v <= u64::MAX
            &&& sbs_utils::codeword(v as nat).len() > bits.len()
            &&& sbs_utils::codeword(v as nat).take(bits.len() as int) == bits
        }),
{
    let n = bits.len();
    let ones = leading_ones(bits);
    let k = ones as int;
    let next_bit = next_bit_of(bits);
    let size = suffix_size(ones, next_bit);
    let have = (n - k - 2) as nat;
    let seen = bits.subrange(k + 2, n as int);
    let needed = (size - have) as nat;
    let step = pow2(needed) as int;
    let partial = be_value(seen) as int;
    let unit = pow2(size) as int;
    lemma_leading_ones_bound(bits);
    lemma2_to64();
    vstd::arithmetic::power2::lemma2_to64_rest();
    lemma_be_value_bound(seen);
    lemma_prefix_value_bounds(ones, next_bit);
    lemma_pow2_adds(have, needed);
    lemma_pow2_pos(needed);
    lemma_pow2_le(1, needed);
    lemma_pow2_le(size, 62);
    assert(partial * step + step <= unit) by (nonlinear_arith)
        requires
            partial + 1 <= pow2(have),
            pow2(have) * step == unit,
            step > 0,
    ;
    assert(0 <= partial * step) by (nonlinear_arith)
        requires
            partial >= 0,
            step > 0,
    ;
    let suffix = (partial * step + 1) as nat;
    lemma_codeword_of_parts(ones, next_bit, suffix);
    let v = (prefix_value(ones, next_bit) + suffix) as nat;
    let word = sbs_utils::codeword(v);
    let tail = be_bits(suffix, size);
    lemma_be_bits_prefix(suffix, size, have);
    assert(partial * step == step * partial) by (nonlinear_arith);
    vstd::arithmetic::div_mod::lemma_fundamental_div_mod_converse(
        suffix as int,
        step,
        partial,
        1,
    );
    lemma_be_value_injective(tail.take(have as int), seen);
    assert(word.len() == ones + 2 + size);
    assert forall|i: int| 0 <= i < n implies word[i] == bits[i] by {
        if i < k {
            lemma_leading_ones_all(bits, i);
            assert(word[i] == repeat(true, ones)[i]);
        } else if i < k + 2 {
            assert(word[i] == seq![false, next_bit][i - k]);
        } else {
            assert(word[i] == tail[i - k - 2]);
            assert(tail.take(have as int)[i - k - 2] == seen[i - k - 2]);
        }
    }
    assert(word.take(n as int) =~= bits);
}

/// The value just above the lower end of what an incomplete code word
/// leaves open has a code word that begins with the bits that were read.
pub proof fn lemma_inner_tail_word(bits: Seq<bool>)
    requires
        bits.len() <= 63,
        sbs_utils::decoded_len(bits) > bits.len(),
        sbs_utils::decoded(bits) is Err && (sbs_utils::decoded(bits)->Err_0 is Unbounded)
            ==> bits.len() <= 62,
    ensures
        sbs_utils::decoded(bits).is_err(),
        ({
            let v = sbs_utils::decoded(bits).unwrap_err().lower() + 1;
            &&& 4 <= v <= u64::MAX
            &&& sbs_utils::codeword(v as nat).len() > bits.len()
            &&& sbs_utils::codeword(v as nat).take(bits.len() as int) == bits
        }),
{
    let n = bits.len();
    let ones = leading_ones(bits);
    lemma_leading_ones_bound(bits);
    crate::bounds::lemma_inner_incomplete(bits);
    if n <= ones + 1 {
        lemma_tail_after_ones(bits);
        lemma_prefix_value_bounds(ones, false);
        lemma_pow2_le(ones, 62);
        vstd::arithmetic::power2::lemma2_to64_rest();
    } else {
        lemma_tail_in_suffix(bits);
        let next_bit = next_bit_of(bits);
        let have = (n - ones - 2) as nat;
        let seen = bits.subrange(ones as int + 2, n as int);
        let range = partial_range(ones, next_bit, be_value(seen), have);
        assert(sbs_utils::decoded(bits).unwrap_err().lower() == range.0);
    }
}

/// The digit that an incomplete symbol at the end of a stream stands for
/// has a code word that begins with the bits that were read, and is longer.
pub proof fn lemma_tail_word(mode: SbsMarker, rest: Seq<bool>)
    requires
        rest.len() <= 64,
        sbs_main::decoded_len(mode, rest) > rest.len(),
        sbs_main::decoded(mode, rest) is Err && (sbs_main::decoded(mode, rest)->Err_0
            is Unbounded) ==> rest.len() <= 62,
    ensures
        sbs_main::decoded(mode, rest).is_err(),
        ({
            let digit = sbs_main::decoded(mode, rest).unwrap_err().lower() + 1;
            &&& 2 <= digit <= u64::MAX
            &&& sbs_main::writable(mode, digit as u64)
            &&& sbs_main::codeword(mode, digit as u64).len() > rest.len()
            &&& sbs_main::codeword(mode, digit as u64).take(rest.len() as int) == rest
        }),
{
    let r = rest.len() as int;
    if r == 0 {
        assert(sbs_main::codeword(mode, 2).take(0) =~= rest);
        match mode {
            SbsMarker::Mode1 => {
                lemma_inner_read_of_written(3, Seq::<bool>::empty());
            },
            SbsMarker::Mode2 => {},
        }
    } else if rest[0] {
        let inner = rest.skip(1);
        lemma_inner_tail_word(inner);
        crate::bounds::lemma_inner_incomplete(inner);
        let v = sbs_utils::decoded(inner).unwrap_err().lower() + 1;
        let digit = sbs_main::decoded(mode, rest).unwrap_err().lower() + 1;
        let word = sbs_main::codeword(mode, digit as u64);
        let tail = sbs_utils::codeword(v as nat);
        assert(word == seq![true] + tail);
        assert forall|i: int| 0 <= i < r implies word[i] == rest[i] by {
            if i > 0 {
                assert(tail.take(r - 1)[i - 1] == inner[i - 1]);
            }
        }
        assert(word.take(r) =~= rest);
    } else {
        assert(sbs_main::codeword(mode, 2).take(1) =~= rest);
    }
}

/// An incomplete symbol that leaves every value from some start on open
/// has seen ones only.
pub proof fn lemma_unbounded_is_ones(mode: SbsMarker, rest: Seq<bool>)
    requires
        sbs_main::decoded(mode, rest) is Err,
        sbs_main::decoded(mode, rest)->Err_0 is Unbounded,
    ensures
        rest =~= repeat(true, rest.len()),
{
    if rest.len() > 0 {
        let inner = rest.skip(1);
        lemma_leading_ones_bound(inner);
        assert forall|i: int| 0 <= i < rest.len() implies rest[i] by {
            if i > 0 {
                lemma_leading_ones_all(inner, i - 1);
            }
        }
    }
}

/// Digits as Euclid's algorithm gives them: positive, and the last one is
/// not 1 unless it is the only one.
pub open spec fn canonical(digits: Seq<u64>) -> bool {
    &&& forall|i: int| 0 <= i < digits.len() ==> digits[i] >= 1
    &&& digits.len() >= 2 ==> digits.last() >= 2
}

/// The fold over the reversed digits, unfolded at the first digit.
pub proof fn lemma_fold_from_front(digits: Seq<u64>)
    requires
        digits.len() >= 1,
    ensures
        cf_fold(digits.reverse()) == (
            digits[0] * cf_fold(digits.skip(1).reverse()).0 + cf_fold(digits.skip(1).reverse()).1,
            cf_fold(digits.skip(1).reverse()).0,
        ),
{
    let turned = digits.reverse();
    assert(turned.drop_last() =~= digits.skip(1).reverse());
    assert(turned.last() == digits[0]);
}

/// The fold over reversed canonical digits holds a numerator below the
/// denominator, but for the single digit 1.
pub proof fn lemma_fold_is_proper(digits: Seq<u64>)
    requires
        canonical(digits),
    ensures
        cf_fold(digits.reverse()).0 >= 1,
        0 <= cf_fold(digits.reverse()).1 <= cf_fold(digits.reverse()).0,
        digits.len() >= 1 ==> cf_fold(digits.reverse()).1 >= 1,
        !(digits.len() == 1 && digits[0] == 1) ==> cf_fold(digits.reverse()).1 < cf_fold(
            digits.reverse(),
        ).0,
    decreases digits.len(),
{
    if digits.len() == 0 {
        assert(digits.reverse() =~= Seq::<u64>::empty());
    } else {
        let rest = digits.skip(1);
        lemma_fold_from_front(digits);
        assert(canonical(rest)) by {
            if rest.len() >= 2 {
                assert(rest.last() == digits.last());
            }
        }
        lemma_fold_is_proper(rest);
        let (num, den) = cf_fold(rest.reverse());
        let first = digits[0] as int;
        assert(first * num >= num) by (nonlinear_arith)
            requires
                first >= 1,
                num >= 1,
        ;
        if rest.len() == 0 {
            assert(rest.reverse() =~= Seq::<u64>::empty());
            if first >= 2 {
                assert(first * num >= 2 * num) by (nonlinear_arith)
                    requires
                        first >= 2,
                        num >= 1,
                ;
            }
        }
    }
}

/// Euclid's algorithm on the fraction that canonical digits fold to gives
/// the digits back.
pub proof fn lemma_digits_of_fold(digits: Seq<u64>)
    requires
        canonical(digits),
    ensures
        cf_digits(
            cf_fold(digits.reverse()).1 as nat,
            cf_fold(digits.reverse()).0 as nat,
        ) == digits,
    decreases digits.len(),
{
    lemma_fold_is_proper(digits);
    if digits.len() == 0 {
        assert(digits.reverse() =~= Seq::<u64>::empty());
        assert(cf_digits(0, 1) =~= digits);
    } else {
        let rest = digits.skip(1);
        lemma_fold_from_front(digits);
        assert(canonical(rest)) by {
            if rest.len() >= 2 {
                assert(rest.last() == digits.last());
            }
        }
        lemma_fold_is_proper(rest);
        lemma_digits_of_fold(rest);
        let (num, den) = cf_fold(rest.reverse());
        let first = digits[0] as int;
        let p = num;
        let q = first * num + den;
        assert(den < num) by {
            if rest.len() == 1 {
                assert(rest[0] == digits.last());
            }
            if rest.len() == 0 {
                assert(rest.reverse() =~= Seq::<u64>::empty());
            }
        }
        assert(first * num == num * first) by (nonlinear_arith);
        vstd::arithmetic::div_mod::lemma_fundamental_div_mod_converse(q, p, first, den);
        assert(cf_digits(p as nat, q as nat) == seq![(q / p) as u64] + cf_digits(
            (q % p) as nat,
            p as nat,
        ));
        assert(seq![digits[0]] + rest =~= digits);
    }
}

/// A complete symbol at the front of the rest of a stream: its code word is
/// the bits that it takes, and reading goes on behind them.
proof fn lemma_finish_step(pre: Seq<u64>, region: RhoRegion, rest: Seq<bool>)
    requires
        region == region_after(RhoRegion::Eq0, pre),
        rest.len() <= 64,
        sbs_main::decoded_len(region.which_spec(), rest) <= rest.len(),
    ensures
        sbs_main::decoded(region.which_spec(), rest).is_ok(),
        ({
            let len = sbs_main::decoded_len(region.which_spec(), rest);
            let value = sbs_main::decoded(region.which_spec(), rest).unwrap();
            &&& len >= 1
            &&& value >= 1
            &&& region.next_spec(value) == region_after(RhoRegion::Eq0, pre.push(value))
            &&& finish(pre, region, rest) == finish(
                pre.push(value),
                region.next_spec(value),
                rest.skip(len as int),
            )
            &&& stream_of(RhoRegion::Eq0, pre.push(value)) == stream_of(RhoRegion::Eq0, pre)
                + rest.take(len as int)
        }),
{
    let mode = region.which_spec();
    lemma_written_of_read(mode, rest);
    let value = sbs_main::decoded(mode, rest).unwrap();
    lemma_read_of_written(mode, value, Seq::<bool>::empty());
    assert(pre.push(value).drop_last() =~= pre);
}

/// The incomplete symbol at the end of a stream: the digits are canonical,
/// and their code words, cut or padded with ones, are the stream.
proof fn lemma_finish_tail(pre: Seq<u64>, region: RhoRegion, rest: Seq<bool>, used: nat)
    requires
        region == region_after(RhoRegion::Eq0, pre),
        forall|i: int| 0 <= i < pre.len() ==> pre[i] >= 1,
        pre.len() <= used,
        used + rest.len() <= 64,
        sbs_main::decoded_len(region.which_spec(), rest) > rest.len(),
    ensures
        canonical(finish(pre, region, rest)),
        filled(
            stream_of(RhoRegion::Eq0, finish(pre, region, rest)),
            stream_of(RhoRegion::Eq0, pre).len() + rest.len(),
        ) == stream_of(RhoRegion::Eq0, pre) + rest,
{
    let mode = region.which_spec();
    let head = stream_of(RhoRegion::Eq0, pre);
    let r = rest.len();
    crate::bounds::lemma_symbol_incomplete(mode, rest);
    let incomplete = sbs_main::decoded(mode, rest).unwrap_err();
    match tail_value(pre, incomplete) {
        Some(value) => {
            lemma_tail_word(mode, rest);
            let longer = pre.push(value as u64);
            let word = sbs_main::codeword(mode, value as u64);
            assert(longer.drop_last() =~= pre);
            assert(finish(pre, region, rest) == longer);
            assert(stream_of(RhoRegion::Eq0, longer) == head + word);
            assert((head + word).take((head.len() + r) as int) =~= head + word.take(r as int));
        },
        None => {
            lemma_unbounded_is_ones(mode, rest);
            assert(finish(pre, region, rest) == pre);
        },
    }
}

/// The digits that a stream stands for are canonical, and their code words,
/// cut or padded with ones, are the stream.
pub proof fn lemma_stream_of_finish(pre: Seq<u64>, region: RhoRegion, rest: Seq<bool>, used: nat)
    requires
        region == region_after(RhoRegion::Eq0, pre),
        forall|i: int| 0 <= i < pre.len() ==> pre[i] >= 1,
        pre.len() <= used,
        used + rest.len() <= 64,
    ensures
        canonical(finish(pre, region, rest)),
        filled(
            stream_of(RhoRegion::Eq0, finish(pre, region, rest)),
            stream_of(RhoRegion::Eq0, pre).len() + rest.len(),
        ) == stream_of(RhoRegion::Eq0, pre) + rest,
    decreases rest.len(),
{
    let mode = region.which_spec();
    let len = sbs_main::decoded_len(mode, rest);
    let head = stream_of(RhoRegion::Eq0, pre);
    if len <= rest.len() {
        lemma_finish_step(pre, region, rest);
        let value = sbs_main::decoded(mode, rest).unwrap();
        let longer = pre.push(value);
        lemma_stream_of_finish(longer, region.next_spec(value), rest.skip(len as int), used + len);
        assert((head + rest.take(len as int)) + rest.skip(len as int) =~= head + rest);
    } else {
        lemma_finish_tail(pre, region, rest, used);
    }
}

/// Encoding what a stream of at most 64 bits decodes to gives the stream
/// back: the decoded fraction is one that the encoder accepts, and the bits
/// that the encoder leaves in a buffer of the same length are the stream.
pub proof fn lemma_encode_of_decode(bits: Seq<bool>)
    requires
        bits.len() <= 64,
    ensures
        0 <= decoded_fraction(bits).0 <= decoded_fraction(bits).1,
        1 <= decoded_fraction(bits).1 < u64::MAX,
        encoded(
            decoded_fraction(bits).0 as u64,
            decoded_fraction(bits).1 as u64,
            bits.len(),
        ) == bits,
{
    let none = Seq::<u64>::empty();
    lemma_decode_fits(bits);
    lemma_resolved_is_finish(none, RhoRegion::Eq0, bits);
    assert(oks(none) + read_all(RhoRegion::Eq0, bits) =~= read_all(RhoRegion::Eq0, bits));
    let digits = decoded_digits(bits);
    lemma_stream_of_finish(none, RhoRegion::Eq0, bits, 0);
    lemma_digits_of_fold(digits);
    assert(stream_of(RhoRegion::Eq0, none) + bits =~= bits);
}

/// Two streams of the same length, of at most 64 bits, that decode to the
/// same fraction are the same stream.
pub proof fn lemma_decode_is_injective(a: Seq<bool>, b: Seq<bool>)
    requires
        a.len() == b.len() <= 64,
        decoded_fraction(a) == decoded_fraction(b),
    ensures
        a == b,
{
    lemma_encode_of_decode(a);
    lemma_encode_of_decode(b);
}

/// Decoding a word and encoding the fraction again gives the word back,
/// for words of every width up to 64 bits.
pub proof fn lemma_word_round_trip(word: u64, width: nat)
    requires
        width <= 64,
        word < pow2(width),
    ensures
        0 <= decoded_fraction(be_bits(word as nat, width)).0 <= decoded_fraction(
            be_bits(word as nat, width),
        ).1,
        1 <= decoded_fraction(be_bits(word as nat, width)).1 < u64::MAX,
        encoded_word(
            decoded_fraction(be_bits(word as nat, width)).0 as u64,
            decoded_fraction(be_bits(word as nat, width)).1 as u64,
            width,
        ) == word,
{
    lemma_encode_of_decode(be_bits(word as nat, width));
    lemma_be_bits_value(word as nat, width);
}

/// Two words of the same width that decode to the same fraction are the
/// same word.
pub proof fn lemma_words_decode_apart(a: u64, b: u64, width: nat)
    requires
        width <= 64,
        a < pow2(width),
        b < pow2(width),
        decoded_fraction(be_bits(a as nat, width)) == decoded_fraction(be_bits(b as nat, width)),
    ensures
        a == b,
{
    lemma_decode_is_injective(be_bits(a as nat, width), be_bits(b as nat, width));
    lemma_be_bits_value(a as nat, width);
    lemma_be_bits_value(b as nat, width);
}

/// A word of 8 bits that decodes to one half is the word that one half
/// encodes to.
pub proof fn lemma_one_half_reencodes(word: u8)
    requires
        decoded_fraction(be_bits(word as nat, 8)) == (1int, 2int),
    ensures
        encoded_word(1, 2, 8) == word,
{
    lemma2_to64();
    lemma_word_round_trip(word as u64, 8);
}

/// The code words of digits, unfolded at the first digit.
pub proof fn lemma_stream_of_front(region: RhoRegion, digits: Seq<u64>)
    requires
        digits.len() >= 1,
    ensures
        stream_of(region, digits) == sbs_main::codeword(region.which_spec(), digits[0])
            + stream_of(region.next_spec(digits[0]), digits.skip(1)),
        region_after(region, digits) == region_after(region.next_spec(digits[0]), digits.skip(1)),
    decreases digits.len(),
{
    let first = digits[0];
    let next = region.next_spec(first);
    if digits.len() == 1 {
        let none = Seq::<u64>::empty();
        assert(digits.drop_last() =~= none);
        assert(digits.skip(1) =~= none);
        assert(stream_of(region, none) =~= Seq::<bool>::empty());
        assert(stream_of(next, none) =~= Seq::<bool>::empty());
        assert(region_after(region, none) == region);
        assert(region_after(next, none) == next);
        assert(digits.last() == first);
        assert(stream_of(region, digits) =~= sbs_main::codeword(region.which_spec(), first)
            + stream_of(next, digits.skip(1)));
    } else {
        let init = digits.drop_last();
        lemma_stream_of_front(region, init);
        assert(init.skip(1) =~= digits.skip(1).drop_last());
        assert(digits.skip(1).last() == digits.last());
        assert(stream_of(region, digits) =~= sbs_main::codeword(region.which_spec(), first)
            + stream_of(next, digits.skip(1)));
    }
}

/// Whether each of `digits` can be written, in whatever code.
pub open spec fn all_below_max(digits: Seq<u64>) -> bool {
    forall|i: int| 0 <= i < digits.len() ==> 1 <= #[trigger] digits[i] < u64::MAX
}

/// A stream of ones only is an incomplete symbol that leaves every value
/// from some start on open.
pub proof fn lemma_ones_are_unbounded(mode: SbsMarker, ones: nat)
    ensures
        sbs_main::decoded(mode, repeat(true, ones)) is Err,
        sbs_main::decoded(mode, repeat(true, ones))->Err_0 is Unbounded,
{
    let rest = repeat(true, ones);
    if ones > 0 {
        lemma_leading_ones(rest.skip(1), (ones - 1) as nat);
    }
}

/// A stream of ones behind canonical digits adds no digit.
proof fn lemma_finish_of_ones(pre: Seq<u64>, region: RhoRegion, ones: nat)
    requires
        canonical(pre),
    ensures
        finish(pre, region, repeat(true, ones)) == pre,
{
    lemma_ones_are_unbounded(region.which_spec(), ones);
}

/// The first of the digits of a stream is read from its code word, and
/// reading goes on behind it.
proof fn lemma_finish_of_word(pre: Seq<u64>, region: RhoRegion, first: u64, behind: Seq<bool>)
    requires
        1 <= first < u64::MAX,
    ensures
        finish(pre, region, sbs_main::codeword(region.which_spec(), first) + behind) == finish(
            pre.push(first),
            region.next_spec(first),
            behind,
        ),
{
    let mode = region.which_spec();
    let word = sbs_main::codeword(mode, first);
    lemma_read_of_written(mode, first, behind);
    assert((word + behind).skip(word.len() as int) =~= behind);
}

/// A stream made of the code words of canonical digits and ones behind them
/// stands for the digits.
pub proof fn lemma_finish_of_stream(pre: Seq<u64>, region: RhoRegion, digits: Seq<u64>, ones: nat)
    requires
        all_below_max(digits),
        canonical(pre + digits),
    ensures
        finish(pre, region, stream_of(region, digits) + repeat(true, ones)) == pre + digits,
    decreases digits.len(),
{
    let rest = stream_of(region, digits) + repeat(true, ones);
    if digits.len() == 0 {
        assert(rest =~= repeat(true, ones));
        assert(pre + digits =~= pre);
        lemma_finish_of_ones(pre, region, ones);
    } else {
        let first = digits[0];
        let next = region.next_spec(first);
        let word = sbs_main::codeword(region.which_spec(), first);
        let behind = stream_of(next, digits.skip(1)) + repeat(true, ones);
        lemma_stream_of_front(region, digits);
        assert(rest =~= word + behind);
        lemma_finish_of_word(pre, region, first, behind);
        assert(pre.push(first) + digits.skip(1) =~= pre + digits);
        lemma_finish_of_stream(pre.push(first), next, digits.skip(1), ones);
    }
}

/// The digits of a fraction below 1: each is positive and at most the
/// denominator, and the last one is at least 2.
pub proof fn lemma_cf_digits_below_one(p: nat, q: nat)
    requires
        p < q <= u64::MAX,
    ensures
        forall|i: int| 0 <= i < cf_digits(p, q).len() ==> 1 <= #[trigger] cf_digits(p, q)[i] <= q,
        cf_digits(p, q).len() >= 1 ==> cf_digits(p, q).last() >= 2,
        p >= 2 ==> forall|i: int| 0 <= i < cf_digits(p, q).len() ==> #[trigger] cf_digits(p, q)[i] < q,
        (cf_digits(p, q).len() == 0) == (p == 0),
    decreases p,
{
    if p > 0 {
        let a = q / p;
        let rest = cf_digits(q % p, p);
        let digits = cf_digits(p, q);
        vstd::arithmetic::div_mod::lemma_fundamental_div_mod(q as int, p as int);
        assert(1 <= a <= q && (p >= 2 ==> a < q) && (q % p == 0 ==> a >= 2)) by (nonlinear_arith)
            requires
                q == p * a + q % p,
                0 <= q % p < p,
                0 < p < q,
        ;
        lemma_cf_digits_below_one(q % p, p);
        assert(digits == seq![a as u64] + rest);
        assert forall|i: int| 0 <= i < digits.len() implies 1 <= #[trigger] digits[i] <= q && (p
            >= 2 ==> digits[i] < q) by {
            if i > 0 {
                assert(digits[i] == rest[i - 1]);
            }
        }
        if rest.len() > 0 {
            assert(digits.last() == rest.last());
        }
    }
}

/// The digits of a fraction between 0 and 1 are canonical, and each can be
/// written unless the fraction is `1 / u64::MAX`.
pub proof fn lemma_cf_digits_canonical(p: nat, q: nat)
    requires
        p <= q <= u64::MAX,
        1 <= q,
    ensures
        canonical(cf_digits(p, q)),
        !(p == 1 && q == u64::MAX) ==> all_below_max(cf_digits(p, q)),
{
    let digits = cf_digits(p, q);
    if p == q {
        assert(q / p == 1 && q % p == 0) by (nonlinear_arith)
            requires
                p == q,
                p > 0,
        ;
        assert(cf_digits(0, p) =~= Seq::<u64>::empty());
        assert(digits =~= seq![1u64]);
    } else {
        lemma_cf_digits_below_one(p, q);
        if p == 1 {
            assert(q / 1 == q && q % 1 == 0);
            assert(cf_digits(0, 1) =~= Seq::<u64>::empty());
            assert(digits =~= seq![q as u64]);
        }
    }
}

/// The greatest number that divides both `p` and `q`, as Euclid's algorithm
/// finds it.
pub open spec fn common_measure(p: nat, q: nat) -> nat
    decreases p,
{
    if p == 0 {
        q
    } else {
        common_measure(q % p, p)
    }
}

/// The digits of a fraction fold to the fraction with its common measure
/// taken out.
pub proof fn lemma_fold_of_digits(p: nat, q: nat)
    requires
        p <= q <= u64::MAX,
    ensures
        q == common_measure(p, q) * cf_fold(cf_digits(p, q).reverse()).0,
        p == common_measure(p, q) * cf_fold(cf_digits(p, q).reverse()).1,
    decreases p,
{
    let digits = cf_digits(p, q);
    let g = common_measure(p, q) as int;
    if p == 0 {
        assert(digits.reverse() =~= Seq::<u64>::empty());
        assert(cf_fold(digits.reverse()) == (1int, 0int));
        assert(g == q);
        assert(g * 1 == g && g * 0 == 0) by (nonlinear_arith);
    } else {
        let a = q / p;
        let r = q % p;
        let rest = cf_digits(r, p);
        assert(g == common_measure(r, p));
        lemma_fold_of_digits(r, p);
        vstd::arithmetic::div_mod::lemma_fundamental_div_mod(q as int, p as int);
        assert(0 <= a <= q) by (nonlinear_arith)
            requires
                q == p * a + r,
                r >= 0,
                p >= 1,
                a == q / p,
        ;
        assert(digits == seq![a as u64] + rest);
        assert(digits.skip(1) =~= rest);
        assert(digits[0] == a);
        lemma_fold_from_front(digits);
        let (num, den) = cf_fold(rest.reverse());
        assert(cf_fold(digits.reverse()) == (a * num + den, num));
        assert(p == g * num);
        assert(r == g * den);
        assert(q == g * (a * num + den)) by (nonlinear_arith)
            requires
                q == p * a + r,
                p == g * num,
                r == g * den,
        ;
    }
}

/// What a fraction in lowest terms encodes to decodes to the fraction,
/// wherever all its digits fit the buffer.
pub proof fn lemma_decode_of_encode(p: u64, q: u64, width: nat)
    requires
        1 <= q,
        p <= q,
        !(p == 1 && q == u64::MAX),
        reduced(p as nat, q as nat),
        fits(p, q, width),
    ensures
        decoded_fraction(encoded(p, q, width)) == (p as int, q as int),
{
    let digits = cf_digits(p as nat, q as nat);
    let none = Seq::<u64>::empty();
    let word = stream_of(RhoRegion::Eq0, digits);
    let ones = (width - word.len()) as nat;
    let bits = encoded(p, q, width);
    lemma_cf_digits_canonical(p as nat, q as nat);
    assert(bits =~= word + repeat(true, ones)) by {
        assert(word.take(word.len() as int) =~= word);
        assert(repeat(true, 0) =~= Seq::<bool>::empty());
    }
    assert(none + digits =~= digits);
    lemma_finish_of_stream(none, RhoRegion::Eq0, digits, ones);
    lemma_resolved_is_finish(none, RhoRegion::Eq0, bits);
    assert(oks(none) + read_all(RhoRegion::Eq0, bits) =~= read_all(RhoRegion::Eq0, bits));
    assert(decoded_digits(bits) == digits);
    lemma_fold_of_digits(p as nat, q as nat);
    let g = common_measure(p as nat, q as nat);
    let (num, den) = cf_fold(digits.reverse());
    assert(g == 1) by {
        if g == 0 {
            assert(0 * num == 0) by (nonlinear_arith);
        } else if g >= 2 {
            vstd::arithmetic::div_mod::lemma_mod_multiples_basic(num, g as int);
            vstd::arithmetic::div_mod::lemma_mod_multiples_basic(den, g as int);
            assert(g * num == num * g && g * den == den * g) by (nonlinear_arith);
            assert(divides(g, p as nat) && divides(g, q as nat));
        }
    }
    assert(1 * num == num && 1 * den == den);
}

} // verus!
