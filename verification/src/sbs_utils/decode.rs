//! Reading one code word.

use vstd::prelude::*;
use vstd::arithmetic::div_mod::lemma_small_mod;
use vstd::arithmetic::power2::{lemma2_to64, lemma2_to64_rest, lemma_pow2_adds, lemma_pow2_pos, pow2};
use crate::bits::{be_value, lemma_be_value_bound, lemma_be_value_push, lemma_leading_ones};
use crate::bitslice::BitDecoder;
use crate::sbs_utils::{
    clamp, decoded, decoded_len, lemma_pow2_le, lemma_prefix_value_bounds, masked_suffix,
    partial_range, prefix_value, suffix_size,
};
use crate::utils::IncompleteInt;

verus! {

/// How many suffix bits follow a prefix of `vlen_prefix` ones and `next_bit`.
pub fn suffix_len(vlen_prefix: usize, next_bit: bool) -> (len: usize)
    requires
        vlen_prefix < usize::MAX,
    ensures
        len == suffix_size(vlen_prefix as nat, next_bit),
{
    if next_bit {
        vlen_prefix + 1
    } else {
        vlen_prefix
    }
}

/// The two leading bits of the value in their place.
pub fn flen_prefix_bits(vlen_prefix: usize, next_bit: bool) -> (bits: u64)
    requires
        vlen_prefix < usize::MAX,
    ensures
        bits == clamp(prefix_value(vlen_prefix as nat, next_bit)),
        bits >= 3,
{
    let shift: usize = suffix_len(vlen_prefix, next_bit);
    proof {
        lemma_prefix_value_bounds(vlen_prefix as nat, next_bit);
    }
    if shift >= 63 {
        u64::MAX
    } else {
        let lead: u64 = if next_bit {
            2
        } else {
            3
        };
        proof {
            lemma_pow2_pos(shift as nat);
            assert(lead * pow2(shift as nat) == prefix_value(vlen_prefix as nat, next_bit));
            vstd::bits::lemma_u64_shl_is_mul(lead, shift as u64);
        }
        lead << shift
    }
}

/// The least value whose code word starts with `min_vlen_prefix` ones.
pub fn from_partial_length_indicator(min_vlen_prefix: usize) -> (start: u64)
    requires
        min_vlen_prefix < usize::MAX,
    ensures
        start == clamp(prefix_value(min_vlen_prefix as nat, false)),
        start >= 3,
{
    flen_prefix_bits(min_vlen_prefix, false)
}

/// The values whose code word has exactly `vlen_prefix` leading ones.
pub fn from_full_length_indicator(vlen_prefix: usize) -> (range: (u64, u64))
    requires
        vlen_prefix + 1 < usize::MAX,
    ensures
        range.0 == clamp(prefix_value(vlen_prefix as nat, false)),
        range.1 == clamp(prefix_value(vlen_prefix as nat + 1, false) - 1),
        3 <= range.0 <= range.1,
{
    let lo = flen_prefix_bits(vlen_prefix, false);
    let next = flen_prefix_bits(vlen_prefix + 1, false);
    proof {
        lemma_prefix_value_bounds(vlen_prefix as nat, false);
        lemma_prefix_value_bounds(vlen_prefix as nat + 1, false);
        vstd::arithmetic::power2::lemma_pow2_unfold(vlen_prefix as nat + 1);
    }
    if next == u64::MAX {
        (lo, u64::MAX)
    } else {
        (lo, next - 1)
    }
}

/// The values whose code word starts with the prefix, the next bit and the
/// `partial_suffix.1` suffix bits that `partial_suffix.0` holds.
pub fn from_full_prefix(vlen_prefix: usize, next_bit: bool, partial_suffix: (u64, usize)) -> (range:
    (u64, u64))
    requires
        vlen_prefix < usize::MAX,
        partial_suffix.1 <= suffix_size(vlen_prefix as nat, next_bit),
    ensures
        ({
            let partial = if partial_suffix.1 < 64 {
                partial_suffix.0 as nat % pow2(partial_suffix.1 as nat)
            } else {
                partial_suffix.0 as nat
            };
            let exact = partial_range(vlen_prefix as nat, next_bit, partial, partial_suffix.1 as nat);
            range.0 == clamp(exact.0) && range.1 == clamp(exact.1)
        }),
        3 <= range.0 <= range.1,
{
    let (partial_bits, partial_len) = partial_suffix;
    let partial: u64 = masked_suffix(partial_bits, partial_len);
    let size: usize = suffix_len(vlen_prefix, next_bit);
    let base: u64 = flen_prefix_bits(vlen_prefix, next_bit);
    let needed: usize = size - partial_len;
    proof {
        lemma_prefix_value_bounds(vlen_prefix as nat, next_bit);
        lemma_pow2_pos(needed as nat);
        lemma_pow2_pos(partial_len as nat);
    }
    if size >= 63 {
        assert(partial_range(
            vlen_prefix as nat,
            next_bit,
            if partial_len < 64 {
                partial_bits as nat % pow2(partial_len as nat)
            } else {
                partial_bits as nat
            },
            partial_len as nat,
        ).0 >= 0x1_0000_0000_0000_0000) by (nonlinear_arith)
            requires
                prefix_value(vlen_prefix as nat, next_bit) >= 0x1_0000_0000_0000_0000,
                pow2(needed as nat) > 0,
                needed == suffix_size(vlen_prefix as nat, next_bit) - partial_len,
        ;
        (u64::MAX, u64::MAX)
    } else {
        proof {
            let p = partial as nat;
            let unit = pow2(needed as nat);
            lemma2_to64_rest();
            lemma_pow2_le(size as nat, 62);
            lemma_pow2_le(partial_len as nat, 62);
            lemma_pow2_adds(partial_len as nat, needed as nat);
            assert(pow2(partial_len as nat) * unit == pow2(size as nat));
            assert((p + 1) * unit <= pow2(size as nat)) by (nonlinear_arith)
                requires
                    p + 1 <= pow2(partial_len as nat),
                    pow2(partial_len as nat) * unit == pow2(size as nat),
                    unit > 0,
            ;
            assert(p * unit + unit == (p + 1) * unit) by (nonlinear_arith);
            assert(p * unit <= (p + 1) * unit);
            vstd::bits::lemma_u64_shl_is_mul(partial, needed as u64);
            vstd::bits::lemma_u64_shl_is_mul((partial + 1) as u64, needed as u64);
        }
        (base + (partial << needed), base + (((partial + 1) << needed) - 1))
    }
}

/// The value that the prefix, the next bit and the whole suffix spell.
pub fn from_full(vlen_prefix: usize, next_bit: bool, suffix_bits: u64) -> (value: u64)
    requires
        vlen_prefix < usize::MAX,
    ensures
        ({
            let size = suffix_size(vlen_prefix as nat, next_bit);
            let suffix = if size < 64 {
                suffix_bits as nat % pow2(size)
            } else {
                suffix_bits as nat
            };
            value == clamp(prefix_value(vlen_prefix as nat, next_bit) + suffix)
        }),
        value >= 3,
{
    let size: usize = suffix_len(vlen_prefix, next_bit);
    let base: u64 = flen_prefix_bits(vlen_prefix, next_bit);
    let suffix: u64 = masked_suffix(suffix_bits, size);
    proof {
        lemma_prefix_value_bounds(vlen_prefix as nat, next_bit);
    }
    if size >= 63 {
        u64::MAX
    } else {
        base + suffix
    }
}

/// Reads one code word from the stream.
///
/// A complete code word gives its value and is consumed. When the stream
/// ends inside the code word, every remaining bit is consumed and the error
/// tells what the bits seen so far leave open.
pub fn read(bitstream: &mut BitDecoder) -> (outcome: Result<u64, IncompleteInt<u64>>)
    ensures
        outcome == decoded(old(bitstream)@),
        outcome.is_ok() <==> decoded_len(old(bitstream)@) <= old(bitstream)@.len(),
        outcome.is_ok() ==> final(bitstream)@ == old(bitstream)@.skip(
            decoded_len(old(bitstream)@) as int,
        ),
        outcome.is_err() ==> final(bitstream)@.len() == 0,
        outcome.is_ok() ==> outcome.unwrap() >= 3,
        outcome.is_err() ==> outcome.unwrap_err().wf() && outcome.unwrap_err().lower() >= 3,
{
    let ghost start = bitstream@;
    let mut vlen_prefix: usize = 0;
    loop
        invariant_except_break
            bitstream@ == start.skip(vlen_prefix as int),
        invariant
            start == old(bitstream)@,
            vlen_prefix > 0 ==> start.len() + 7 <= usize::MAX,
            vlen_prefix <= start.len(),
            forall|i: int| 0 <= i < vlen_prefix ==> start[i],
        ensures
            start.len() + 7 <= usize::MAX,
            vlen_prefix < start.len(),
            !start[vlen_prefix as int],
            bitstream@ == start.skip(vlen_prefix + 1),
        decreases start.len() - vlen_prefix,
    {
        match bitstream.read_bit() {
            Err(_) => {
                proof {
                    lemma_leading_ones(start, vlen_prefix as nat);
                }
                return Err(
                    IncompleteInt::Unbounded { start: from_partial_length_indicator(vlen_prefix) },
                );
            },
            Ok(bit) => {
                assert(bit == start[vlen_prefix as int]);
                assert(start.skip(vlen_prefix as int).skip(1) =~= start.skip(vlen_prefix + 1));
                if bit {
                    vlen_prefix += 1;
                } else {
                    break ;
                }
            },
        }
    }
    proof {
        lemma_leading_ones(start, vlen_prefix as nat);
    }
    let first_digit: bool = match bitstream.read_bit() {
        Err(_) => {
            let range = from_full_length_indicator(vlen_prefix);
            return Err(
                IncompleteInt::Bounded {
                    lo: range.0,
                    hi: range.1,
                    bits_needed: 1 + suffix_len(vlen_prefix, true),
                },
            );
        },
        Ok(bit) => bit,
    };
    let first: usize = vlen_prefix + 2;
    assert(start.skip(vlen_prefix + 1).skip(1) =~= start.skip(first as int));
    let size: usize = suffix_len(vlen_prefix, first_digit);
    let mut suffix_bits: u64 = 0;
    let mut sublen: usize = 0;
    proof {
        lemma2_to64();
        lemma_prefix_value_bounds(vlen_prefix as nat, first_digit);
    }
    while sublen < size
        invariant
            start == old(bitstream)@,
            start.len() + 7 <= usize::MAX,
            sublen <= size,
            first == vlen_prefix + 2,
            first + sublen <= start.len(),
            size == suffix_size(vlen_prefix as nat, first_digit),
            bitstream@ == start.skip(first + sublen),
            size <= 62 ==> suffix_bits == be_value(start.subrange(first as int, first + sublen)),
            leading_ones_known(start, vlen_prefix as nat),
            first_digit == start[vlen_prefix + 1],
        decreases size - sublen,
    {
        let ghost seen = start.subrange(first as int, first + sublen);
        proof {
            lemma_be_value_bound(seen);
            lemma_prefix_value_bounds(vlen_prefix as nat, first_digit);
            if size <= 62 {
                lemma_pow2_le(sublen as nat, 62);
                lemma2_to64_rest();
                lemma_small_mod(suffix_bits as nat, pow2(sublen as nat));
            }
        }
        let bit: bool = match bitstream.read_bit() {
            Err(_) => {
                let range = from_full_prefix(vlen_prefix, first_digit, (suffix_bits, sublen));
                proof {
                    assert(start.subrange(first as int, start.len() as int) =~= seen);
                    if size >= 63 {
                        lemma_pow2_pos((size - sublen) as nat);
                        let exact = partial_range(
                            vlen_prefix as nat,
                            first_digit,
                            be_value(seen),
                            sublen as nat,
                        );
                        assert(exact.0 >= 0x1_0000_0000_0000_0000 && exact.1
                            >= 0x1_0000_0000_0000_0000) by (nonlinear_arith)
                            requires
                                prefix_value(vlen_prefix as nat, first_digit)
                                    >= 0x1_0000_0000_0000_0000,
                                pow2((size - sublen) as nat) > 0,
                                exact == partial_range(
                                    vlen_prefix as nat,
                                    first_digit,
                                    be_value(seen),
                                    sublen as nat,
                                ),
                                size == suffix_size(vlen_prefix as nat, first_digit),
                        ;
                    }
                }
                return Err(
                    IncompleteInt::Bounded { lo: range.0, hi: range.1, bits_needed: size - sublen },
                );
            },
            Ok(bit) => bit,
        };
        proof {
            assert(start.skip(first + sublen).skip(1) =~= start.skip(first + sublen + 1));
            assert(start.subrange(first as int, first + sublen + 1) =~= seen.push(bit));
            lemma_be_value_push(seen, bit);
        }
        let low: u64 = if bit {
            1
        } else {
            0
        };
        let wider: u64 = suffix_bits << 1;
        assert(size <= 62 ==> (wider | low) == 2 * suffix_bits + low) by (bit_vector)
            requires
                wider == suffix_bits << 1,
                low <= 1,
                size <= 62 ==> suffix_bits < 0x4000_0000_0000_0000,
        ;
        suffix_bits = wider | low;
        sublen += 1;
    }
    proof {
        let seen = start.subrange(first as int, first + size);
        lemma_be_value_bound(seen);
        if size <= 62 {
            lemma_small_mod(suffix_bits as nat, pow2(size as nat));
        }
    }
    Ok(from_full(vlen_prefix, first_digit, suffix_bits))
}

/// The run of ones at the front of `bits` is `k` long and a zero follows.
pub open spec fn leading_ones_known(bits: Seq<bool>, k: nat) -> bool {
    crate::bits::leading_ones(bits) == k && k < bits.len()
}

} // verus!
