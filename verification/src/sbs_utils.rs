//! The self-delimiting code for integers from 3 upwards.
//!
//! A value `v` with `n + 2` significant bits is written as a run of ones, a
//! zero, one bit that tells 3 from 2 in the two leading bits of `v` (zero for
//! `11`, one for `10`) and the `n` lower bits of `v`. The run of ones has `n`
//! ones where the leading bits are `11`, and `n - 1` where they are `10`.
//!
//! Values are 64-bit: where a bound that the code implies exceeds that, it is
//! reported as `u64::MAX`.

use vstd::prelude::*;
use vstd::arithmetic::power2::{
    lemma2_to64, lemma2_to64_rest, lemma_pow2_pos, lemma_pow2_strictly_increases,
    lemma_pow2_unfold, pow2,
};
use crate::bits::{be_bits, be_value, leading_ones, repeat};
use crate::utils::IncompleteInt;

pub mod decode;
pub mod encode;

verus! {

/// `x`, or the nearest 64-bit value.
pub open spec fn clamp(x: int) -> u64 {
    if x < 0 {
        0
    } else if x > u64::MAX {
        u64::MAX
    } else {
        x as u64
    }
}

/// The number of bits that follow the length prefix and the next bit.
pub open spec fn suffix_size(vlen_prefix: nat, next_bit: bool) -> nat {
    if next_bit {
        vlen_prefix + 1
    } else {
        vlen_prefix
    }
}

/// The two leading bits of the value, shifted to their place: `11` where the
/// next bit is zero, `10` where it is one.
pub open spec fn prefix_value(vlen_prefix: nat, next_bit: bool) -> int {
    if next_bit {
        2 * pow2(vlen_prefix + 1) as int
    } else {
        3 * pow2(vlen_prefix) as int
    }
}

/// What is known of a value once the length prefix, the next bit and
/// `partial_len` suffix bits spelling `partial` have been seen.
pub open spec fn partial_range(
    vlen_prefix: nat,
    next_bit: bool,
    partial: nat,
    partial_len: nat,
) -> (int, int) {
    let needed = (suffix_size(vlen_prefix, next_bit) - partial_len) as nat;
    let base = prefix_value(vlen_prefix, next_bit);
    (base + partial * pow2(needed), base + (partial + 1) * pow2(needed) - 1)
}

/// What a reader makes of `bits` when they are all that is left of the stream.
pub open spec fn decoded(bits: Seq<bool>) -> Result<u64, IncompleteInt<u64>> {
    let ones = leading_ones(bits);
    let k = ones as int;
    if bits.len() <= k {
        Err(IncompleteInt::Unbounded { start: clamp(prefix_value(ones, false)) })
    } else if bits.len() == k + 1 {
        Err(
            IncompleteInt::Bounded {
                lo: clamp(prefix_value(ones, false)),
                hi: clamp(prefix_value(ones + 1, false) - 1),
                bits_needed: (k + 2) as usize,
            },
        )
    } else {
        let next_bit = bits[k + 1];
        let size = suffix_size(ones, next_bit) as int;
        let have = bits.len() - k - 2;
        if have >= size {
            Ok(
                clamp(
                    prefix_value(ones, next_bit) + be_value(bits.subrange(k + 2, k + 2 + size)),
                ),
            )
        } else {
            let range = partial_range(
                ones,
                next_bit,
                be_value(bits.subrange(k + 2, bits.len() as int)),
                have as nat,
            );
            Err(
                IncompleteInt::Bounded {
                    lo: clamp(range.0),
                    hi: clamp(range.1),
                    bits_needed: (size - have) as usize,
                },
            )
        }
    }
}

/// The length of the code word at the front of `bits`; where the stream ends
/// before the length is known, one more than there are bits.
pub open spec fn decoded_len(bits: Seq<bool>) -> nat {
    let ones = leading_ones(bits);
    if bits.len() < ones + 2 {
        bits.len() + 1
    } else {
        ones + 2 + suffix_size(ones, bits[ones as int + 1])
    }
}

/// The number of significant bits of `v`.
pub open spec fn bit_length(v: nat) -> nat
    decreases v,
{
    if v == 0 {
        0
    } else {
        1 + bit_length(v / 2)
    }
}

/// The code word of `v`, for `v` from 3 upwards.
pub open spec fn codeword(v: nat) -> Seq<bool> {
    let flen = bit_length(v);
    let size = (flen - 2) as nat;
    let second = (v / pow2((flen - 2) as nat)) % 2 == 1;
    let vlen_prefix = if second {
        size
    } else {
        (size - 1) as nat
    };
    repeat(true, vlen_prefix) + seq![false, !second] + be_bits(v % pow2(size), size)
}

/// The low `len` bits of `bits`.
pub fn masked_suffix(bits: u64, len: usize) -> (low: u64)
    ensures
        len >= 64 ==> low == bits,
        len < 64 ==> low == bits % (pow2(len as nat) as u64),
        len < 64 ==> low < pow2(len as nat),
{
    if len >= 64 {
        bits
    } else {
        let low: u64 = bits & !(u64::MAX << len);
        proof {
            let shift = len as u64;
            assert(!(u64::MAX << len) == (1u64 << shift) - 1) by (bit_vector)
                requires
                    len < 64,
                    shift == len,
            ;
            vstd::bits::lemma_u64_pow2_no_overflow(len as nat);
            vstd::bits::lemma_u64_shl_is_mul(1, shift);
            vstd::bits::lemma_u64_low_bits_mask_is_mod(bits, len as nat);
            assert(vstd::bits::low_bits_mask(len as nat) == (1u64 << shift) - 1);
        }
        low
    }
}

/// Whether bit `index` of `bits` is set, counted from the least significant.
pub fn masked_bit(bits: u64, index: usize) -> (set: bool)
    requires
        index < 64,
    ensures
        set == ((bits / (pow2(index as nat) as u64)) % 2 == 1),
{
    proof {
        let shift = index as u64;
        assert(((bits & (1u64 << index)) != 0) == ((bits >> shift) % 2 == 1)) by (bit_vector)
            requires
                index < 64,
                shift == index,
        ;
        vstd::bits::lemma_u64_shr_is_div(bits, shift);
        vstd::bits::lemma_u64_pow2_no_overflow(index as nat);
    }
    (bits & (1u64 << index)) != 0
}

/// Powers of two grow with the exponent.
pub proof fn lemma_pow2_le(a: nat, b: nat)
    requires
        a <= b,
    ensures
        pow2(a) <= pow2(b),
{
    if a < b {
        lemma_pow2_strictly_increases(a, b);
    }
}

/// A value with a suffix of at most 62 bits fits 64 bits; one with a longer
/// suffix does not.
pub proof fn lemma_prefix_value_bounds(vlen_prefix: nat, next_bit: bool)
    ensures
        prefix_value(vlen_prefix, next_bit) >= 2 * pow2(suffix_size(vlen_prefix, next_bit)),
        prefix_value(vlen_prefix, next_bit) <= 3 * pow2(suffix_size(vlen_prefix, next_bit)),
        prefix_value(vlen_prefix, next_bit) >= 3,
        suffix_size(vlen_prefix, next_bit) <= 62 ==> prefix_value(vlen_prefix, next_bit) + pow2(
            suffix_size(vlen_prefix, next_bit),
        ) <= 0x1_0000_0000_0000_0000,
        suffix_size(vlen_prefix, next_bit) >= 63 ==> prefix_value(vlen_prefix, next_bit)
            >= 0x1_0000_0000_0000_0000,
{
    let size = suffix_size(vlen_prefix, next_bit);
    lemma2_to64();
    lemma2_to64_rest();
    lemma_pow2_le(0, vlen_prefix);
    if size <= 62 {
        lemma_pow2_le(size, 62);
    } else {
        lemma_pow2_le(63, size);
    }
}

/// The significant bits are those that `leading_zeros` leaves.
pub proof fn lemma_bit_length_is_width(v: u64)
    ensures
        bit_length(v as nat) == 64 - vstd::std_specs::bits::u64_leading_zeros(v),
    decreases v,
{
    reveal(vstd::std_specs::bits::u64_leading_zeros);
    if v != 0 {
        lemma_bit_length_is_width(v / 2);
    }
}

/// A positive number lies between the two powers of two that its length names.
pub proof fn lemma_bit_length_bounds(v: nat)
    requires
        v > 0,
    ensures
        bit_length(v) >= 1,
        pow2((bit_length(v) - 1) as nat) <= v < pow2(bit_length(v)),
    decreases v,
{
    lemma2_to64();
    if v == 1 {
        assert(bit_length(1) == 1 + bit_length(0));
    } else {
        lemma_bit_length_bounds(v / 2);
        lemma_pow2_unfold(bit_length(v));
        lemma_pow2_unfold((bit_length(v) - 1) as nat);
    }
}

/// The second significant bit of a value from 2 upwards, as the leading
/// bits `11` or `10` show it.
pub proof fn lemma_second_bit(v: nat)
    requires
        v >= 2,
    ensures
        bit_length(v) >= 2,
        ({
            let size = (bit_length(v) - 2) as nat;
            let second = (v / pow2(size)) % 2 == 1;
            &&& v / pow2(size) == if second {
                3int
            } else {
                2int
            }
            &&& v == (v / pow2(size)) * pow2(size) + v % pow2(size)
            &&& v % pow2(size) < pow2(size)
        }),
{
    lemma_bit_length_bounds(v);
    lemma2_to64();
    let flen = bit_length(v);
    if flen < 2 {
        assert(pow2(flen) <= pow2(1)) by {
            lemma_pow2_le(flen, 1);
        }
    }
    let size = (flen - 2) as nat;
    let unit = pow2(size) as int;
    lemma_pow2_pos(size);
    lemma_pow2_unfold(flen);
    lemma_pow2_unfold((flen - 1) as nat);
    assert(2 * unit <= v < 4 * unit);
    vstd::arithmetic::div_mod::lemma_fundamental_div_mod(v as int, unit);
    let q = v as int / unit;
    assert(2 <= q < 4) by (nonlinear_arith)
        requires
            2 * unit <= v < 4 * unit,
            v == unit * q + v as int % unit,
            0 <= v as int % unit < unit,
            unit > 0,
    ;
    assert(unit * q == q * unit) by (nonlinear_arith);
}

/// A number between two neighbouring powers of two has the length that the
/// upper one names.
pub proof fn lemma_bit_length_unique(v: nat, n: nat)
    requires
        n >= 1,
        pow2((n - 1) as nat) <= v < pow2(n),
    ensures
        bit_length(v) == n,
    decreases n,
{
    lemma2_to64();
    if n == 1 {
        assert(v == 1);
        assert(bit_length(1) == 1 + bit_length(0));
    } else {
        lemma_pow2_unfold(n);
        lemma_pow2_unfold((n - 1) as nat);
        lemma_bit_length_unique(v / 2, (n - 1) as nat);
    }
}

/// The code word of the value with the leading bits that `next_bit` names,
/// a run of `vlen_prefix` ones and the suffix `suffix`.
pub proof fn lemma_codeword_of_parts(vlen_prefix: nat, next_bit: bool, suffix: nat)
    requires
        suffix < pow2(suffix_size(vlen_prefix, next_bit)),
        suffix_size(vlen_prefix, next_bit) <= 62,
    ensures
        3 <= prefix_value(vlen_prefix, next_bit) + suffix <= u64::MAX,
        codeword((prefix_value(vlen_prefix, next_bit) + suffix) as nat) == repeat(
            true,
            vlen_prefix,
        ) + seq![false, next_bit] + be_bits(suffix, suffix_size(vlen_prefix, next_bit)),
{
    let size = suffix_size(vlen_prefix, next_bit);
    let unit = pow2(size) as int;
    let v = (prefix_value(vlen_prefix, next_bit) + suffix) as nat;
    let lead: int = if next_bit {
        2
    } else {
        3
    };
    lemma_prefix_value_bounds(vlen_prefix, next_bit);
    lemma_pow2_pos(size);
    lemma_pow2_unfold(size + 1);
    lemma_pow2_unfold(size + 2);
    if next_bit {
        lemma_pow2_unfold(vlen_prefix + 1);
    }
    assert(prefix_value(vlen_prefix, next_bit) == lead * unit);
    assert(pow2(size + 1) == 2 * unit);
    assert(pow2(size + 2) == 4 * unit);
    lemma_bit_length_unique(v, size + 2);
    assert(lead * unit == unit * lead) by (nonlinear_arith);
    vstd::arithmetic::div_mod::lemma_fundamental_div_mod_converse(
        v as int,
        unit,
        lead,
        suffix as int,
    );
}

} // verus!
