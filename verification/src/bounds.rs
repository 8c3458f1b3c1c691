//! Why decoding a word of at most 64 bits stays within 64-bit numbers.

use vstd::prelude::*;
use vstd::arithmetic::power2::{lemma2_to64, lemma2_to64_rest, lemma_pow2_adds, lemma_pow2_pos, pow2};
use crate::bits::{be_value, leading_ones, lemma_be_value_bound};
use crate::rationals::{
    cf_fold, decodable, decoded_digits, decoded_fraction, lemma_cf_fold_grows, resolvable, resolved,
    resolved_at,
};
use crate::sbs_main::{read_all, RhoRegion, SbsMarker};
use crate::sbs_utils::{lemma_pow2_le, lemma_prefix_value_bounds, prefix_value, suffix_size};
use crate::utils::IncompleteInt;
use crate::{sbs_main, sbs_utils};

verus! {

/// The denominator that the digits `digits` fold to.
pub open spec fn continuant(digits: Seq<u64>) -> int {
    cf_fold(digits).0
}

/// The fold holds the continuant of the digits and that of all but the last.
pub proof fn lemma_fold_is_continuants(digits: Seq<u64>)
    ensures
        cf_fold(digits).0 == continuant(digits),
        digits.len() > 0 ==> cf_fold(digits).1 == continuant(digits.drop_last()),
        digits.len() == 0 ==> cf_fold(digits) == (1int, 0int),
        digits.len() == 1 ==> continuant(digits) == digits[0],
        digits.len() >= 2 ==> continuant(digits) == digits.last() * continuant(digits.drop_last())
            + continuant(digits.drop_last().drop_last()),
        continuant(digits) >= 0,
    decreases digits.len(),
{
    if digits.len() > 0 {
        lemma_fold_is_continuants(digits.drop_last());
        let (num, den) = cf_fold(digits.drop_last());
        assert(digits.last() * num >= 0) by (nonlinear_arith)
            requires
                digits.last() >= 0,
                num >= 0,
        ;
        if digits.len() >= 2 {
            lemma_fold_is_continuants(digits.drop_last().drop_last());
        }
    }
}

/// A continuant can be unfolded at its first digit as well as at its last.
pub proof fn lemma_continuant_from_front(digits: Seq<u64>)
    requires
        digits.len() >= 2,
    ensures
        continuant(digits) == digits[0] * continuant(digits.skip(1)) + continuant(digits.skip(2)),
    decreases digits.len(),
{
    let n = digits.len() as int;
    let first = digits[0] as int;
    let last = digits.last() as int;
    let init = digits.drop_last();
    lemma_fold_is_continuants(digits);
    lemma_fold_is_continuants(init);
    lemma_fold_is_continuants(digits.skip(1));
    lemma_fold_is_continuants(digits.skip(2));
    assert(digits.skip(1).last() == last);
    if n == 2 {
        assert(init.drop_last() =~= Seq::<u64>::empty());
        assert(digits.skip(2) =~= Seq::<u64>::empty());
        assert(digits.skip(1).len() == 1);
        assert(continuant(init) == first);
        assert(continuant(digits.skip(1)) == last);
        assert(last * first == first * last) by (nonlinear_arith);
    } else if n == 3 {
        lemma_continuant_from_front(init);
        lemma_fold_is_continuants(init.drop_last());
        assert(init.skip(1) =~= digits.skip(1).drop_last());
        assert(init.skip(2) =~= Seq::<u64>::empty());
        assert(init.drop_last().len() == 1);
        assert(digits.skip(2).len() == 1);
        assert(digits.skip(1).drop_last().drop_last() =~= Seq::<u64>::empty());
        let mid = continuant(digits.skip(1).drop_last());
        assert(continuant(init) == first * mid + 1);
        assert(continuant(init.drop_last()) == first);
        assert(continuant(digits.skip(1)) == last * mid + 1);
        assert(continuant(digits.skip(2)) == last);
        assert(last * (first * mid + 1) + first == first * (last * mid + 1) + last)
            by (nonlinear_arith);
    } else {
        let init2 = init.drop_last();
        lemma_continuant_from_front(init);
        lemma_continuant_from_front(init2);
        assert(init.skip(1) =~= digits.skip(1).drop_last());
        assert(init.skip(2) =~= digits.skip(2).drop_last());
        assert(init2.skip(1) =~= digits.skip(1).drop_last().drop_last());
        assert(init2.skip(2) =~= digits.skip(2).drop_last().drop_last());
        assert(digits.skip(2).last() == last);
        let a = continuant(digits.skip(1).drop_last());
        let b = continuant(digits.skip(2).drop_last());
        let c = continuant(digits.skip(1).drop_last().drop_last());
        let d = continuant(digits.skip(2).drop_last().drop_last());
        if n == 4 {
            assert(digits.skip(2).len() == 2);
        }
        assert(continuant(digits.skip(1)) == last * a + c);
        assert(continuant(digits.skip(2)) == last * b + d);
        assert(continuant(init) == first * a + b);
        assert(continuant(init2) == first * c + d);
        assert(last * (first * a + b) + (first * c + d) == first * (last * a + c) + (last * b + d))
            by (nonlinear_arith);
    }
}

/// Folding the digits in either direction arrives at the same denominator.
pub proof fn lemma_continuant_reversed(digits: Seq<u64>)
    ensures
        continuant(digits.reverse()) == continuant(digits),
    decreases digits.len(),
{
    let turned = digits.reverse();
    lemma_fold_is_continuants(turned);
    lemma_fold_is_continuants(digits);
    if digits.len() == 0 {
        assert(turned =~= digits);
    } else if digits.len() == 1 {
        assert(turned =~= digits);
    } else {
        lemma_continuant_from_front(digits);
        lemma_continuant_reversed(digits.skip(1));
        lemma_continuant_reversed(digits.skip(2));
        assert(turned.drop_last() =~= digits.skip(1).reverse());
        assert(turned.drop_last().drop_last() =~= digits.skip(2).reverse());
        assert(turned.last() == digits[0]);
    }
}

/// How a value of the inner code and the length of its code word relate,
/// over the unit `2^s` of a suffix of `s` bits: a value with the leading bits
/// `11` lies in `3 * unit .. 4 * unit` and takes `2 * s + 2` bits, one with
/// the leading bits `10` lies in `2 * unit .. 3 * unit` and takes `2 * s + 1`.
pub open spec fn long_symbol(value: int, len: nat, unit: int, next_bit: bool) -> bool {
    if next_bit {
        unit >= 2 && 2 * unit <= value < 3 * unit && pow2(len) == 2 * unit * unit
    } else {
        unit >= 1 && 3 * unit <= value < 4 * unit && pow2(len) == 4 * unit * unit
    }
}

/// The bit behind the zero that ends the run of ones at the front of `bits`.
pub open spec fn next_bit_of(bits: Seq<bool>) -> bool {
    bits[leading_ones(bits) as int + 1]
}

/// The unit of the suffix of the code word at the front of `bits`.
pub open spec fn unit_of(bits: Seq<bool>) -> int {
    pow2(suffix_size(leading_ones(bits), next_bit_of(bits))) as int
}

/// A complete code word of the inner code in a stream of at most 63 bits.
pub proof fn lemma_inner_complete(bits: Seq<bool>)
    requires
        bits.len() <= 63,
        sbs_utils::decoded_len(bits) <= bits.len(),
    ensures
        sbs_utils::decoded(bits).is_ok(),
        long_symbol(
            sbs_utils::decoded(bits).unwrap() as int,
            sbs_utils::decoded_len(bits),
            unit_of(bits),
            next_bit_of(bits),
        ),
{
    let ones = leading_ones(bits);
    let k = ones as int;
    let b = next_bit_of(bits);
    let size = suffix_size(ones, b);
    let suffix = bits.subrange(k + 2, k + 2 + size);
    let unit = pow2(size) as int;
    let len = sbs_utils::decoded_len(bits);
    lemma_leading_ones_bound(bits);
    assert(bits.len() >= k + 2);
    assert(len == k + 2 + size);
    lemma_be_value_bound(suffix);
    lemma_prefix_value_bounds(ones, b);
    lemma_pow2_pos(size);
    lemma2_to64();
    lemma_pow2_adds(size, size);
    assert(pow2(size + size) == unit * unit);
    let value = sbs_utils::decoded(bits).unwrap() as int;
    assert(value == prefix_value(ones, b) + be_value(suffix));
    if b {
        lemma_pow2_le(1, size);
        lemma_pow2_adds(size + size, 1);
        assert(len == size + size + 1);
        assert(pow2(len) == unit * unit * 2);
        assert(prefix_value(ones, b) == 2 * unit);
        assert(unit * unit * 2 == 2 * unit * unit) by (nonlinear_arith);
    } else {
        lemma_pow2_adds(size + size, 2);
        assert(len == size + size + 2);
        assert(pow2(len) == unit * unit * 4);
        assert(prefix_value(ones, b) == 3 * unit);
        assert(unit * unit * 4 == 4 * unit * unit) by (nonlinear_arith);
    }
}

/// An incomplete code word of the inner code in a stream of at most 63
/// bits: a run of ones only, or a range that starts at most at `3 * 2^(n-1)`.
pub proof fn lemma_inner_incomplete(bits: Seq<bool>)
    requires
        bits.len() <= 63,
        sbs_utils::decoded_len(bits) > bits.len(),
    ensures
        match sbs_utils::decoded(bits) {
            Ok(_) => false,
            Err(IncompleteInt::Unbounded { start }) => bits.len() <= 62 ==> start == 3 * pow2(
                bits.len(),
            ),
            Err(IncompleteInt::Bounded { lo, .. }) => bits.len() >= 1 && 3 <= lo && 2 * lo <= 3
                * pow2(bits.len()),
        },
{
    let n = bits.len();
    let ones = leading_ones(bits);
    let k = ones as int;
    lemma2_to64();
    lemma2_to64_rest();
    lemma_leading_ones_bound(bits);
    if n <= k {
        lemma_prefix_value_bounds(ones, false);
    } else if n == k + 1 {
        lemma_prefix_value_bounds(ones, false);
        lemma_pow2_adds(1, ones);
        lemma_pow2_le(ones, 62);
    } else {
        let b = next_bit_of(bits);
        let size = suffix_size(ones, b);
        let have = (n - k - 2) as nat;
        let seen = bits.subrange(k + 2, n as int);
        let needed = (size - have) as nat;
        lemma_be_value_bound(seen);
        lemma_prefix_value_bounds(ones, b);
        lemma_pow2_adds(have, needed);
        lemma_pow2_pos(needed);
        lemma_pow2_pos(size);
        lemma_pow2_le(size, 62);
        let unit = pow2(size) as int;
        let partial = be_value(seen) as int;
        let step = pow2(needed) as int;
        assert(partial * step + step <= unit) by (nonlinear_arith)
            requires
                partial + 1 <= pow2(have),
                pow2(have) * step == unit,
                step > 0,
        ;
        assert(0 <= partial * step) by (nonlinear_arith)
            requires
                partial >= 0,
                step > 0,
        ;
        if b {
            lemma_pow2_adds(1, ones);
            lemma_pow2_adds(ones + 2, (n - k - 2) as nat);
            lemma_pow2_adds(2, ones);
            lemma_pow2_pos((n - k - 2) as nat);
            assert(pow2(n) >= 2 * unit) by (nonlinear_arith)
                requires
                    pow2(n) == pow2(ones + 2) * pow2((n - k - 2) as nat),
                    pow2(ones + 2) == 2 * unit,
                    pow2((n - k - 2) as nat) >= 1,
                    unit > 0,
            ;
        } else {
            lemma_pow2_adds(ones + 2, (n - k - 2) as nat);
            lemma_pow2_adds(2, ones);
            lemma_pow2_pos((n - k - 2) as nat);
            assert(pow2(n) >= 4 * unit) by (nonlinear_arith)
                requires
                    pow2(n) == pow2(ones + 2) * pow2((n - k - 2) as nat),
                    pow2(ones + 2) == 4 * unit,
                    pow2((n - k - 2) as nat) >= 1,
                    unit > 0,
            ;
        }
    }
}

/// The run of ones at the front is no longer than the stream.
pub proof fn lemma_leading_ones_bound(bits: Seq<bool>)
    ensures
        leading_ones(bits) <= bits.len(),
        leading_ones(bits) < bits.len() ==> !bits[leading_ones(bits) as int],
    decreases bits.len(),
{
    if bits.len() > 0 && bits[0] {
        lemma_leading_ones_bound(bits.skip(1));
    }
}

/// Sixteen times the largest share of `2^bits` that the denominator can
/// hold when the coder is in `region` after `bits` bits.
pub open spec fn a_of(region: RhoRegion) -> int {
    match region {
        RhoRegion::Eq0 => 16,
        RhoRegion::Leq1div3 => 6,
        RhoRegion::Gthan1d3Lthan3d4 => 4,
        RhoRegion::Geq3Div4 => 4,
        RhoRegion::Eq1 => 8,
    }
}

/// Sixteen times the largest share of `2^bits` that the denominator before
/// the last can hold when the coder is in `region` after `bits` bits.
pub open spec fn b_of(region: RhoRegion) -> int {
    match region {
        RhoRegion::Eq0 => 0,
        RhoRegion::Leq1div3 => 2,
        RhoRegion::Gthan1d3Lthan3d4 => 2,
        RhoRegion::Geq3Div4 => 3,
        RhoRegion::Eq1 => 8,
    }
}

/// How a digit and the length of its code word in the code `mode` relate.
pub open spec fn symbol_shape(mode: SbsMarker, digit: int, len: nat, unit: int, next_bit: bool) -> bool {
    match mode {
        SbsMarker::Mode1 => (digit == 1 && len == 1) || (digit >= 2 && len >= 1 && long_symbol(
            digit + 1,
            (len - 1) as nat,
            unit,
            next_bit,
        )),
        SbsMarker::Mode2 => ((digit == 1 || digit == 2) && len == 2) || (digit >= 3 && len >= 1
            && long_symbol(digit, (len - 1) as nat, unit, next_bit)),
    }
}

/// Bounds on the last two denominators carry over a digit whose weight the
/// length of its code word makes up for.
proof fn lemma_scale(q: int, qp: int, digit: int, a: int, b: int, a2: int, b2: int, c: int, p: int)
    by (nonlinear_arith)
    requires
        0 <= qp,
        0 <= q,
        0 <= digit,
        0 < p,
        16 * q <= a * p,
        16 * qp <= b * p,
        digit * a + b <= a2 * c,
        a <= b2 * c,
    ensures
        16 * (digit * q + qp) <= a2 * (p * c),
        16 * q <= b2 * (p * c),
{
    assert(16 * (digit * q) <= digit * (a * p));
    assert((digit * a + b) * p <= (a2 * c) * p);
    assert(a * p <= (b2 * c) * p);
}

/// Reading one more digit keeps the last two denominators within the shares
/// of the region that the digit leads to.
pub proof fn lemma_symbol_step(
    region: RhoRegion,
    digit: u64,
    len: nat,
    unit: int,
    next_bit: bool,
    q: int,
    qp: int,
    used: nat,
)
    requires
        0 <= qp,
        0 <= q,
        16 * q <= a_of(region) * pow2(used),
        16 * qp <= b_of(region) * pow2(used),
        symbol_shape(region.which_spec(), digit as int, len, unit, next_bit),
    ensures
        16 * (digit * q + qp) <= a_of(region.next_spec(digit)) * pow2(used + len),
        16 * q <= b_of(region.next_spec(digit)) * pow2(used + len),
{
    let next = region.next_spec(digit);
    let a = a_of(region);
    let b = b_of(region);
    let a2 = a_of(next);
    let b2 = b_of(next);
    let c = pow2(len) as int;
    let p = pow2(used) as int;
    let d = digit as int;
    lemma_pow2_adds(used, len);
    lemma_pow2_pos(used);
    lemma2_to64();
    if len >= 1 {
        lemma_pow2_adds(1, (len - 1) as nat);
    }
    let half = pow2((len - 1) as nat) as int;
    assert(half == 2 * unit * unit ==> 2 * half == 4 * unit * unit) by (nonlinear_arith);
    assert(half == 4 * unit * unit ==> 2 * half == 8 * unit * unit) by (nonlinear_arith);
    match region.which_spec() {
        SbsMarker::Mode1 => {
            if d == 1 {
                assert(c == 2);
            } else {
                assert(c == 2 * half);
                if next_bit {
                    assert(d * a + b <= a2 * c && a <= b2 * c) by (nonlinear_arith)
                        requires
                            unit >= 2,
                            2 <= d <= 3 * unit - 2,
                            c == 4 * unit * unit,
                            4 <= a <= 16,
                            a == 16 ==> b == 0,
                            0 <= b <= 2,
                            a2 >= 4,
                            b2 >= 2,
                            d >= 3 ==> a2 == 6,
                            a == 16 || a == 6 ==> a2 == 6,
                    ;
                } else {
                    assert(d * a + b <= a2 * c && a <= b2 * c) by (nonlinear_arith)
                        requires
                            unit >= 1,
                            2 <= d <= 4 * unit - 2,
                            c == 8 * unit * unit,
                            4 <= a <= 16,
                            a == 16 ==> b == 0,
                            0 <= b <= 2,
                            a2 >= 4,
                            b2 >= 2,
                    ;
                }
            }
        },
        SbsMarker::Mode2 => {
            if d == 1 || d == 2 {
                assert(c == 4);
            } else {
                assert(c == 2 * half);
                if next_bit {
                    assert(d * a + b <= a2 * c && a <= b2 * c) by (nonlinear_arith)
                        requires
                            unit >= 2,
                            3 <= d <= 3 * unit - 1,
                            c == 4 * unit * unit,
                            4 <= a <= 8,
                            0 <= b <= 8,
                            a2 >= 4,
                            b2 >= 2,
                    ;
                } else {
                    assert(d * a + b <= a2 * c && a <= b2 * c) by (nonlinear_arith)
                        requires
                            unit >= 1,
                            3 <= d <= 4 * unit - 1,
                            c == 8 * unit * unit,
                            4 <= a <= 8,
                            0 <= b <= 8,
                            a2 >= 4,
                            b2 >= 2,
                    ;
                }
            }
        },
    }
    assert(d * a + b <= a2 * c && a <= b2 * c);
    lemma_scale(q, qp, d, a, b, a2, b2, c, p);
}

/// A complete symbol in a stream of at most 64 bits: how its value and
/// the length of its code word relate.
pub proof fn lemma_symbol_complete(mode: SbsMarker, bits: Seq<bool>)
    requires
        bits.len() <= 64,
        sbs_main::decoded_len(mode, bits) <= bits.len(),
    ensures
        sbs_main::decoded(mode, bits).is_ok(),
        sbs_main::decoded(mode, bits).unwrap() >= 1,
        symbol_shape(
            mode,
            sbs_main::decoded(mode, bits).unwrap() as int,
            sbs_main::decoded_len(mode, bits),
            unit_of(bits.skip(1)),
            next_bit_of(bits.skip(1)),
        ),
{
    if bits[0] {
        lemma_inner_complete(bits.skip(1));
    }
}

/// An incomplete symbol in a stream of at most 64 bits: where its range
/// starts, by the number of bits that are left.
pub proof fn lemma_symbol_incomplete(mode: SbsMarker, bits: Seq<bool>)
    requires
        bits.len() <= 64,
        sbs_main::decoded_len(mode, bits) > bits.len(),
    ensures
        match sbs_main::decoded(mode, bits) {
            Ok(_) => false,
            Err(IncompleteInt::Unbounded { start }) => (bits.len() == 0 ==> start == 1) && (1
                <= bits.len() <= 63 ==> start + 1 == 3 * pow2((bits.len() - 1) as nat) + if mode
                == SbsMarker::Mode1 {
                0int
            } else {
                1int
            }),
            Err(IncompleteInt::Bounded { lo, .. }) => bits.len() >= 1 && 1 <= lo && if mode
                == SbsMarker::Mode1 {
                bits.len() >= 2 && 2 * (lo + 1) <= 3 * pow2((bits.len() - 1) as nat)
            } else {
                (bits.len() == 1 && lo == 1) || (bits.len() >= 2 && 2 * lo <= 3 * pow2(
                    (bits.len() - 1) as nat,
                ))
            },
        },
{
    lemma2_to64();
    if bits.len() > 0 && bits[0] {
        lemma_inner_incomplete(bits.skip(1));
        lemma_pow2_pos((bits.len() - 1) as nat);
    }
}

/// The value that the incomplete symbol at the end of a stream adds to the
/// digits `digits` read before it, if it adds one.
pub open spec fn tail_value(digits: Seq<u64>, incomplete: IncompleteInt<u64>) -> Option<int> {
    match incomplete {
        IncompleteInt::Unbounded { start } => if digits.len() >= 2 && digits.last() == 1 {
            Some(start + 1)
        } else {
            None
        },
        IncompleteInt::Bounded { lo, .. } => Some(lo + 1),
    }
}

/// The last two denominators stay within the shares of the region, and the
/// region is the one that the digits lead to.
pub open spec fn within(region: RhoRegion, digits: Seq<u64>, used: nat) -> bool {
    &&& forall|i: int| 0 <= i < digits.len() ==> digits[i] >= 1
    &&& 16 * cf_fold(digits).0 <= a_of(region) * pow2(used)
    &&& 16 * cf_fold(digits).1 <= b_of(region) * pow2(used)
    &&& (digits.len() == 0) == (region == RhoRegion::Eq0)
    &&& digits.len() == 0 ==> used == 0
    &&& digits.len() >= 1 ==> used >= 1
    &&& digits.len() >= 2 && digits.last() == 1 ==> region == RhoRegion::Gthan1d3Lthan3d4 || region
        == RhoRegion::Geq3Div4
}

/// The last step of the bound: the digit that an incomplete symbol adds
/// keeps the denominator within three quarters of `2^bits`.
pub proof fn lemma_tail_step(
    region: RhoRegion,
    digits: Seq<u64>,
    used: nat,
    rest: Seq<bool>,
)
    requires
        within(region, digits, used),
        used + rest.len() <= 64,
        sbs_main::decoded_len(region.which_spec(), rest) > rest.len(),
    ensures
        sbs_main::decoded(region.which_spec(), rest).is_err(),
        match tail_value(digits, sbs_main::decoded(region.which_spec(), rest).unwrap_err()) {
            Some(value) => 1 <= value <= u64::MAX && 16 * (value * cf_fold(digits).0 + cf_fold(
                digits,
            ).1) <= 12 * pow2(used + rest.len()),
            None => 16 * cf_fold(digits).0 <= 12 * pow2(used + rest.len()) || digits.len() == 0,
        },
{
    let mode = region.which_spec();
    let n = rest.len();
    let q = cf_fold(digits).0;
    let qp = cf_fold(digits).1;
    let p = pow2(used) as int;
    let a = a_of(region);
    let b = b_of(region);
    lemma_symbol_incomplete(mode, rest);
    lemma_fold_is_continuants(digits);
    crate::rationals::lemma_cf_fold_grows(digits, digits.len());
    assert(digits.take(digits.len() as int) =~= digits);
    lemma_pow2_adds(used, n);
    lemma_pow2_pos(used);
    lemma_pow2_pos(n);
    lemma2_to64();
    lemma2_to64_rest();
    lemma_pow2_le(used + n, 64);
    let c = pow2(n) as int;
    if n >= 1 {
        lemma_pow2_adds(1, (n - 1) as nat);
        lemma_pow2_pos((n - 1) as nat);
    }
    let half = pow2((n - 1) as nat) as int;
    let incomplete = sbs_main::decoded(mode, rest).unwrap_err();
    match tail_value(digits, incomplete) {
        Some(value) => {
            assert(value * a + b <= 12 * c && value >= 1) by {
                match incomplete {
                    IncompleteInt::Unbounded { start } => {
                        if n >= 1 {
                            assert(used >= 1);
                            assert(n <= 63);
                        }
                    },
                    IncompleteInt::Bounded { lo, .. } => {
                        if digits.len() == 0 {
                            assert(b == 0);
                        }
                    },
                }
            }
            assert(16 * (value * q + qp) <= 12 * (p * c)) by (nonlinear_arith)
                requires
                    0 <= qp,
                    0 <= q,
                    0 <= value,
                    0 < p,
                    16 * q <= a * p,
                    16 * qp <= b * p,
                    value * a + b <= 12 * c,
            {
                assert(16 * (value * q) <= value * (a * p));
                assert((value * a + b) * p <= (12 * c) * p);
            }
            assert(value <= value * q + qp) by (nonlinear_arith)
                requires
                    q >= 1,
                    qp >= 0,
                    value >= 0,
            ;
        },
        None => {
            if digits.len() > 0 {
                assert(a <= 8);
                assert(a * p <= 12 * (p * c)) by (nonlinear_arith)
                    requires
                        a <= 8,
                        p > 0,
                        c >= 1,
                ;
            }
        },
    }
}

/// Complete symbols with the values `digits`.
pub open spec fn oks(digits: Seq<u64>) -> Seq<Result<u64, IncompleteInt<u64>>> {
    Seq::new(digits.len(), |i: int| Ok(digits[i]))
}

/// The digits that a stream stands for whose first symbols gave `digits` and
/// led to `region`, and whose remaining bits are `rest`.
pub open spec fn finish(digits: Seq<u64>, region: RhoRegion, rest: Seq<bool>) -> Seq<u64>
    decreases rest.len(),
{
    let mode = region.which_spec();
    let len = sbs_main::decoded_len(mode, rest);
    match sbs_main::decoded(mode, rest) {
        Ok(value) => if 0 < len <= rest.len() {
            finish(digits.push(value), region.next_spec(value), rest.skip(len as int))
        } else {
            digits.push(value)
        },
        Err(incomplete) => match tail_value(digits, incomplete) {
            Some(value) => digits.push(value as u64),
            None => digits,
        },
    }
}

/// Whether the digit that the incomplete symbol at the end of such a stream
/// adds fits 64 bits.
pub open spec fn finish_fits(digits: Seq<u64>, region: RhoRegion, rest: Seq<bool>) -> bool
    decreases rest.len(),
{
    let mode = region.which_spec();
    let len = sbs_main::decoded_len(mode, rest);
    match sbs_main::decoded(mode, rest) {
        Ok(value) => if 0 < len <= rest.len() {
            finish_fits(digits.push(value), region.next_spec(value), rest.skip(len as int))
        } else {
            true
        },
        Err(incomplete) => match tail_value(digits, incomplete) {
            Some(value) => value <= u64::MAX,
            None => true,
        },
    }
}

/// Complete symbols stand for their values.
pub proof fn lemma_resolved_oks(digits: Seq<u64>)
    ensures
        resolved(oks(digits)) == digits,
        resolvable(oks(digits)),
    decreases digits.len(),
{
    if digits.len() > 0 {
        lemma_resolved_oks(digits.drop_last());
        assert(oks(digits).drop_last() =~= oks(digits.drop_last()));
        assert(resolved(oks(digits)) =~= digits);
    } else {
        assert(resolved(oks(digits)) =~= digits);
    }
}

/// The digits that the items of a stream stand for are the complete symbols
/// and what the incomplete symbol at its end adds.
pub proof fn lemma_resolved_is_finish(digits: Seq<u64>, region: RhoRegion, rest: Seq<bool>)
    ensures
        resolved(oks(digits) + read_all(region, rest)) == finish(digits, region, rest),
        finish_fits(digits, region, rest) ==> resolvable(oks(digits) + read_all(region, rest)),
    decreases rest.len(),
{
    let mode = region.which_spec();
    let len = sbs_main::decoded_len(mode, rest);
    let item = sbs_main::decoded(mode, rest);
    let items = oks(digits) + read_all(region, rest);
    let count = digits.len() as int;
    lemma_resolved_oks(digits);
    match item {
        Ok(value) => {
            lemma_resolved_oks(digits.push(value));
            if 0 < len <= rest.len() {
                lemma_resolved_is_finish(
                    digits.push(value),
                    region.next_spec(value),
                    rest.skip(len as int),
                );
                assert(items =~= oks(digits.push(value)) + read_all(
                    region.next_spec(value),
                    rest.skip(len as int),
                ));
            } else {
                assert(items =~= oks(digits.push(value)));
            }
        },
        Err(incomplete) => {
            assert(items =~= oks(digits).push(item));
            assert(items.drop_last() =~= oks(digits));
            assert(resolved_at(items, count) == tail_value(digits, incomplete)) by {
                if count >= 1 {
                    assert(items[count - 1] == Ok::<u64, IncompleteInt<u64>>(digits.last()));
                }
            }
            if finish_fits(digits, region, rest) {
                assert forall|i: int| 0 <= i < items.len() implies match #[trigger] resolved_at(
                    items,
                    i,
                ) {
                    Some(value) => value <= u64::MAX,
                    None => true,
                } by {
                    if i < count {
                        assert(items[i] == Ok::<u64, IncompleteInt<u64>>(digits[i]));
                    }
                }
            }
        },
    }
}

/// Every digit that such a stream stands for is positive, the digit at its
/// end fits 64 bits, and the denominator stays within three quarters of
/// `2^64`.
pub proof fn lemma_finish_bound(digits: Seq<u64>, region: RhoRegion, rest: Seq<bool>, used: nat)
    requires
        within(region, digits, used),
        used + rest.len() <= 64,
    ensures
        finish_fits(digits, region, rest),
        forall|i: int|
            0 <= i < finish(digits, region, rest).len() ==> finish(digits, region, rest)[i] >= 1,
        1 <= cf_fold(finish(digits, region, rest)).0 <= 0xC000_0000_0000_0000,
    decreases rest.len(),
{
    let mode = region.which_spec();
    let len = sbs_main::decoded_len(mode, rest);
    let q = cf_fold(digits).0;
    let qp = cf_fold(digits).1;
    lemma_cf_fold_grows(digits, digits.len());
    assert(digits.take(digits.len() as int) =~= digits);
    lemma2_to64();
    lemma2_to64_rest();
    lemma_pow2_le(used + rest.len(), 64);
    if len <= rest.len() {
        lemma_symbol_complete(mode, rest);
        let value = sbs_main::decoded(mode, rest).unwrap();
        let longer = digits.push(value);
        let next = region.next_spec(value);
        lemma_symbol_step(
            region,
            value,
            len,
            unit_of(rest.skip(1)),
            next_bit_of(rest.skip(1)),
            q,
            qp,
            used,
        );
        assert(longer.drop_last() =~= digits);
        assert(cf_fold(longer) == (value * q + qp, q));
        assert(within(next, longer, used + len));
        lemma_finish_bound(longer, next, rest.skip(len as int), used + len);
    } else {
        lemma_tail_step(region, digits, used, rest);
        let incomplete = sbs_main::decoded(mode, rest).unwrap_err();
        match tail_value(digits, incomplete) {
            Some(value) => {
                let longer = digits.push(value as u64);
                assert(longer.drop_last() =~= digits);
                assert(cf_fold(longer) == (value * q + qp, q));
                assert(value * q >= 1) by (nonlinear_arith)
                    requires
                        value >= 1,
                        q >= 1,
                ;
            },
            None => {},
        }
    }
}

/// Decoding a stream of at most 64 bits stays within 64-bit numbers, and
/// gives a fraction between 0 and 1 whose denominator is at most
/// `3 * 2^62`.
pub proof fn lemma_decode_fits(bits: Seq<bool>)
    requires
        bits.len() <= 64,
    ensures
        decodable(bits),
        0 <= decoded_fraction(bits).0 <= decoded_fraction(bits).1,
        1 <= decoded_fraction(bits).1 <= 0xC000_0000_0000_0000,
{
    let none = Seq::<u64>::empty();
    lemma2_to64();
    lemma_finish_bound(none, RhoRegion::Eq0, bits, 0);
    lemma_resolved_is_finish(none, RhoRegion::Eq0, bits);
    assert(oks(none) + read_all(RhoRegion::Eq0, bits) =~= read_all(RhoRegion::Eq0, bits));
    let digits = decoded_digits(bits);
    assert(digits == finish(none, RhoRegion::Eq0, bits));
    lemma_continuant_reversed(digits);
    let turned = digits.reverse();
    lemma_cf_fold_grows(turned, turned.len());
    assert(turned.take(turned.len() as int) =~= turned);
}

} // verus!
