//! Which fractions a word of 8 bits can hold.

use vstd::prelude::*;
use vstd::arithmetic::power2::{lemma2_to64};
use crate::bits::{be_bits, be_value, lemma_be_bits_of_value, lemma_be_value_bound};
use crate::rationals::{
    cf_digits, cf_fold, decoded_fraction, encoded, fits, lemma_fold_is_reduced, reduced,
};
use crate::roundtrip::{
    common_measure, lemma_decode_of_encode, lemma_fold_of_digits, lemma_parts_of,
    lemma_stream_of_front,
};
use crate::sbs_main::{stream_of, RhoRegion, SbsMarker};
use crate::sbs_utils::lemma_bit_length_unique;
use crate::{sbs_main, sbs_utils};

verus! {

/// The length of the code word of a value from 3 to 15 in the inner code.
pub open spec fn inner_len(v: nat) -> nat {
    if v <= 3 {
        2
    } else if v <= 5 {
        3
    } else if v <= 7 {
        4
    } else if v <= 11 {
        5
    } else {
        6
    }
}

/// The length of the code word of a digit from 1 to 14 in the code `mode`.
pub open spec fn short_len(mode: SbsMarker, digit: nat) -> nat {
    match mode {
        SbsMarker::Mode1 => if digit == 1 {
            1
        } else {
            1 + inner_len(digit + 1)
        },
        SbsMarker::Mode2 => if digit <= 2 {
            2
        } else {
            1 + inner_len(digit)
        },
    }
}

/// The number of bits that the digits of `p / q` take, the first one
/// written in `region`, for a denominator of at most 14.
pub open spec fn small_cost(region: RhoRegion, p: nat, q: nat) -> nat
    decreases p,
{
    if p == 0 {
        0
    } else {
        short_len(region.which_spec(), q / p) + small_cost(
            region.next_spec((q / p) as u64),
            q % p,
            p,
        )
    }
}

/// The code words of the values from 3 to 15 have the lengths of the table.
pub proof fn lemma_inner_len(v: nat)
    requires
        3 <= v <= 15,
    ensures
        sbs_utils::codeword(v).len() == inner_len(v),
{
    lemma2_to64();
    lemma_parts_of(v);
    if v <= 3 {
        lemma_bit_length_unique(v, 2);
        assert(v / 1 == 3);
    } else if v <= 7 {
        lemma_bit_length_unique(v, 3);
        assert(v / 2 == 2 || v / 2 == 3);
    } else {
        lemma_bit_length_unique(v, 4);
        assert(v / 4 == 2 || v / 4 == 3);
    }
}

/// The code words of the digits from 1 to 14 have the lengths of the table.
pub proof fn lemma_short_len(mode: SbsMarker, digit: u64)
    requires
        1 <= digit <= 14,
    ensures
        sbs_main::codeword(mode, digit).len() == short_len(mode, digit as nat),
{
    match mode {
        SbsMarker::Mode1 => {
            if digit > 1 {
                lemma_inner_len((digit + 1) as nat);
            }
        },
        SbsMarker::Mode2 => {
            if digit > 2 {
                lemma_inner_len(digit as nat);
            }
        },
    }
}

/// Whether every digit of `p / q` is at most 14.
pub open spec fn small_digits(p: nat, q: nat) -> bool
    decreases p,
{
    p == 0 || (q / p <= 14 && small_digits(q % p, p))
}

/// The digits of a fraction with a denominator of at most 14 are at most 14.
pub proof fn lemma_small_digits(p: nat, q: nat)
    requires
        p <= q <= 14,
    ensures
        small_digits(p, q),
    decreases p,
{
    if p > 0 {
        vstd::arithmetic::div_mod::lemma_fundamental_div_mod(q as int, p as int);
        assert(q / p <= q) by (nonlinear_arith)
            requires
                q == p * (q / p) + q % p,
                0 <= q % p,
                0 < p,
        ;
        lemma_small_digits(q % p, p);
    }
}

/// The digits of a fraction take as many bits as the table says, where
/// each of them is at most 14.
pub proof fn lemma_small_cost(region: RhoRegion, p: nat, q: nat)
    requires
        1 <= p <= q,
        small_digits(p, q),
    ensures
        stream_of(region, cf_digits(p, q)).len() == small_cost(region, p, q),
    decreases p,
{
    let digits = cf_digits(p, q);
    {
        let a = q / p;
        let rest = cf_digits(q % p, p);
        vstd::arithmetic::div_mod::lemma_fundamental_div_mod(q as int, p as int);
        assert(1 <= a <= q) by (nonlinear_arith)
            requires
                q == p * a + q % p,
                0 <= q % p < p,
                0 < p <= q,
        ;
        assert(a <= 14);
        assert(digits == seq![a as u64] + rest);
        assert(digits.skip(1) =~= rest);
        assert(digits[0] == a);
        lemma_stream_of_front(region, digits);
        lemma_short_len(region.which_spec(), a as u64);
        assert(small_cost(region, p, q) == short_len(region.which_spec(), a) + small_cost(
            region.next_spec(a as u64),
            q % p,
            p,
        ));
        if q % p > 0 {
            lemma_small_cost(region.next_spec(a as u64), q % p, p);
        } else {
            assert(cf_digits(0, p) =~= Seq::<u64>::empty());
            assert(stream_of(region.next_spec(a as u64), cf_digits(0, p)) =~= Seq::<bool>::empty());
        }
    }
}

/// Every fraction over 1 takes at most 8 bits.
proof fn lemma_small_cost_1()
    ensures
        forall|p: nat| 1 <= p <= 1 ==> #[trigger] small_cost(RhoRegion::Eq0, p, 1) <= 8,
{
    assert(small_cost(RhoRegion::Eq0, 1, 1) <= 8) by {
        assert(small_cost(RhoRegion::Eq1, 0, 1) == 0);
        assert(1nat / 1 == 1 && 1nat % 1 == 0);
        assert(small_cost(RhoRegion::Eq0, 1, 1) == 1);
    }
}

/// Every fraction over 2 takes at most 8 bits.
proof fn lemma_small_cost_2()
    ensures
        forall|p: nat| 1 <= p <= 2 ==> #[trigger] small_cost(RhoRegion::Eq0, p, 2) <= 8,
{
    assert(small_cost(RhoRegion::Eq0, 1, 2) <= 8) by {
        assert(small_cost(RhoRegion::Leq1div3, 0, 1) == 0);
        assert(2nat / 1 == 2 && 2nat % 1 == 0);
        assert(small_cost(RhoRegion::Eq0, 1, 2) == 3);
    }
    assert(small_cost(RhoRegion::Eq0, 2, 2) <= 8) by {
        assert(small_cost(RhoRegion::Eq1, 0, 2) == 0);
        assert(2nat / 2 == 1 && 2nat % 2 == 0);
        assert(small_cost(RhoRegion::Eq0, 2, 2) == 1);
    }
}

/// Every fraction over 3 takes at most 8 bits.
proof fn lemma_small_cost_3()
    ensures
        forall|p: nat| 1 <= p <= 3 ==> #[trigger] small_cost(RhoRegion::Eq0, p, 3) <= 8,
{
    assert(small_cost(RhoRegion::Eq0, 1, 3) <= 8) by {
        assert(small_cost(RhoRegion::Leq1div3, 0, 1) == 0);
        assert(3nat / 1 == 3 && 3nat % 1 == 0);
        assert(small_cost(RhoRegion::Eq0, 1, 3) == 4);
    }
    assert(small_cost(RhoRegion::Eq0, 2, 3) <= 8) by {
        assert(small_cost(RhoRegion::Leq1div3, 0, 1) == 0);
        assert(2nat / 1 == 2 && 2nat % 1 == 0);
        assert(small_cost(RhoRegion::Eq1, 1, 2) == 2);
        assert(3nat / 2 == 1 && 3nat % 2 == 1);
        assert(small_cost(RhoRegion::Eq0, 2, 3) == 3);
    }
    assert(small_cost(RhoRegion::Eq0, 3, 3) <= 8) by {
        assert(small_cost(RhoRegion::Eq1, 0, 3) == 0);
        assert(3nat / 3 == 1 && 3nat % 3 == 0);
        assert(small_cost(RhoRegion::Eq0, 3, 3) == 1);
    }
}

/// Every fraction over 4 takes at most 8 bits.
proof fn lemma_small_cost_4()
    ensures
        forall|p: nat| 1 <= p <= 4 ==> #[trigger] small_cost(RhoRegion::Eq0, p, 4) <= 8,
{
    assert(small_cost(RhoRegion::Eq0, 1, 4) <= 8) by {
        assert(small_cost(RhoRegion::Leq1div3, 0, 1) == 0);
        assert(4nat / 1 == 4 && 4nat % 1 == 0);
        assert(small_cost(RhoRegion::Eq0, 1, 4) == 4);
    }
    assert(small_cost(RhoRegion::Eq0, 2, 4) <= 8) by {
        assert(small_cost(RhoRegion::Leq1div3, 0, 2) == 0);
        assert(4nat / 2 == 2 && 4nat % 2 == 0);
        assert(small_cost(RhoRegion::Eq0, 2, 4) == 3);
    }
    assert(small_cost(RhoRegion::Eq0, 3, 4) <= 8) by {
        assert(small_cost(RhoRegion::Gthan1d3Lthan3d4, 0, 1) == 0);
        assert(3nat / 1 == 3 && 3nat % 1 == 0);
        assert(small_cost(RhoRegion::Eq1, 1, 3) == 3);
        assert(4nat / 3 == 1 && 4nat % 3 == 1);
        assert(small_cost(RhoRegion::Eq0, 3, 4) == 4);
    }
    assert(small_cost(RhoRegion::Eq0, 4, 4) <= 8) by {
        assert(small_cost(RhoRegion::Eq1, 0, 4) == 0);
        assert(4nat / 4 == 1 && 4nat % 4 == 0);
        assert(small_cost(RhoRegion::Eq0, 4, 4) == 1);
    }
}

/// Every fraction over 5 takes at most 8 bits.
proof fn lemma_small_cost_5()
    ensures
        forall|p: nat| 1 <= p <= 5 ==> #[trigger] small_cost(RhoRegion::Eq0, p, 5) <= 8,
{
    assert(small_cost(RhoRegion::Eq0, 1, 5) <= 8) by {
        assert(small_cost(RhoRegion::Leq1div3, 0, 1) == 0);
        assert(5nat / 1 == 5 && 5nat % 1 == 0);
        assert(small_cost(RhoRegion::Eq0, 1, 5) == 5);
    }
    assert(small_cost(RhoRegion::Eq0, 2, 5) <= 8) by {
        assert(small_cost(RhoRegion::Leq1div3, 0, 1) == 0);
        assert(2nat / 1 == 2 && 2nat % 1 == 0);
        assert(small_cost(RhoRegion::Leq1div3, 1, 2) == 3);
        assert(5nat / 2 == 2 && 5nat % 2 == 1);
        assert(small_cost(RhoRegion::Eq0, 2, 5) == 6);
    }
    assert(small_cost(RhoRegion::Eq0, 3, 5) <= 8) by {
        assert(small_cost(RhoRegion::Gthan1d3Lthan3d4, 0, 1) == 0);
        assert(2nat / 1 == 2 && 2nat % 1 == 0);
        assert(small_cost(RhoRegion::Gthan1d3Lthan3d4, 1, 2) == 3);
        assert(3nat / 2 == 1 && 3nat % 2 == 1);
        assert(small_cost(RhoRegion::Eq1, 2, 3) == 5);
        assert(5nat / 3 == 1 && 5nat % 3 == 2);
        assert(small_cost(RhoRegion::Eq0, 3, 5) == 6);
    }
    assert(small_cost(RhoRegion::Eq0, 4, 5) <= 8) by {
        assert(small_cost(RhoRegion::Gthan1d3Lthan3d4, 0, 1) == 0);
        assert(4nat / 1 == 4 && 4nat % 1 == 0);
        assert(small_cost(RhoRegion::Eq1, 1, 4) == 4);
        assert(5nat / 4 == 1 && 5nat % 4 == 1);
        assert(small_cost(RhoRegion::Eq0, 4, 5) == 5);
    }
    assert(small_cost(RhoRegion::Eq0, 5, 5) <= 8) by {
        assert(small_cost(RhoRegion::Eq1, 0, 5) == 0);
        assert(5nat / 5 == 1 && 5nat % 5 == 0);
        assert(small_cost(RhoRegion::Eq0, 5, 5) == 1);
    }
}

/// Every fraction over 6 takes at most 8 bits.
proof fn lemma_small_cost_6()
    ensures
        forall|p: nat| 1 <= p <= 6 ==> #[trigger] small_cost(RhoRegion::Eq0, p, 6) <= 8,
{
    assert(small_cost(RhoRegion::Eq0, 1, 6) <= 8) by {
        assert(small_cost(RhoRegion::Leq1div3, 0, 1) == 0);
        assert(6nat / 1 == 6 && 6nat % 1 == 0);
        assert(small_cost(RhoRegion::Eq0, 1, 6) == 5);
    }
    assert(small_cost(RhoRegion::Eq0, 2, 6) <= 8) by {
        assert(small_cost(RhoRegion::Leq1div3, 0, 2) == 0);
        assert(6nat / 2 == 3 && 6nat % 2 == 0);
        assert(small_cost(RhoRegion::Eq0, 2, 6) == 4);
    }
    assert(small_cost(RhoRegion::Eq0, 3, 6) <= 8) by {
        assert(small_cost(RhoRegion::Leq1div3, 0, 3) == 0);
        assert(6nat / 3 == 2 && 6nat % 3 == 0);
        assert(small_cost(RhoRegion::Eq0, 3, 6) == 3);
    }
    assert(small_cost(RhoRegion::Eq0, 4, 6) <= 8) by {
        assert(small_cost(RhoRegion::Leq1div3, 0, 2) == 0);
        assert(4nat / 2 == 2 && 4nat % 2 == 0);
        assert(small_cost(RhoRegion::Eq1, 2, 4) == 2);
        assert(6nat / 4 == 1 && 6nat % 4 == 2);
        assert(small_cost(RhoRegion::Eq0, 4, 6) == 3);
    }
    assert(small_cost(RhoRegion::Eq0, 5, 6) <= 8) by {
        assert(small_cost(RhoRegion::Gthan1d3Lthan3d4, 0, 1) == 0);
        assert(5nat / 1 == 5 && 5nat % 1 == 0);
        assert(small_cost(RhoRegion::Eq1, 1, 5) == 4);
        assert(6nat / 5 == 1 && 6nat % 5 == 1);
        assert(small_cost(RhoRegion::Eq0, 5, 6) == 5);
    }
    assert(small_cost(RhoRegion::Eq0, 6, 6) <= 8) by {
        assert(small_cost(RhoRegion::Eq1, 0, 6) == 0);
        assert(6nat / 6 == 1 && 6nat % 6 == 0);
        assert(small_cost(RhoRegion::Eq0, 6, 6) == 1);
    }
}

/// Every fraction over 7 takes at most 8 bits.
proof fn lemma_small_cost_7()
    ensures
        forall|p: nat| 1 <= p <= 7 ==> #[trigger] small_cost(RhoRegion::Eq0, p, 7) <= 8,
{
    assert(small_cost(RhoRegion::Eq0, 1, 7) <= 8) by {
        assert(small_cost(RhoRegion::Leq1div3, 0, 1) == 0);
        assert(7nat / 1 == 7 && 7nat % 1 == 0);
        assert(small_cost(RhoRegion::Eq0, 1, 7) == 6);
    }
    assert(small_cost(RhoRegion::Eq0, 2, 7) <= 8) by {
        assert(small_cost(RhoRegion::Leq1div3, 0, 1) == 0);
        assert(2nat / 1 == 2 && 2nat % 1 == 0);
        assert(small_cost(RhoRegion::Leq1div3, 1, 2) == 3);
        assert(7nat / 2 == 3 && 7nat % 2 == 1);
        assert(small_cost(RhoRegion::Eq0, 2, 7) == 7);
    }
    assert(small_cost(RhoRegion::Eq0, 3, 7) <= 8) by {
        assert(small_cost(RhoRegion::Leq1div3, 0, 1) == 0);
        assert(3nat / 1 == 3 && 3nat % 1 == 0);
        assert(small_cost(RhoRegion::Leq1div3, 1, 3) == 4);
        assert(7nat / 3 == 2 && 7nat % 3 == 1);
        assert(small_cost(RhoRegion::Eq0, 3, 7) == 7);
    }
    assert(small_cost(RhoRegion::Eq0, 4, 7) <= 8) by {
        assert(small_cost(RhoRegion::Leq1div3, 0, 1) == 0);
        assert(3nat / 1 == 3 && 3nat % 1 == 0);
        assert(small_cost(RhoRegion::Gthan1d3Lthan3d4, 1, 3) == 4);
        assert(4nat / 3 == 1 && 4nat % 3 == 1);
        assert(small_cost(RhoRegion::Eq1, 3, 4) == 6);
        assert(7nat / 4 == 1 && 7nat % 4 == 3);
        assert(small_cost(RhoRegion::Eq0, 4, 7) == 7);
    }
    assert(small_cost(RhoRegion::Eq0, 5, 7) <= 8) by {
        assert(small_cost(RhoRegion::Leq1div3, 0, 1) == 0);
        assert(2nat / 1 == 2 && 2nat % 1 == 0);
        assert(small_cost(RhoRegion::Leq1div3, 1, 2) == 3);
        assert(5nat / 2 == 2 && 5nat % 2 == 1);
        assert(small_cost(RhoRegion::Eq1, 2, 5) == 5);
        assert(7nat / 5 == 1 && 7nat % 5 == 2);
        assert(small_cost(RhoRegion::Eq0, 5, 7) == 6);
    }
    assert(small_cost(RhoRegion::Eq0, 6, 7) <= 8) by {
        assert(small_cost(RhoRegion::Gthan1d3Lthan3d4, 0, 1) == 0);
        assert(6nat / 1 == 6 && 6nat % 1 == 0);
        assert(small_cost(RhoRegion::Eq1, 1, 6) == 5);
        assert(7nat / 6 == 1 && 7nat % 6 == 1);
        assert(small_cost(RhoRegion::Eq0, 6, 7) == 6);
    }
    assert(small_cost(RhoRegion::Eq0, 7, 7) <= 8) by {
        assert(small_cost(RhoRegion::Eq1, 0, 7) == 0);
        assert(7nat / 7 == 1 && 7nat % 7 == 0);
        assert(small_cost(RhoRegion::Eq0, 7, 7) == 1);
    }
}

/// Every fraction over 8 takes at most 8 bits.
proof fn lemma_small_cost_8()
    ensures
        forall|p: nat| 1 <= p <= 8 ==> #[trigger] small_cost(RhoRegion::Eq0, p, 8) <= 8,
{
    assert(small_cost(RhoRegion::Eq0, 1, 8) <= 8) by {
        assert(small_cost(RhoRegion::Leq1div3, 0, 1) == 0);
        assert(8nat / 1 == 8 && 8nat % 1 == 0);
        assert(small_cost(RhoRegion::Eq0, 1, 8) == 6);
    }
    assert(small_cost(RhoRegion::Eq0, 2, 8) <= 8) by {
        assert(small_cost(RhoRegion::Leq1div3, 0, 2) == 0);
        assert(8nat / 2 == 4 && 8nat % 2 == 0);
        assert(small_cost(RhoRegion::Eq0, 2, 8) == 4);
    }
    assert(small_cost(RhoRegion::Eq0, 3, 8) <= 8) by {
        assert(small_cost(RhoRegion::Gthan1d3Lthan3d4, 0, 1) == 0);
        assert(2nat / 1 == 2 && 2nat % 1 == 0);
        assert(small_cost(RhoRegion::Geq3Div4, 1, 2) == 2);
        assert(3nat / 2 == 1 && 3nat % 2 == 1);
        assert(small_cost(RhoRegion::Leq1div3, 2, 3) == 3);
        assert(8nat / 3 == 2 && 8nat % 3 == 2);
        assert(small_cost(RhoRegion::Eq0, 3, 8) == 6);
    }
    assert(small_cost(RhoRegion::Eq0, 4, 8) <= 8) by {
        assert(small_cost(RhoRegion::Leq1div3, 0, 4) == 0);
        assert(8nat / 4 == 2 && 8nat % 4 == 0);
        assert(small_cost(RhoRegion::Eq0, 4, 8) == 3);
    }
    assert(small_cost(RhoRegion::Eq0, 5, 8) <= 8) by {
        assert(small_cost(RhoRegion::Gthan1d3Lthan3d4, 0, 1) == 0);
        assert(2nat / 1 == 2 && 2nat % 1 == 0);
        assert(small_cost(RhoRegion::Gthan1d3Lthan3d4, 1, 2) == 3);
        assert(3nat / 2 == 1 && 3nat % 2 == 1);
        assert(small_cost(RhoRegion::Gthan1d3Lthan3d4, 2, 3) == 4);
        assert(5nat / 3 == 1 && 5nat % 3 == 2);
        assert(small_cost(RhoRegion::Eq1, 3, 5) == 6);
        assert(8nat / 5 == 1 && 8nat % 5 == 3);
        assert(small_cost(RhoRegion::Eq0, 5, 8) == 7);
    }
    assert(small_cost(RhoRegion::Eq0, 6, 8) <= 8) by {
        assert(small_cost(RhoRegion::Gthan1d3Lthan3d4, 0, 2) == 0);
        assert(6nat / 2 == 3 && 6nat % 2 == 0);
        assert(small_cost(RhoRegion::Eq1, 2, 6) == 3);
        assert(8nat / 6 == 1 && 8nat % 6 == 2);
        assert(small_cost(RhoRegion::Eq0, 6, 8) == 4);
    }
    assert(small_cost(RhoRegion::Eq0, 7, 8) <= 8) by {
        assert(small_cost(RhoRegion::Gthan1d3Lthan3d4, 0, 1) == 0);
        assert(7nat / 1 == 7 && 7nat % 1 == 0);
        assert(small_cost(RhoRegion::Eq1, 1, 7) == 5);
        assert(8nat / 7 == 1 && 8nat % 7 == 1);
        assert(small_cost(RhoRegion::Eq0, 7, 8) == 6);
    }
    assert(small_cost(RhoRegion::Eq0, 8, 8) <= 8) by {
        assert(small_cost(RhoRegion::Eq1, 0, 8) == 0);
        assert(8nat / 8 == 1 && 8nat % 8 == 0);
        assert(small_cost(RhoRegion::Eq0, 8, 8) == 1);
    }
}

/// Every fraction over 9 takes at most 8 bits.
proof fn lemma_small_cost_9()
    ensures
        forall|p: nat| 1 <= p <= 9 ==> #[trigger] small_cost(RhoRegion::Eq0, p, 9) <= 8,
{
    assert(small_cost(RhoRegion::Eq0, 1, 9) <= 8) by {
        assert(small_cost(RhoRegion::Leq1div3, 0, 1) == 0);
        assert(9nat / 1 == 9 && 9nat % 1 == 0);
        assert(small_cost(RhoRegion::Eq0, 1, 9) == 6);
    }
    assert(small_cost(RhoRegion::Eq0, 2, 9) <= 8) by {
        assert(small_cost(RhoRegion::Leq1div3, 0, 1) == 0);
        assert(2nat / 1 == 2 && 2nat % 1 == 0);
        assert(small_cost(RhoRegion::Leq1div3, 1, 2) == 3);
        assert(9nat / 2 == 4 && 9nat % 2 == 1);
        assert(small_cost(RhoRegion::Eq0, 2, 9) == 7);
    }
    assert(small_cost(RhoRegion::Eq0, 3, 9) <= 8) by {
        assert(small_cost(RhoRegion::Leq1div3, 0, 3) == 0);
        assert(9nat / 3 == 3 && 9nat % 3 == 0);
        assert(small_cost(RhoRegion::Eq0, 3, 9) == 4);
    }
    assert(small_cost(RhoRegion::Eq0, 4, 9) <= 8) by {
        assert(small_cost(RhoRegion::Leq1div3, 0, 1) == 0);
        assert(4nat / 1 == 4 && 4nat % 1 == 0);
        assert(small_cost(RhoRegion::Leq1div3, 1, 4) == 4);
        assert(9nat / 4 == 2 && 9nat % 4 == 1);
        assert(small_cost(RhoRegion::Eq0, 4, 9) == 7);
    }
    assert(small_cost(RhoRegion::Eq0, 5, 9) <= 8) by {
        assert(small_cost(RhoRegion::Leq1div3, 0, 1) == 0);
        assert(4nat / 1 == 4 && 4nat % 1 == 0);
        assert(small_cost(RhoRegion::Gthan1d3Lthan3d4, 1, 4) == 4);
        assert(5nat / 4 == 1 && 5nat % 4 == 1);
        assert(small_cost(RhoRegion::Eq1, 4, 5) == 6);
        assert(9nat / 5 == 1 && 9nat % 5 == 4);
        assert(small_cost(RhoRegion::Eq0, 5, 9) == 7);
    }
    assert(small_cost(RhoRegion::Eq0, 6, 9) <= 8) by {
        assert(small_cost(RhoRegion::Leq1div3, 0, 3) == 0);
        assert(6nat / 3 == 2 && 6nat % 3 == 0);
        assert(small_cost(RhoRegion::Eq1, 3, 6) == 2);
        assert(9nat / 6 == 1 && 9nat % 6 == 3);
        assert(small_cost(RhoRegion::Eq0, 6, 9) == 3);
    }
    assert(small_cost(RhoRegion::Eq0, 7, 9) <= 8) by {
        assert(small_cost(RhoRegion::Gthan1d3Lthan3d4, 0, 1) == 0);
        assert(2nat / 1 == 2 && 2nat % 1 == 0);
        assert(small_cost(RhoRegion::Gthan1d3Lthan3d4, 1, 2) == 3);
        assert(7nat / 2 == 3 && 7nat % 2 == 1);
        assert(small_cost(RhoRegion::Eq1, 2, 7) == 6);
        assert(9nat / 7 == 1 && 9nat % 7 == 2);
        assert(small_cost(RhoRegion::Eq0, 7, 9) == 7);
    }
    assert(small_cost(RhoRegion::Eq0, 8, 9) <= 8) by {
        assert(small_cost(RhoRegion::Gthan1d3Lthan3d4, 0, 1) == 0);
        assert(8nat / 1 == 8 && 8nat % 1 == 0);
        assert(small_cost(RhoRegion::Eq1, 1, 8) == 6);
        assert(9nat / 8 == 1 && 9nat % 8 == 1);
        assert(small_cost(RhoRegion::Eq0, 8, 9) == 7);
    }
    assert(small_cost(RhoRegion::Eq0, 9, 9) <= 8) by {
        assert(small_cost(RhoRegion::Eq1, 0, 9) == 0);
        assert(9nat / 9 == 1 && 9nat % 9 == 0);
        assert(small_cost(RhoRegion::Eq0, 9, 9) == 1);
    }
}

/// Every fraction over 10 takes at most 8 bits.
proof fn lemma_small_cost_10()
    ensures
        forall|p: nat| 1 <= p <= 10 ==> #[trigger] small_cost(RhoRegion::Eq0, p, 10) <= 8,
{
    assert(small_cost(RhoRegion::Eq0, 1, 10) <= 8) by {
        assert(small_cost(RhoRegion::Leq1div3, 0, 1) == 0);
        assert(10nat / 1 == 10 && 10nat % 1 == 0);
        assert(small_cost(RhoRegion::Eq0, 1, 10) == 6);
    }
    assert(small_cost(RhoRegion::Eq0, 2, 10) <= 8) by {
        assert(small_cost(RhoRegion::Leq1div3, 0, 2) == 0);
        assert(10nat / 2 == 5 && 10nat % 2 == 0);
        assert(small_cost(RhoRegion::Eq0, 2, 10) == 5);
    }
    assert(small_cost(RhoRegion::Eq0, 3, 10) <= 8) by {
        assert(small_cost(RhoRegion::Leq1div3, 0, 1) == 0);
        assert(3nat / 1 == 3 && 3nat % 1 == 0);
        assert(small_cost(RhoRegion::Leq1div3, 1, 3) == 4);
        assert(10nat / 3 == 3 && 10nat % 3 == 1);
        assert(small_cost(RhoRegion::Eq0, 3, 10) == 8);
    }
    assert(small_cost(RhoRegion::Eq0, 4, 10) <= 8) by {
        assert(small_cost(RhoRegion::Leq1div3, 0, 2) == 0);
        assert(4nat / 2 == 2 && 4nat % 2 == 0);
        assert(small_cost(RhoRegion::Leq1div3, 2, 4) == 3);
        assert(10nat / 4 == 2 && 10nat % 4 == 2);
        assert(small_cost(RhoRegion::Eq0, 4, 10) == 6);
    }
    assert(small_cost(RhoRegion::Eq0, 5, 10) <= 8) by {
        assert(small_cost(RhoRegion::Leq1div3, 0, 5) == 0);
        assert(10nat / 5 == 2 && 10nat % 5 == 0);
        assert(small_cost(RhoRegion::Eq0, 5, 10) == 3);
    }
    assert(small_cost(RhoRegion::Eq0, 6, 10) <= 8) by {
        assert(small_cost(RhoRegion::Gthan1d3Lthan3d4, 0, 2) == 0);
        assert(4nat / 2 == 2 && 4nat % 2 == 0);
        assert(small_cost(RhoRegion::Gthan1d3Lthan3d4, 2, 4) == 3);
        assert(6nat / 4 == 1 && 6nat % 4 == 2);
        assert(small_cost(RhoRegion::Eq1, 4, 6) == 5);
        assert(10nat / 6 == 1 && 10nat % 6 == 4);
        assert(small_cost(RhoRegion::Eq0, 6, 10) == 6);
    }
    assert(small_cost(RhoRegion::Eq0, 7, 10) <= 8) by {
        assert(small_cost(RhoRegion::Leq1div3, 0, 1) == 0);
        assert(3nat / 1 == 3 && 3nat % 1 == 0);
        assert(small_cost(RhoRegion::Leq1div3, 1, 3) == 4);
        assert(7nat / 3 == 2 && 7nat % 3 == 1);
        assert(small_cost(RhoRegion::Eq1, 3, 7) == 6);
        assert(10nat / 7 == 1 && 10nat % 7 == 3);
        assert(small_cost(RhoRegion::Eq0, 7, 10) == 7);
    }
    assert(small_cost(RhoRegion::Eq0, 8, 10) <= 8) by {
        assert(small_cost(RhoRegion::Gthan1d3Lthan3d4, 0, 2) == 0);
        assert(8nat / 2 == 4 && 8nat % 2 == 0);
        assert(small_cost(RhoRegion::Eq1, 2, 8) == 4);
        assert(10nat / 8 == 1 && 10nat % 8 == 2);
        assert(small_cost(RhoRegion::Eq0, 8, 10) == 5);
    }
    assert(small_cost(RhoRegion::Eq0, 9, 10) <= 8) by {
        assert(small_cost(RhoRegion::Gthan1d3Lthan3d4, 0, 1) == 0);
        assert(9nat / 1 == 9 && 9nat % 1 == 0);
        assert(small_cost(RhoRegion::Eq1, 1, 9) == 6);
        assert(10nat / 9 == 1 && 10nat % 9 == 1);
        assert(small_cost(RhoRegion::Eq0, 9, 10) == 7);
    }
    assert(small_cost(RhoRegion::Eq0, 10, 10) <= 8) by {
        assert(small_cost(RhoRegion::Eq1, 0, 10) == 0);
        assert(10nat / 10 == 1 && 10nat % 10 == 0);
        assert(small_cost(RhoRegion::Eq0, 10, 10) == 1);
    }
}

/// Every fraction over 11 takes at most 8 bits.
proof fn lemma_small_cost_11()
    ensures
        forall|p: nat| 1 <= p <= 11 ==> #[trigger] small_cost(RhoRegion::Eq0, p, 11) <= 8,
{
    assert(small_cost(RhoRegion::Eq0, 1, 11) <= 8) by {
        assert(small_cost(RhoRegion::Leq1div3, 0, 1) == 0);
        assert(11nat / 1 == 11 && 11nat % 1 == 0);
        assert(small_cost(RhoRegion::Eq0, 1, 11) == 7);
    }
    assert(small_cost(RhoRegion::Eq0, 2, 11) <= 8) by {
        assert(small_cost(RhoRegion::Leq1div3, 0, 1) == 0);
        assert(2nat / 1 == 2 && 2nat % 1 == 0);
        assert(small_cost(RhoRegion::Leq1div3, 1, 2) == 3);
        assert(11nat / 2 == 5 && 11nat % 2 == 1);
        assert(small_cost(RhoRegion::Eq0, 2, 11) == 8);
    }
    assert(small_cost(RhoRegion::Eq0, 3, 11) <= 8) by {
        assert(small_cost(RhoRegion::Gthan1d3Lthan3d4, 0, 1) == 0);
        assert(2nat / 1 == 2 && 2nat % 1 == 0);
        assert(small_cost(RhoRegion::Geq3Div4, 1, 2) == 2);
        assert(3nat / 2 == 1 && 3nat % 2 == 1);
        assert(small_cost(RhoRegion::Leq1div3, 2, 3) == 3);
        assert(11nat / 3 == 3 && 11nat % 3 == 2);
        assert(small_cost(RhoRegion::Eq0, 3, 11) == 7);
    }
    assert(small_cost(RhoRegion::Eq0, 4, 11) <= 8) by {
        assert(small_cost(RhoRegion::Leq1div3, 0, 1) == 0);
        assert(3nat / 1 == 3 && 3nat % 1 == 0);
        assert(small_cost(RhoRegion::Geq3Div4, 1, 3) == 3);
        assert(4nat / 3 == 1 && 4nat % 3 == 1);
        assert(small_cost(RhoRegion::Leq1div3, 3, 4) == 4);
        assert(11nat / 4 == 2 && 11nat % 4 == 3);
        assert(small_cost(RhoRegion::Eq0, 4, 11) == 7);
    }
    assert(small_cost(RhoRegion::Eq0, 5, 11) <= 8) by {
        assert(small_cost(RhoRegion::Leq1div3, 0, 1) == 0);
        assert(5nat / 1 == 5 && 5nat % 1 == 0);
        assert(small_cost(RhoRegion::Leq1div3, 1, 5) == 5);
        assert(11nat / 5 == 2 && 11nat % 5 == 1);
        assert(small_cost(RhoRegion::Eq0, 5, 11) == 8);
    }
    assert(small_cost(RhoRegion::Eq0, 6, 11) <= 8) by {
        assert(small_cost(RhoRegion::Leq1div3, 0, 1) == 0);
        assert(5nat / 1 == 5 && 5nat % 1 == 0);
        assert(small_cost(RhoRegion::Gthan1d3Lthan3d4, 1, 5) == 5);
        assert(6nat / 5 == 1 && 6nat % 5 == 1);
        assert(small_cost(RhoRegion::Eq1, 5, 6) == 7);
        assert(11nat / 6 == 1 && 11nat % 6 == 5);
        assert(small_cost(RhoRegion::Eq0, 6, 11) == 8);
    }
    assert(small_cost(RhoRegion::Eq0, 7, 11) <= 8) by {
        assert(small_cost(RhoRegion::Leq1div3, 0, 1) == 0);
        assert(3nat / 1 == 3 && 3nat % 1 == 0);
        assert(small_cost(RhoRegion::Gthan1d3Lthan3d4, 1, 3) == 4);
        assert(4nat / 3 == 1 && 4nat % 3 == 1);
        assert(small_cost(RhoRegion::Gthan1d3Lthan3d4, 3, 4) == 5);
        assert(7nat / 4 == 1 && 7nat % 4 == 3);
        assert(small_cost(RhoRegion::Eq1, 4, 7) == 7);
        assert(11nat / 7 == 1 && 11nat % 7 == 4);
        assert(small_cost(RhoRegion::Eq0, 7, 11) == 8);
    }
    assert(small_cost(RhoRegion::Eq0, 8, 11) <= 8) by {
        assert(small_cost(RhoRegion::Gthan1d3Lthan3d4, 0, 1) == 0);
        assert(2nat / 1 == 2 && 2nat % 1 == 0);
        assert(small_cost(RhoRegion::Geq3Div4, 1, 2) == 2);
        assert(3nat / 2 == 1 && 3nat % 2 == 1);
        assert(small_cost(RhoRegion::Leq1div3, 2, 3) == 3);
        assert(8nat / 3 == 2 && 8nat % 3 == 2);
        assert(small_cost(RhoRegion::Eq1, 3, 8) == 5);
        assert(11nat / 8 == 1 && 11nat % 8 == 3);
        assert(small_cost(RhoRegion::Eq0, 8, 11) == 6);
    }
    assert(small_cost(RhoRegion::Eq0, 9, 11) <= 8) by {
        assert(small_cost(RhoRegion::Gthan1d3Lthan3d4, 0, 1) == 0);
        assert(2nat / 1 == 2 && 2nat % 1 == 0);
        assert(small_cost(RhoRegion::Gthan1d3Lthan3d4, 1, 2) == 3);
        assert(9nat / 2 == 4 && 9nat % 2 == 1);
        assert(small_cost(RhoRegion::Eq1, 2, 9) == 7);
        assert(11nat / 9 == 1 && 11nat % 9 == 2);
        assert(small_cost(RhoRegion::Eq0, 9, 11) == 8);
    }
    assert(small_cost(RhoRegion::Eq0, 10, 11) <= 8) by {
        assert(small_cost(RhoRegion::Gthan1d3Lthan3d4, 0, 1) == 0);
        assert(10nat / 1 == 10 && 10nat % 1 == 0);
        assert(small_cost(RhoRegion::Eq1, 1, 10) == 6);
        assert(11nat / 10 == 1 && 11nat % 10 == 1);
        assert(small_cost(RhoRegion::Eq0, 10, 11) == 7);
    }
    assert(small_cost(RhoRegion::Eq0, 11, 11) <= 8) by {
        assert(small_cost(RhoRegion::Eq1, 0, 11) == 0);
        assert(11nat / 11 == 1 && 11nat % 11 == 0);
        assert(small_cost(RhoRegion::Eq0, 11, 11) == 1);
    }
}

/// The digits of every fraction with a denominator of at most 11 fit a
/// word of 8 bits.
pub proof fn lemma_small_fractions_fit(p: u64, q: u64)
    requires
        1 <= p <= q <= 11,
    ensures
        fits(p, q, 8),
{
    let n = p as nat;
    if q == 1 {
        lemma_small_cost_1();
        assert(small_cost(RhoRegion::Eq0, n, 1) <= 8);
    }
    if q == 2 {
        lemma_small_cost_2();
        assert(small_cost(RhoRegion::Eq0, n, 2) <= 8);
    }
    if q == 3 {
        lemma_small_cost_3();
        assert(small_cost(RhoRegion::Eq0, n, 3) <= 8);
    }
    if q == 4 {
        lemma_small_cost_4();
        assert(small_cost(RhoRegion::Eq0, n, 4) <= 8);
    }
    if q == 5 {
        lemma_small_cost_5();
        assert(small_cost(RhoRegion::Eq0, n, 5) <= 8);
    }
    if q == 6 {
        lemma_small_cost_6();
        assert(small_cost(RhoRegion::Eq0, n, 6) <= 8);
    }
    if q == 7 {
        lemma_small_cost_7();
        assert(small_cost(RhoRegion::Eq0, n, 7) <= 8);
    }
    if q == 8 {
        lemma_small_cost_8();
        assert(small_cost(RhoRegion::Eq0, n, 8) <= 8);
    }
    if q == 9 {
        lemma_small_cost_9();
        assert(small_cost(RhoRegion::Eq0, n, 9) <= 8);
    }
    if q == 10 {
        lemma_small_cost_10();
        assert(small_cost(RhoRegion::Eq0, n, 10) <= 8);
    }
    if q == 11 {
        lemma_small_cost_11();
        assert(small_cost(RhoRegion::Eq0, n, 11) <= 8);
    }
    lemma_small_digits(p as nat, q as nat);
    lemma_small_cost(RhoRegion::Eq0, p as nat, q as nat);
}

/// Every fraction in lowest terms with a denominator of at most 11 is what
/// some word of 8 bits decodes to.
pub proof fn lemma_small_fractions_have_words(p: u64, q: u64)
    requires
        1 <= p <= q <= 11,
        reduced(p as nat, q as nat),
    ensures
        exists|word: u8| decoded_fraction(be_bits(word as nat, 8)) == (p as int, q as int),
{
    let bits = encoded(p, q, 8);
    lemma_small_fractions_fit(p, q);
    lemma_decode_of_encode(p, q, 8);
    lemma_be_value_bound(bits);
    lemma_be_bits_of_value(bits);
    lemma2_to64();
    let word = be_value(bits) as u8;
    assert(be_bits(word as nat, 8) =~= bits);
}

/// Five twelfths is in lowest terms, and its digits do not fit a word of 8
/// bits: not every fraction with the denominator 12 does.
pub proof fn lemma_five_twelfths_does_not_fit()
    ensures
        reduced(5, 12),
        !fits(5, 12, 8),
{
    assert(small_digits(0, 1));
    assert(common_measure(0, 1) == 1);
    assert(small_cost(RhoRegion::Leq1div3, 0, 1) == 0);
    assert(2nat / 1 == 2 && 2nat % 1 == 0);
    assert(small_digits(1, 2));
    assert(common_measure(1, 2) == 1);
    assert(small_cost(RhoRegion::Leq1div3, 1, 2) == 3);
    assert(5nat / 2 == 2 && 5nat % 2 == 1);
    assert(small_digits(2, 5));
    assert(common_measure(2, 5) == 1);
    assert(small_cost(RhoRegion::Leq1div3, 2, 5) == 6);
    assert(12nat / 5 == 2 && 12nat % 5 == 2);
    assert(small_digits(5, 12));
    assert(common_measure(5, 12) == 1);
    assert(small_cost(RhoRegion::Eq0, 5, 12) == 9);
    lemma_small_cost(RhoRegion::Eq0, 5, 12);
    lemma_fold_of_digits(5, 12);
    let folded = cf_fold(cf_digits(5, 12).reverse());
    assert(1 * folded.0 == folded.0 && 1 * folded.1 == folded.1);
    lemma_fold_is_reduced(cf_digits(5, 12).reverse());
}

/// 55 / 126 is in lowest terms, and its digits do not fit a word of 16
/// bits: not every fraction with the denominator 126 does.
pub proof fn lemma_denominator_126_does_not_fit()
    ensures
        reduced(55, 126),
        !fits(55, 126, 16),
{
    assert(small_digits(0, 1));
    assert(common_measure(0, 1) == 1);
    assert(small_cost(RhoRegion::Leq1div3, 0, 1) == 0);
    assert(2nat / 1 == 2 && 2nat % 1 == 0);
    assert(small_digits(1, 2));
    assert(common_measure(1, 2) == 1);
    assert(small_cost(RhoRegion::Leq1div3, 1, 2) == 3);
    assert(7nat / 2 == 3 && 7nat % 2 == 1);
    assert(small_digits(2, 7));
    assert(common_measure(2, 7) == 1);
    assert(small_cost(RhoRegion::Leq1div3, 2, 7) == 7);
    assert(16nat / 7 == 2 && 16nat % 7 == 2);
    assert(small_digits(7, 16));
    assert(common_measure(7, 16) == 1);
    assert(small_cost(RhoRegion::Leq1div3, 7, 16) == 10);
    assert(55nat / 16 == 3 && 55nat % 16 == 7);
    assert(small_digits(16, 55));
    assert(common_measure(16, 55) == 1);
    assert(small_cost(RhoRegion::Leq1div3, 16, 55) == 14);
    assert(126nat / 55 == 2 && 126nat % 55 == 16);
    assert(small_digits(55, 126));
    assert(common_measure(55, 126) == 1);
    assert(small_cost(RhoRegion::Eq0, 55, 126) == 17);
    lemma_small_cost(RhoRegion::Eq0, 55, 126);
    lemma_fold_of_digits(55, 126);
    let folded = cf_fold(cf_digits(55, 126).reverse());
    assert(1 * folded.0 == folded.0 && 1 * folded.1 == folded.1);
    lemma_fold_is_reduced(cf_digits(55, 126).reverse());
}

/// 5741 / 13860 is in lowest terms, and its digits do not fit a word of
/// 32 bits: not every fraction with the denominator 13860 does.
pub proof fn lemma_denominator_13860_does_not_fit()
    ensures
        reduced(5741, 13860),
        !fits(5741, 13860, 32),
{
    assert(small_digits(0, 1));
    assert(common_measure(0, 1) == 1);
    assert(small_cost(RhoRegion::Leq1div3, 0, 1) == 0);
    assert(2nat / 1 == 2 && 2nat % 1 == 0);
    assert(small_digits(1, 2));
    assert(common_measure(1, 2) == 1);
    assert(small_cost(RhoRegion::Leq1div3, 1, 2) == 3);
    assert(5nat / 2 == 2 && 5nat % 2 == 1);
    assert(small_digits(2, 5));
    assert(common_measure(2, 5) == 1);
    assert(small_cost(RhoRegion::Leq1div3, 2, 5) == 6);
    assert(12nat / 5 == 2 && 12nat % 5 == 2);
    assert(small_digits(5, 12));
    assert(common_measure(5, 12) == 1);
    assert(small_cost(RhoRegion::Leq1div3, 5, 12) == 9);
    assert(29nat / 12 == 2 && 29nat % 12 == 5);
    assert(small_digits(12, 29));
    assert(common_measure(12, 29) == 1);
    assert(small_cost(RhoRegion::Leq1div3, 12, 29) == 12);
    assert(70nat / 29 == 2 && 70nat % 29 == 12);
    assert(small_digits(29, 70));
    assert(common_measure(29, 70) == 1);
    assert(small_cost(RhoRegion::Leq1div3, 29, 70) == 15);
    assert(169nat / 70 == 2 && 169nat % 70 == 29);
    assert(small_digits(70, 169));
    assert(common_measure(70, 169) == 1);
    assert(small_cost(RhoRegion::Leq1div3, 70, 169) == 18);
    assert(408nat / 169 == 2 && 408nat % 169 == 70);
    assert(small_digits(169, 408));
    assert(common_measure(169, 408) == 1);
    assert(small_cost(RhoRegion::Leq1div3, 169, 408) == 21);
    assert(985nat / 408 == 2 && 985nat % 408 == 169);
    assert(small_digits(408, 985));
    assert(common_measure(408, 985) == 1);
    assert(small_cost(RhoRegion::Leq1div3, 408, 985) == 24);
    assert(2378nat / 985 == 2 && 2378nat % 985 == 408);
    assert(small_digits(985, 2378));
    assert(common_measure(985, 2378) == 1);
    assert(small_cost(RhoRegion::Leq1div3, 985, 2378) == 27);
    assert(5741nat / 2378 == 2 && 5741nat % 2378 == 985);
    assert(small_digits(2378, 5741));
    assert(common_measure(2378, 5741) == 1);
    assert(small_cost(RhoRegion::Leq1div3, 2378, 5741) == 30);
    assert(13860nat / 5741 == 2 && 13860nat % 5741 == 2378);
    assert(small_digits(5741, 13860));
    assert(common_measure(5741, 13860) == 1);
    assert(small_cost(RhoRegion::Eq0, 5741, 13860) == 33);
    lemma_small_cost(RhoRegion::Eq0, 5741, 13860);
    lemma_fold_of_digits(5741, 13860);
    let folded = cf_fold(cf_digits(5741, 13860).reverse());
    assert(1 * folded.0 == folded.0 && 1 * folded.1 == folded.1);
    lemma_fold_is_reduced(cf_digits(5741, 13860).reverse());
}

} // verus!
