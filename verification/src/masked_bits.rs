//! A view of a contiguous run of bits inside one byte.

use vstd::prelude::*;
use vstd::std_specs::bits::{
    axiom_u8_leading_ones, axiom_u8_leading_zeros, axiom_u8_trailing_ones,
    axiom_u8_trailing_zeros,
};
use vstd::std_specs::cmp::PartialEqSpecImpl;
use crate::bits::{
    be_value, bit_at, leading_run, lemma_be_value_injective, lemma_bitwise_bits,
    lemma_leading_run, lemma_low_bits_value, lemma_shift_bits, lemma_trailing_run, low_bit,
    trailing_run,
};

verus! {

/// What a shift by `shift` places to the left does to each bit; a shift by
/// the whole width or more clears the byte.
pub open spec fn shifted_left(value: u8, shift: int, result: u8) -> bool {
    forall|i: int| 0 <= i < 8 ==> #[trigger] bit_at(result, i) == (0 <= i + shift < 8 && bit_at(value, i + shift))
}

/// What a shift by `shift` places to the right does to each bit; a shift by
/// the whole width or more clears the byte.
pub open spec fn shifted_right(value: u8, shift: int, result: u8) -> bool {
    forall|i: int| 0 <= i < 8 ==> #[trigger] bit_at(result, i) == (0 <= i - shift < 8 && bit_at(value, i - shift))
}

/// `value` shifted to the right by `shift` places, to the left where `shift`
/// is negative; zero once the shift reaches the width of a byte.
pub open spec fn shr_signed(value: u8, shift: int) -> u8 {
    if shift >= 8 || shift <= -8 {
        0
    } else if shift >= 0 {
        value >> (shift as u8)
    } else {
        value << ((-shift) as u8)
    }
}

/// Left shift that yields zero when the shift reaches the width of a byte.
pub fn fp_shl(value: u8, shift: u32) -> (result: u8)
    ensures
        shifted_left(value, shift as int, result),
        shift < 8 ==> result == value << shift,
        shift >= 8 ==> result == 0,
{
    proof {
        lemma_bitwise_bits();
        lemma_shift_bits();
    }
    if shift < 8 {
        let result: u8 = value << shift;
        assert(result == value << (shift as u8)) by (bit_vector)
            requires
                result == value << shift,
                shift < 8,
        ;
        assert forall|i: int| 0 <= i < 8 implies #[trigger] bit_at(result, i) == (0 <= i + shift
            < 8 && bit_at(value, i + shift)) by {
            let j = (7 - i) as u8;
            let s = shift as u8;
            assert(low_bit(value << s, j) == (j >= s && low_bit(value, (j - s) as u8)));
        }
        result
    } else {
        0
    }
}

/// Right shift that yields zero when the shift reaches the width of a byte.
pub fn fp_shr(value: u8, shift: u32) -> (result: u8)
    ensures
        shifted_right(value, shift as int, result),
        shift < 8 ==> result == value >> shift,
        shift >= 8 ==> result == 0,
{
    proof {
        lemma_bitwise_bits();
        lemma_shift_bits();
    }
    if shift < 8 {
        let result: u8 = value >> shift;
        assert(result == value >> (shift as u8)) by (bit_vector)
            requires
                result == value >> shift,
                shift < 8,
        ;
        assert forall|i: int| 0 <= i < 8 implies #[trigger] bit_at(result, i) == (0 <= i - shift
            < 8 && bit_at(value, i - shift)) by {
            let j = (7 - i) as u8;
            let s = shift as u8;
            assert(low_bit(value >> s, j) == (j + s < 8 && low_bit(value, (j + s) as u8)));
        }
        result
    } else {
        0
    }
}

/// Shift to the left by a signed amount: a negative amount shifts right.
pub fn fp_ishl(value: u8, shift: i32) -> (result: u8)
    requires
        shift > i32::MIN,
    ensures
        shifted_left(value, shift as int, result),
{
    if shift > 0 {
        fp_shl(value, shift as u32)
    } else if shift < 0 {
        let result = fp_shr(value, (-shift) as u32);
        assert forall|i: int| 0 <= i < 8 implies #[trigger] bit_at(result, i) == (0 <= i + shift
            < 8 && bit_at(value, i + shift)) by {
            assert(i + shift == i - (-shift));
        }
        result
    } else {
        value
    }
}

/// Shift to the right by a signed amount: a negative amount shifts left.
pub fn fp_ishr(value: u8, shift: i32) -> (result: u8)
    requires
        shift > i32::MIN,
    ensures
        shifted_right(value, shift as int, result),
        result == shr_signed(value, shift as int),
{
    assert(value >> 0u8 == value) by (bit_vector);
    if shift > 0 {
        let amount = shift as u32;
        assert(amount < 8 ==> value >> amount == value >> (amount as u8)) by (bit_vector);
        fp_shr(value, amount)
    } else if shift < 0 {
        let amount = (-shift) as u32;
        assert(amount < 8 ==> value << amount == value << (amount as u8)) by (bit_vector);
        let result = fp_shl(value, (-shift) as u32);
        assert forall|i: int| 0 <= i < 8 implies #[trigger] bit_at(result, i) == (0 <= i - shift
            < 8 && bit_at(value, i - shift)) by {
            assert(i - shift == i + (-shift));
        }
        result
    } else {
        value
    }
}

/// One byte together with the margins that fence off its live bits: the
/// first `left_margin` and the last `right_margin` bits are masked off.
#[derive(Debug, Clone, Copy)]
pub struct MaskedBits {
    data: u8,
    left_margin: u32,
    right_margin: u32,
}

impl View for MaskedBits {
    type V = Seq<bool>;

    /// The live bits, most significant first.
    open spec fn view(&self) -> Seq<bool> {
        Self::live(self.backing(), self.left(), self.right())
    }
}

impl MaskedBits {
    /// The bits of `data` between the two margins, most significant first.
    pub open spec fn live(data: u8, left_margin: nat, right_margin: nat) -> Seq<bool> {
        Seq::new((8 - left_margin - right_margin) as nat, |i: int| bit_at(data, left_margin + i))
    }

    #[verifier::type_invariant]
    closed spec fn inv(&self) -> bool {
        self.left_margin + self.right_margin <= 8
    }

    /// The backing byte, masked-off bits included.
    pub closed spec fn backing(&self) -> u8 {
        self.data
    }

    /// How many bits are masked off at the most significant end.
    pub closed spec fn left(&self) -> nat {
        self.left_margin as nat
    }

    /// How many bits are masked off at the least significant end.
    pub closed spec fn right(&self) -> nat {
        self.right_margin as nat
    }

    /// A view over the bits of `data` between the two margins.
    pub fn new(data: u8, left_margin: u32, right_margin: u32) -> (bits: Self)
        requires
            left_margin + right_margin <= 8,
        ensures
            bits.backing() == data,
            bits.left() == left_margin,
            bits.right() == right_margin,
    {
        Self { data, left_margin, right_margin }
    }

    /// A view over the first `len` bits of `data`.
    pub fn new_leading(data: u8, len: u32) -> (bits: Self)
        requires
            len <= 8,
        ensures
            bits.backing() == data,
            bits.left() == 0,
            bits.right() == 8 - len,
    {
        Self::new(data, 0, 8 - len)
    }

    /// A view over the last `len` bits of `data`.
    pub fn new_trailing(data: u8, len: u32) -> (bits: Self)
        requires
            len <= 8,
        ensures
            bits.backing() == data,
            bits.left() == 8 - len,
            bits.right() == 0,
    {
        Self::new(data, 8 - len, 0)
    }

    /// The backing byte.
    pub fn data(&self) -> (byte: u8)
        ensures
            byte == self.backing(),
    {
        self.data
    }

    /// The number of live bits.
    pub fn len(&self) -> (len: u32)
        ensures
            len == self@.len(),
            len == 8 - self.left() - self.right(),
    {
        proof {
            use_type_invariant(self);
        }
        8 - self.left_margin - self.right_margin
    }

    fn mask_left(&self) -> (mask: u8)
        ensures
            forall|i: int| 0 <= i < 8 ==> #[trigger] bit_at(mask, i) == (self.left() <= i),
    {
        proof {
            lemma_bitwise_bits();
        }
        let mask = fp_shr(u8::MAX, self.left_margin);
        assert forall|i: int| 0 <= i < 8 implies #[trigger] bit_at(mask, i) == (self.left() <= i) by {
            if i - self.left() >= 0 {
                assert(bit_at(0xFFu8, i - self.left()));
            }
        }
        mask
    }

    fn mask_right(&self) -> (mask: u8)
        ensures
            forall|i: int| 0 <= i < 8 ==> #[trigger] bit_at(mask, i) == (i < 8 - self.right()),
    {
        proof {
            lemma_bitwise_bits();
        }
        let mask = fp_shl(u8::MAX, self.right_margin);
        assert forall|i: int| 0 <= i < 8 implies #[trigger] bit_at(mask, i) == (i < 8
            - self.right()) by {
            if i + self.right() < 8 {
                assert(bit_at(0xFFu8, i + self.right()));
            }
        }
        mask
    }

    /// The byte whose set bits are exactly the live positions.
    pub fn mask(&self) -> (mask: u8)
        ensures
            forall|i: int| 0 <= i < 8 ==> #[trigger] bit_at(mask, i) == (self.left() <= i < 8 - self.right()),
    {
        proof {
            lemma_bitwise_bits();
        }
        let left = self.mask_left();
        let right = self.mask_right();
        assert forall|i: int| 0 <= i < 8 implies #[trigger] bit_at(left & right, i) == (self.left()
            <= i < 8 - self.right()) by {
            assert(bit_at(left, i) == (self.left() <= i));
            assert(bit_at(right, i) == (i < 8 - self.right()));
        }
        left & right
    }

    /// The backing byte with every masked-off bit cleared.
    pub fn masked(&self) -> (byte: u8)
        ensures
            forall|i: int| 0 <= i < 8 ==> #[trigger] bit_at(byte, i) == (self.left() <= i < 8 - self.right() && bit_at(self.backing(), i)),
    {
        proof {
            lemma_bitwise_bits();
        }
        let mask = self.mask();
        assert forall|i: int| 0 <= i < 8 implies #[trigger] bit_at(self.data & mask, i) == (
        self.left() <= i < 8 - self.right() && bit_at(self.backing(), i)) by {
            assert(bit_at(mask, i) == (self.left() <= i < 8 - self.right()));
        }
        self.data & mask
    }

    /// Keeps the last `len` live bits; a view that is already that short or
    /// shorter stays as it is.
    pub fn trim_leading_to(self, len: u32) -> (trimmed: Self)
        ensures
            trimmed.backing() == self.backing(),
            trimmed.right() == self.right(),
            len >= self@.len() ==> trimmed@ == self@ && trimmed.left() == self.left(),
            len < self@.len() ==> trimmed@ == self@.skip(self@.len() - len) && trimmed.left() == 8 - self.right() - len,
    {
        proof {
            use_type_invariant(self);
        }
        if len >= self.len() {
            self
        } else {
            let trimmed = Self {
                data: self.data,
                left_margin: self.left_margin + (self.len() - len),
                right_margin: self.right_margin,
            };
            assert(trimmed@ =~= self@.skip(self@.len() - len));
            trimmed
        }
    }

    /// Keeps the first `len` live bits; a view that is already that short or
    /// shorter stays as it is.
    pub fn trim_trailing_to(self, len: u32) -> (trimmed: Self)
        ensures
            trimmed.backing() == self.backing(),
            trimmed.left() == self.left(),
            len >= self@.len() ==> trimmed@ == self@ && trimmed.right() == self.right(),
            len < self@.len() ==> trimmed@ == self@.take(len as int) && trimmed.right() == 8 - self.left() - len,
    {
        proof {
            use_type_invariant(self);
        }
        if len >= self.len() {
            self
        } else {
            let trimmed = Self {
                data: self.data,
                left_margin: self.left_margin,
                right_margin: self.right_margin + (self.len() - len),
            };
            assert(trimmed@ =~= self@.take(len as int));
            trimmed
        }
    }

    /// Splits the view after its first `len` bits.
    pub fn split_leading_at(&self, len: u32) -> (parts: (Self, Self))
        requires
            len <= self@.len(),
        ensures
            parts.0@ == self@.take(len as int),
            parts.1@ == self@.skip(len as int),
            parts.0.backing() == self.backing(),
            parts.1.backing() == self.backing(),
            parts.0.left() == self.left(),
            parts.1.right() == self.right(),
    {
        let first = self.trim_trailing_to(len);
        let second = self.trim_leading_to(self.len() - len);
        assert(self@.take(self@.len() as int) =~= self@);
        assert(self@.skip(0) =~= self@);
        (first, second)
    }

    /// Splits the view before its last `len` bits.
    pub fn split_trailing_at(&self, len: u32) -> (parts: (Self, Self))
        requires
            len <= self@.len(),
        ensures
            parts.0@ == self@.take(self@.len() - len),
            parts.1@ == self@.skip(self@.len() - len),
            parts.0.backing() == self.backing(),
            parts.1.backing() == self.backing(),
            parts.0.left() == self.left(),
            parts.1.right() == self.right(),
    {
        let first = self.trim_trailing_to(self.len() - len);
        let second = self.trim_leading_to(len);
        assert(self@.take(self@.len() as int) =~= self@);
        assert(self@.skip(0) =~= self@);
        (first, second)
    }

    /// Copies the live bits of `other` into the live bits of this view; the
    /// masked-off bits of the backing byte stay as they are.
    pub fn assign(&mut self, other: MaskedBits)
        requires
            old(self)@.len() == other@.len(),
        ensures
            final(self)@ == other@,
            final(self).left() == old(self).left(),
            final(self).right() == old(self).right(),
            forall|i: int| 0 <= i < 8 && !(old(self).left() <= i < 8 - old(self).right()) ==> #[trigger] bit_at(final(self).backing(), i) == bit_at(old(self).backing(), i),
    {
        proof {
            use_type_invariant(&*self);
            use_type_invariant(other);
            lemma_bitwise_bits();
        }
        let mask = self.mask();
        let aligned = fp_ishr(
            other.data,
            (self.left_margin as i32) - (other.left_margin as i32),
        );
        let data: u8 = (self.data & !mask) | (aligned & mask);
        let ghost before = *self;
        assert forall|i: int| 0 <= i < 8 implies #[trigger] bit_at(data, i) == (if before.left()
            <= i < 8 - before.right() {
            bit_at(other.data, i - before.left() + other.left())
        } else {
            bit_at(before.data, i)
        }) by {
            assert(bit_at(mask, i) == (before.left() <= i < 8 - before.right()));
            assert(bit_at(aligned, i) == (0 <= i - (before.left() - other.left()) < 8 && bit_at(
                other.data,
                i - (before.left() - other.left()),
            )));
        }
        *self = Self { data, left_margin: self.left_margin, right_margin: self.right_margin };
        assert(self@ =~= other@);
    }

    /// The live bits of `other`, moved to where the live bits of this view are.
    pub open spec fn aligned(&self, other: MaskedBits) -> u8 {
        shr_signed(other.backing(), self.left() - other.left())
    }

    /// A fresh view with the margins of this one over the byte that `func`
    /// makes of the backing byte and the aligned byte of `other`.
    fn apply<F: FnOnce(u8, u8) -> u8>(self, other: MaskedBits, func: F) -> (result: MaskedBits)
        requires
            self@.len() == other@.len(),
            func.requires((self.backing(), self.aligned(other))),
        ensures
            result.left() == self.left(),
            result.right() == self.right(),
            func.ensures((self.backing(), self.aligned(other)), result.backing()),
            forall|i: int|
                0 <= i < self@.len() ==> #[trigger] bit_at(self.aligned(other), self.left() + i)
                    == other@[i],
    {
        proof {
            use_type_invariant(self);
            use_type_invariant(other);
        }
        let shifted = fp_ishr(
            other.data,
            (self.left_margin as i32) - (other.left_margin as i32),
        );
        MaskedBits::new(func(self.data, shifted), self.left_margin, self.right_margin)
    }

    /// The live bits of the two views, and-ed bit by bit.
    pub fn bitand(self, other: MaskedBits) -> (result: MaskedBits)
        requires
            self@.len() == other@.len(),
        ensures
            result@ == Seq::new(self@.len(), |i: int| self@[i] && other@[i]),
            result.left() == self.left(),
            result.right() == self.right(),
    {
        proof {
            use_type_invariant(self);
        }
        let result = self.apply(other, |a: u8, b: u8| -> (r: u8)
            ensures
                r == a & b,
            { a & b });
        proof {
            lemma_bitwise_bits();
            let shifted = self.aligned(other);
            assert(result.backing() == self.backing() & shifted);
            assert forall|i: int| 0 <= i < self@.len() implies #[trigger] result@[i] == (self@[i]
                && other@[i]) by {
                let j = (7 - (self.left() + i)) as u8;
                assert(bit_at(shifted, self.left() + i) == other@[i]);
                assert(low_bit(self.backing() & shifted, j) == (low_bit(self.backing(), j)
                    && low_bit(shifted, j)));
            }
            assert(result@ =~= Seq::new(self@.len(), |i: int| self@[i] && other@[i]));
        }
        result
    }

    /// The live bits of the two views, or-ed bit by bit.
    pub fn bitor(self, other: MaskedBits) -> (result: MaskedBits)
        requires
            self@.len() == other@.len(),
        ensures
            result@ == Seq::new(self@.len(), |i: int| self@[i] || other@[i]),
            result.left() == self.left(),
            result.right() == self.right(),
    {
        proof {
            use_type_invariant(self);
        }
        let result = self.apply(other, |a: u8, b: u8| -> (r: u8)
            ensures
                r == a | b,
            { a | b });
        proof {
            lemma_bitwise_bits();
            let shifted = self.aligned(other);
            assert(result.backing() == self.backing() | shifted);
            assert forall|i: int| 0 <= i < self@.len() implies #[trigger] result@[i] == (self@[i]
                || other@[i]) by {
                let j = (7 - (self.left() + i)) as u8;
                assert(bit_at(shifted, self.left() + i) == other@[i]);
                assert(low_bit(self.backing() | shifted, j) == (low_bit(self.backing(), j)
                    || low_bit(shifted, j)));
            }
            assert(result@ =~= Seq::new(self@.len(), |i: int| self@[i] || other@[i]));
        }
        result
    }

    /// The live bits of the two views, xor-ed bit by bit.
    pub fn bitxor(self, other: MaskedBits) -> (result: MaskedBits)
        requires
            self@.len() == other@.len(),
        ensures
            result@ == Seq::new(self@.len(), |i: int| self@[i] != other@[i]),
            result.left() == self.left(),
            result.right() == self.right(),
    {
        proof {
            use_type_invariant(self);
        }
        let result = self.apply(other, |a: u8, b: u8| -> (r: u8)
            ensures
                r == a ^ b,
            { a ^ b });
        proof {
            lemma_bitwise_bits();
            let shifted = self.aligned(other);
            assert(result.backing() == self.backing() ^ shifted);
            assert forall|i: int| 0 <= i < self@.len() implies #[trigger] result@[i] == (self@[i]
                != other@[i]) by {
                let j = (7 - (self.left() + i)) as u8;
                assert(bit_at(shifted, self.left() + i) == other@[i]);
                assert(low_bit(self.backing() ^ shifted, j) == (low_bit(self.backing(), j)
                    != low_bit(shifted, j)));
            }
            assert(result@ =~= Seq::new(self@.len(), |i: int| self@[i] != other@[i]));
        }
        result
    }

    /// Replaces the live bits by what `func` makes of the backing byte and
    /// the aligned byte of `other`; the masked-off bits stay as they are.
    fn apply_assign<F: FnOnce(u8, u8) -> u8>(&mut self, other: MaskedBits, func: F) -> (made: Ghost<u8>)
        requires
            old(self)@.len() == other@.len(),
            func.requires((old(self).backing(), old(self).aligned(other))),
        ensures
            final(self).left() == old(self).left(),
            final(self).right() == old(self).right(),
            func.ensures((old(self).backing(), old(self).aligned(other)), made@),
            forall|i: int|
                0 <= i < 8 ==> #[trigger] bit_at(final(self).backing(), i) == if old(self).left()
                    <= i < 8 - old(self).right() {
                    bit_at(made@, i)
                } else {
                    bit_at(old(self).backing(), i)
                },
            forall|i: int|
                0 <= i < old(self)@.len() ==> #[trigger] bit_at(
                    old(self).aligned(other),
                    old(self).left() + i,
                ) == other@[i],
    {
        proof {
            use_type_invariant(&*self);
            use_type_invariant(other);
            lemma_bitwise_bits();
        }
        let mask = self.mask();
        let shifted = fp_ishr(
            other.data,
            (self.left_margin as i32) - (other.left_margin as i32),
        );
        let made: u8 = func(self.data, shifted);
        let data: u8 = (self.data & !mask) | (made & mask);
        let ghost before = *self;
        assert forall|i: int| 0 <= i < 8 implies #[trigger] bit_at(data, i) == if before.left()
            <= i < 8 - before.right() {
            bit_at(made, i)
        } else {
            bit_at(before.data, i)
        } by {
            assert(bit_at(mask, i) == (before.left() <= i < 8 - before.right()));
        }
        *self = Self { data, left_margin: self.left_margin, right_margin: self.right_margin };
        Ghost(made)
    }

    /// And-s the live bits of `other` into the live bits of this view.
    pub fn bitand_assign(&mut self, other: MaskedBits)
        requires
            old(self)@.len() == other@.len(),
        ensures
            final(self)@ == Seq::new(old(self)@.len(), |i: int| old(self)@[i] && other@[i]),
            final(self).left() == old(self).left(),
            final(self).right() == old(self).right(),
            forall|i: int| 0 <= i < 8 && !(old(self).left() <= i < 8 - old(self).right()) ==> #[trigger] bit_at(final(self).backing(), i) == bit_at(old(self).backing(), i),
    {
        proof {
            use_type_invariant(&*self);
        }
        let ghost before = *self;
        let made = self.apply_assign(other, |a: u8, b: u8| -> (r: u8)
            ensures
                r == a & b,
            { a & b });
        proof {
            lemma_bitwise_bits();
            let shifted = before.aligned(other);
            assert(made@ == before.backing() & shifted);
            assert forall|i: int| 0 <= i < before@.len() implies #[trigger] self@[i] == (before@[i]
                && other@[i]) by {
                let at = before.left() + i;
                let j = (7 - at) as u8;
                assert(bit_at(shifted, at) == other@[i]);
                assert(bit_at(self.backing(), at) == bit_at(made@, at));
                assert(low_bit(before.backing() & shifted, j) == (low_bit(before.backing(), j)
                    && low_bit(shifted, j)));
            }
            assert(self@ =~= Seq::new(before@.len(), |i: int| before@[i] && other@[i]));
        }
    }

    /// Or-s the live bits of `other` into the live bits of this view.
    pub fn bitor_assign(&mut self, other: MaskedBits)
        requires
            old(self)@.len() == other@.len(),
        ensures
            final(self)@ == Seq::new(old(self)@.len(), |i: int| old(self)@[i] || other@[i]),
            final(self).left() == old(self).left(),
            final(self).right() == old(self).right(),
            forall|i: int| 0 <= i < 8 && !(old(self).left() <= i < 8 - old(self).right()) ==> #[trigger] bit_at(final(self).backing(), i) == bit_at(old(self).backing(), i),
    {
        proof {
            use_type_invariant(&*self);
        }
        let ghost before = *self;
        let made = self.apply_assign(other, |a: u8, b: u8| -> (r: u8)
            ensures
                r == a | b,
            { a | b });
        proof {
            lemma_bitwise_bits();
            let shifted = before.aligned(other);
            assert(made@ == before.backing() | shifted);
            assert forall|i: int| 0 <= i < before@.len() implies #[trigger] self@[i] == (before@[i]
                || other@[i]) by {
                let at = before.left() + i;
                let j = (7 - at) as u8;
                assert(bit_at(shifted, at) == other@[i]);
                assert(bit_at(self.backing(), at) == bit_at(made@, at));
                assert(low_bit(before.backing() | shifted, j) == (low_bit(before.backing(), j)
                    || low_bit(shifted, j)));
            }
            assert(self@ =~= Seq::new(before@.len(), |i: int| before@[i] || other@[i]));
        }
    }

    /// Xor-s the live bits of `other` into the live bits of this view.
    pub fn bitxor_assign(&mut self, other: MaskedBits)
        requires
            old(self)@.len() == other@.len(),
        ensures
            final(self)@ == Seq::new(old(self)@.len(), |i: int| old(self)@[i] != other@[i]),
            final(self).left() == old(self).left(),
            final(self).right() == old(self).right(),
            forall|i: int| 0 <= i < 8 && !(old(self).left() <= i < 8 - old(self).right()) ==> #[trigger] bit_at(final(self).backing(), i) == bit_at(old(self).backing(), i),
    {
        proof {
            use_type_invariant(&*self);
        }
        let ghost before = *self;
        let made = self.apply_assign(other, |a: u8, b: u8| -> (r: u8)
            ensures
                r == a ^ b,
            { a ^ b });
        proof {
            lemma_bitwise_bits();
            let shifted = before.aligned(other);
            assert(made@ == before.backing() ^ shifted);
            assert forall|i: int| 0 <= i < before@.len() implies #[trigger] self@[i] == (before@[i]
                != other@[i]) by {
                let at = before.left() + i;
                let j = (7 - at) as u8;
                assert(bit_at(shifted, at) == other@[i]);
                assert(bit_at(self.backing(), at) == bit_at(made@, at));
                assert(low_bit(before.backing() ^ shifted, j) == (low_bit(before.backing(), j)
                    != low_bit(shifted, j)));
            }
            assert(self@ =~= Seq::new(before@.len(), |i: int| before@[i] != other@[i]));
        }
    }

    /// How many zeros stand at the front of the live bits.
    pub fn leading_zeros(&self) -> (count: u32)
        ensures
            count == leading_run(self@, false),
    {
        proof {
            use_type_invariant(self);
            lemma_bitwise_bits();
        }
        let left = self.mask_left();
        let right = self.mask_right();
        let byte: u8 = (self.data & left) | !right;
        let found: u32 = byte.leading_zeros();
        proof {
            axiom_u8_leading_zeros(byte);
            let n = found as int;
            assert forall|i: int| 0 <= i < 8 implies #[trigger] bit_at(byte, i) == (i >= 8
                - self.right() || (self.left() <= i && bit_at(self.data, i))) by {
                assert(bit_at(left, i) == (self.left() <= i));
                assert(bit_at(right, i) == (i < 8 - self.right()));
            }
            assert forall|i: int| 0 <= i < n implies !#[trigger] bit_at(byte, i) by {
                assert(!low_bit(byte, (7 - i) as u8));
            }
            if n < 8 {
                assert(bit_at(byte, n));
            }
            if self.right() > 0 {
                assert(bit_at(byte, 8 - self.right()));
            }
            assert(self.left() <= n <= 8 - self.right());
            assert forall|i: int| 0 <= i < n - self.left() implies !self@[i] by {
                assert(!bit_at(byte, self.left() + i));
            }
            lemma_leading_run(self@, false, (n - self.left()) as nat);
        }
        found - self.left_margin
    }

    /// How many ones stand at the front of the live bits.
    pub fn leading_ones(&self) -> (count: u32)
        ensures
            count == leading_run(self@, true),
    {
        proof {
            use_type_invariant(self);
            lemma_bitwise_bits();
        }
        let left = self.mask_left();
        let right = self.mask_right();
        let byte: u8 = (self.data | !left) & right;
        let found: u32 = byte.leading_ones();
        proof {
            axiom_u8_leading_ones(byte);
            let n = found as int;
            assert forall|i: int| 0 <= i < 8 implies #[trigger] bit_at(byte, i) == (i < 8
                - self.right() && (i < self.left() || bit_at(self.data, i))) by {
                assert(bit_at(left, i) == (self.left() <= i));
                assert(bit_at(right, i) == (i < 8 - self.right()));
            }
            assert forall|i: int| 0 <= i < n implies #[trigger] bit_at(byte, i) by {
                assert(low_bit(byte, (7 - i) as u8));
            }
            if n < 8 {
                assert(!bit_at(byte, n));
            }
            if self.right() > 0 {
                assert(!bit_at(byte, 8 - self.right()));
            }
            assert(self.left() <= n <= 8 - self.right());
            assert forall|i: int| 0 <= i < n - self.left() implies self@[i] by {
                assert(bit_at(byte, self.left() + i));
            }
            lemma_leading_run(self@, true, (n - self.left()) as nat);
        }
        found - self.left_margin
    }

    /// How many zeros stand at the end of the live bits.
    pub fn trailing_zeros(&self) -> (count: u32)
        ensures
            count == trailing_run(self@, false),
    {
        proof {
            use_type_invariant(self);
            lemma_bitwise_bits();
        }
        let left = self.mask_left();
        let right = self.mask_right();
        let byte: u8 = (self.data & right) | !left;
        let found: u32 = byte.trailing_zeros();
        proof {
            axiom_u8_trailing_zeros(byte);
            let n = found as int;
            assert forall|i: int| 0 <= i < 8 implies #[trigger] bit_at(byte, i) == (i
                < self.left() || (i < 8 - self.right() && bit_at(self.data, i))) by {
                assert(bit_at(left, i) == (self.left() <= i));
                assert(bit_at(right, i) == (i < 8 - self.right()));
            }
            assert forall|i: int| 8 - n <= i < 8 implies !#[trigger] bit_at(byte, i) by {
                assert(!low_bit(byte, (7 - i) as u8));
            }
            if n < 8 {
                assert(bit_at(byte, 7 - n));
            }
            if self.left() > 0 {
                assert(bit_at(byte, self.left() - 1));
            }
            assert(self.right() <= n <= 8 - self.left());
            let count = n - self.right();
            assert forall|i: int| self@.len() - count <= i < self@.len() implies !self@[i] by {
                assert(!bit_at(byte, self.left() + i));
            }
            lemma_trailing_run(self@, false, count as nat);
        }
        found - self.right_margin
    }

    /// How many ones stand at the end of the live bits.
    pub fn trailing_ones(&self) -> (count: u32)
        ensures
            count == trailing_run(self@, true),
    {
        proof {
            use_type_invariant(self);
            lemma_bitwise_bits();
        }
        let left = self.mask_left();
        let right = self.mask_right();
        let byte: u8 = (self.data | !right) & left;
        let found: u32 = byte.trailing_ones();
        proof {
            axiom_u8_trailing_ones(byte);
            let n = found as int;
            assert forall|i: int| 0 <= i < 8 implies #[trigger] bit_at(byte, i) == (i
                >= self.left() && (i >= 8 - self.right() || bit_at(self.data, i))) by {
                assert(bit_at(left, i) == (self.left() <= i));
                assert(bit_at(right, i) == (i < 8 - self.right()));
            }
            assert forall|i: int| 8 - n <= i < 8 implies #[trigger] bit_at(byte, i) by {
                assert(low_bit(byte, (7 - i) as u8));
            }
            if n < 8 {
                assert(!bit_at(byte, 7 - n));
            }
            if self.left() > 0 {
                assert(!bit_at(byte, self.left() - 1));
            }
            assert(self.right() <= n <= 8 - self.left());
            let count = n - self.right();
            assert forall|i: int| self@.len() - count <= i < self@.len() implies self@[i] by {
                assert(bit_at(byte, self.left() + i));
            }
            lemma_trailing_run(self@, true, count as nat);
        }
        found - self.right_margin
    }

    /// The number that the live bits spell, most significant bit first.
    pub fn value(&self) -> (value: u8)
        ensures
            value == be_value(self@),
    {
        proof {
            use_type_invariant(self);
        }
        let masked = self.masked();
        let value = fp_shr(masked, self.right_margin);
        proof {
            let len = self@.len();
            assert forall|i: int| 0 <= i < 8 - len implies !bit_at(value, i) by {
                assert(bit_at(value, i) == (0 <= i - self.right() < 8 && bit_at(
                    masked,
                    i - self.right(),
                )));
            }
            lemma_low_bits_value(value, len);
            assert(self@ =~= Seq::new(len, |i: int| bit_at(value, 8 - len + i))) by {
                assert forall|i: int| 0 <= i < len implies self@[i] == bit_at(
                    value,
                    8 - len + i,
                ) by {
                    let at = 8 - len + i;
                    assert(bit_at(value, at) == (0 <= at - self.right() < 8 && bit_at(
                        masked,
                        at - self.right(),
                    )));
                    assert(bit_at(masked, self.left() + i) == bit_at(self.data, self.left() + i));
                }
            }
        }
        value
    }
}

impl PartialEq for MaskedBits {
    /// Two views are equal when their live bits are, wherever in their
    /// bytes they lie.
    fn eq(&self, other: &Self) -> (equal: bool) {
        let same_len = self.len() == other.len();
        let mine = self.value();
        let theirs = other.value();
        proof {
            if same_len && mine == theirs {
                lemma_be_value_injective(self@, other@);
            }
        }
        same_len && mine == theirs
    }
}

impl PartialEqSpecImpl for MaskedBits {
    open spec fn obeys_eq_spec() -> bool {
        true
    }

    open spec fn eq_spec(&self, other: &Self) -> bool {
        self@ == other@
    }
}

impl Eq for MaskedBits {

}

} // verus!
