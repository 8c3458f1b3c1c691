//! A view of a run of bits inside one byte that shrinks to fit its partner:
//! two views of different lengths are combined over the length of the
//! shorter one, each giving up bits on the side that its type names.

use vstd::prelude::*;
use core::marker::PhantomData;
use crate::bits::{be_value, bit_at};
use crate::masked_bits::MaskedBits;

verus! {

/// The side on which a view keeps its bits when it is shortened.
pub trait TrimSide {
    /// Whether the first bits stay, and the last ones go.
    const ANCHOR_LEFT: bool;
}

/// Shortening takes bits away at the front.
#[derive(Debug, Copy, Clone)]
pub struct TrimLeft;

/// Shortening takes bits away at the end.
#[derive(Debug, Copy, Clone)]
pub struct TrimRight;

impl TrimSide for TrimLeft {
    const ANCHOR_LEFT: bool = false;
}

impl TrimSide for TrimRight {
    const ANCHOR_LEFT: bool = true;
}

/// The first or the last `len` bits of `bits`, or all of them where there
/// are no more.
pub open spec fn trimmed(bits: Seq<bool>, len: nat, anchor_left: bool) -> Seq<bool> {
    if len >= bits.len() {
        bits
    } else if anchor_left {
        bits.take(len as int)
    } else {
        bits.skip(bits.len() - len)
    }
}

/// One byte, the margins that fence off its live bits, and the side on
/// which the view is shortened.
#[derive(Debug)]
pub struct BitwiseArray<S: TrimSide> {
    bits: MaskedBits,
    _side_marker: PhantomData<S>,
}

impl<S: TrimSide> Clone for BitwiseArray<S> {
    fn clone(&self) -> (copy: Self)
        ensures
            copy@ == self@,
    {
        Self { bits: self.bits, _side_marker: PhantomData }
    }
}

impl<S: TrimSide> Copy for BitwiseArray<S> {

}

impl<S: TrimSide> View for BitwiseArray<S> {
    type V = Seq<bool>;

    /// The live bits, most significant first.
    open spec fn view(&self) -> Seq<bool> {
        MaskedBits::live(self.backing(), self.left(), self.right())
    }
}

impl<S: TrimSide> BitwiseArray<S> {
    /// The backing byte, masked-off bits included.
    pub closed spec fn backing(&self) -> u8 {
        self.bits.backing()
    }

    /// How many bits are masked off at the most significant end.
    pub closed spec fn left(&self) -> nat {
        self.bits.left()
    }

    /// How many bits are masked off at the least significant end.
    pub closed spec fn right(&self) -> nat {
        self.bits.right()
    }

    /// A view over the bits of `data` between the two margins.
    pub fn new(data: u8, left_margin: u32, right_margin: u32) -> (array: Self)
        requires
            left_margin + right_margin <= 8,
        ensures
            array.backing() == data,
            array.left() == left_margin,
            array.right() == right_margin,
    {
        Self { bits: MaskedBits::new(data, left_margin, right_margin), _side_marker: PhantomData }
    }

    /// The number of live bits.
    pub fn len(&self) -> (len: u32)
        ensures
            len == self@.len(),
            len == 8 - self.left() - self.right(),
    {
        self.bits.len()
    }

    /// The byte whose set bits are exactly the live positions.
    pub fn mask(&self) -> (mask: u8)
        ensures
            forall|i: int| 0 <= i < 8 ==> #[trigger] bit_at(mask, i) == (self.left() <= i < 8 - self.right()),
    {
        self.bits.mask()
    }

    /// The backing byte with every masked-off bit cleared.
    pub fn masked(&self) -> (byte: u8)
        ensures
            forall|i: int| 0 <= i < 8 ==> #[trigger] bit_at(byte, i) == (self.left() <= i < 8 - self.right() && bit_at(self.backing(), i)),
    {
        self.bits.masked()
    }

    /// Shortens the view to `len` bits on the side that `S` names; a view
    /// that is already that short stays as it is.
    pub fn trim(&mut self, len: u32)
        ensures
            final(self)@ == trimmed(old(self)@, len as nat, S::ANCHOR_LEFT),
            final(self).backing() == old(self).backing(),
    {
        if S::ANCHOR_LEFT {
            self.bits = self.bits.trim_trailing_to(len);
        } else {
            self.bits = self.bits.trim_leading_to(len);
        }
    }

    /// This view and `other`, each shortened to the length of the shorter
    /// one on its own side.
    fn paired<S2: TrimSide>(self, other: BitwiseArray<S2>) -> (pair: (MaskedBits, MaskedBits))
        ensures
            pair.0@ == trimmed(self@, other@.len(), S::ANCHOR_LEFT),
            pair.1@ == trimmed(other@, pair.0@.len(), S2::ANCHOR_LEFT),
            pair.0@.len() == pair.1@.len(),
    {
        let mut mine = self;
        let mut theirs = other;
        mine.trim(theirs.len());
        theirs.trim(mine.len());
        (mine.bits, theirs.bits)
    }

    /// The live bits of the two views, and-ed bit by bit over the length of
    /// the shorter one.
    pub fn bitand<S2: TrimSide>(self, other: BitwiseArray<S2>) -> (result: BitwiseArray<TrimLeft>)
        ensures
            ({
                let mine = trimmed(self@, other@.len(), S::ANCHOR_LEFT);
                let theirs = trimmed(other@, mine.len(), S2::ANCHOR_LEFT);
                result@ == Seq::new(mine.len(), |i: int| mine[i] && theirs[i])
            }),
    {
        let (mine, theirs) = self.paired(other);
        BitwiseArray { bits: mine.bitand(theirs), _side_marker: PhantomData }
    }

    /// The live bits of the two views, or-ed bit by bit over the length of
    /// the shorter one.
    pub fn bitor<S2: TrimSide>(self, other: BitwiseArray<S2>) -> (result: BitwiseArray<TrimLeft>)
        ensures
            ({
                let mine = trimmed(self@, other@.len(), S::ANCHOR_LEFT);
                let theirs = trimmed(other@, mine.len(), S2::ANCHOR_LEFT);
                result@ == Seq::new(mine.len(), |i: int| mine[i] || theirs[i])
            }),
    {
        let (mine, theirs) = self.paired(other);
        BitwiseArray { bits: mine.bitor(theirs), _side_marker: PhantomData }
    }

    /// The live bits of the two views, xor-ed bit by bit over the length of
    /// the shorter one.
    pub fn bitxor<S2: TrimSide>(self, other: BitwiseArray<S2>) -> (result: BitwiseArray<TrimLeft>)
        ensures
            ({
                let mine = trimmed(self@, other@.len(), S::ANCHOR_LEFT);
                let theirs = trimmed(other@, mine.len(), S2::ANCHOR_LEFT);
                result@ == Seq::new(mine.len(), |i: int| mine[i] != theirs[i])
            }),
    {
        let (mine, theirs) = self.paired(other);
        BitwiseArray { bits: mine.bitxor(theirs), _side_marker: PhantomData }
    }

    /// The number that the live bits spell, most significant bit first.
    pub fn value(&self) -> (value: u8)
        ensures
            value == be_value(self@),
    {
        self.bits.value()
    }

    /// Whether the two views hold the same live bits, wherever in their
    /// bytes they lie and on whichever side they are shortened.
    pub fn same_bits<S2: TrimSide>(&self, other: &BitwiseArray<S2>) -> (equal: bool)
        ensures
            equal == (self@ == other@),
    {
        self.bits == other.bits
    }
}

} // verus!
