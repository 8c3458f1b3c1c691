//! Bit-level readers and writers over a byte buffer, most significant bit
//! first within each byte.

use vstd::prelude::*;
use crate::bits::{bit_at, bits_of, lemma_bitwise_bits, lemma_overwrite_concat, low_bit, overwrite};
use crate::masked_bits::MaskedBits;

verus! {

/// Whether bit `index` of `bits` is set, counted from the least significant.
pub fn masked_bit(bits: u8, index: u32) -> (set: bool)
    requires
        index < 8,
    ensures
        set == bit_at(bits, 7 - index),
{
    assert(((bits & (1u8 << index)) != 0) == low_bit(bits, index as u8)) by (bit_vector)
        requires
            index < 8,
    ;
    (bits & (1u8 << index)) != 0
}

/// A cursor over an immutable byte slice that hands out one bit at a time.
pub struct BitDecoder<'a> {
    bits: &'a [u8],
    bit_offset: u32,
}

impl<'a> View for BitDecoder<'a> {
    type V = Seq<bool>;

    /// The bits that are still to be read, in reading order.
    closed spec fn view(&self) -> Seq<bool> {
        bits_of(self.bits@).skip(self.bit_offset as int)
    }
}

impl<'a> BitDecoder<'a> {
    /// The offset stays inside the first byte, and the bit count fits a `usize`.
    #[verifier::type_invariant]
    closed spec fn inv(&self) -> bool {
        &&& self.bit_offset < 8
        &&& self.bit_offset == 0 || self.bits@.len() > 0
        &&& 8 * self.bits@.len() <= usize::MAX
    }

    /// A reader at the first bit of `bits`.
    pub fn new(bits: &'a [u8]) -> (decoder: Self)
        requires
            8 * bits@.len() <= usize::MAX,
        ensures
            decoder@ == bits_of(bits@),
    {
        Self { bits, bit_offset: 0 }
    }

    /// How many bits are still to be read.
    pub fn bits_left(&self) -> (count: usize)
        ensures
            count == self@.len(),
            count + 7 <= usize::MAX,
    {
        proof {
            use_type_invariant(self);
        }
        8 * self.bits.len() - (self.bit_offset as usize)
    }

    /// Whether every bit has been read.
    pub fn is_empty(&self) -> (empty: bool)
        ensures
            empty == (self@.len() == 0),
    {
        self.bits_left() == 0
    }

    fn validate_len(&self, count: usize) -> (outcome: Result<(), usize>)
        ensures
            outcome == if count <= self@.len() {
                Ok::<(), usize>(())
            } else {
                Err::<(), usize>((count - self@.len()) as usize)
            },
    {
        if self.bits_left() < count {
            Err(count - self.bits_left())
        } else {
            Ok(())
        }
    }

    /// Drops the next `count` bits. When fewer are left, nothing is consumed
    /// and the error is the number of bits that were missing.
    pub fn skip_bits(&mut self, count: usize) -> (outcome: Result<(), usize>)
        ensures
            count <= old(self)@.len() ==> outcome == Ok::<(), usize>(()) && final(self)@
                == old(self)@.skip(count as int),
            count > old(self)@.len() ==> outcome == Err::<(), usize>(
                (count - old(self)@.len()) as usize,
            ) && final(self)@ == old(self)@,
    {
        proof {
            use_type_invariant(&*self);
        }
        match self.validate_len(count) {
            Err(missing) => { return Err(missing); },
            Ok(()) => {},
        }
        let total: usize = count + self.bit_offset as usize;
        let whole: usize = total / 8;
        let ghost before = self.bits@;
        let ghost offset = self.bit_offset as int;
        let rest: &'a [u8] = vstd::slice::slice_subrange(self.bits, whole, self.bits.len());
        let bit_offset: u32 = (total % 8) as u32;
        assert(bit_offset == 0 || rest@.len() > 0);
        *self = Self { bits: rest, bit_offset };
        proof {
            let after = self.bits@;
            assert(after == before.subrange(whole as int, before.len() as int));
            assert(8 * whole + self.bit_offset == count + offset);
            let lhs = bits_of(after).skip(self.bit_offset as int);
            let rhs = bits_of(before).skip(offset).skip(count as int);
            assert(lhs.len() == rhs.len());
            assert forall|i: int| 0 <= i < lhs.len() implies #[trigger] lhs[i] == rhs[i] by {
                let j = i + self.bit_offset;
                assert((j + 8 * whole) / 8 == j / 8 + whole);
                assert((j + 8 * whole) % 8 == j % 8);
                assert(after[j / 8] == before[j / 8 + whole]);
            }
            assert(lhs =~= rhs);
        }
        Ok(())
    }

    /// Reads the next bit. At the end of the buffer nothing is consumed and
    /// the error says that one bit was missing.
    pub fn read_bit(&mut self) -> (outcome: Result<bool, usize>)
        ensures
            old(self)@.len() + 7 <= usize::MAX,
            old(self)@.len() > 0 ==> outcome == Ok::<bool, usize>(old(self)@[0]) && final(self)@
                == old(self)@.skip(1),
            old(self)@.len() == 0 ==> outcome == Err::<bool, usize>(1) && final(self)@ == old(
                self,
            )@,
    {
        proof {
            use_type_invariant(&*self);
        }
        match self.validate_len(1) {
            Err(missing) => { return Err(missing); },
            Ok(()) => {},
        }
        let result = masked_bit(self.bits[0], 7 - self.bit_offset);
        match self.skip_bits(1) {
            Ok(()) => Ok(result),
            Err(missing) => Err(missing),
        }
    }
}

/// A cursor over a mutable byte slice that places one bit at a time,
/// leaving every other bit of the buffer as it was.
pub struct BitEncoder<'a> {
    /// The buffer that is written to.
    pub bits: &'a mut [u8],
    /// How many bits have been written.
    pub pos: usize,
}

impl<'a> BitEncoder<'a> {
    /// The cursor stays inside the buffer, and the bit count fits a `usize`.
    pub open spec fn wf(&self) -> bool {
        self.pos <= 8 * self.bits@.len() <= usize::MAX
    }

    /// The bytes of the buffer as they stand now.
    pub open spec fn bytes(&self) -> Seq<u8> {
        self.bits@
    }

    /// Every bit of the buffer, written or not.
    pub open spec fn stream(&self) -> Seq<bool> {
        bits_of(self.bits@)
    }

    /// How many bits can still be written.
    pub open spec fn room(&self) -> nat {
        (8 * self.bits@.len() - self.pos) as nat
    }

    /// This state is `before` after `word` was written at the cursor, as far
    /// as it fitted.
    pub open spec fn wrote(&self, before: &Self, word: Seq<bool>) -> bool {
        let fitted = if word.len() <= before.room() {
            word
        } else {
            word.take(before.room() as int)
        };
        &&& self.bytes().len() == before.bytes().len()
        &&& self.pos == before.pos + fitted.len()
        &&& self.stream() == overwrite(before.stream(), before.pos as int, fitted)
    }

    /// Writing a word that fits and then another writes the two in a row.
    pub proof fn lemma_wrote_then(
        &self,
        before: &Self,
        middle: &Self,
        head: Seq<bool>,
        tail: Seq<bool>,
    )
        requires
            before.wf(),
            head.len() <= before.room(),
            middle.wrote(before, head),
            self.wrote(middle, tail),
        ensures
            self.wrote(before, head + tail),
    {
        let room = before.room() as int;
        let fitted = if tail.len() <= middle.room() {
            tail
        } else {
            tail.take(middle.room() as int)
        };
        lemma_overwrite_concat(before.stream(), before.pos as int, head, fitted);
        if (head + tail).len() <= room {
            assert(fitted == tail);
        } else {
            assert((head + tail).take(room) =~= head + fitted);
        }
    }

    /// A writer at the first bit of `bits`. What it writes is what the buffer
    /// holds once the writer is gone.
    pub fn new(bits: &'a mut [u8]) -> (encoder: Self)
        requires
            8 * old(bits)@.len() <= usize::MAX,
        ensures
            encoder.wf(),
            encoder.pos == 0,
            encoder.bytes() == old(bits)@,
            final(bits)@ == final(encoder.bits)@,
    {
        Self { bits, pos: 0 }
    }

    /// How many bits can still be written.
    pub fn bits_left(&self) -> (count: usize)
        requires
            self.wf(),
        ensures
            count == self.room(),
    {
        8 * self.bits.len() - self.pos
    }

    /// Whether the buffer is full.
    pub fn is_empty(&self) -> (empty: bool)
        requires
            self.wf(),
        ensures
            empty == (self.room() == 0),
    {
        self.bits_left() == 0
    }

    fn validate_len(&self, count: usize) -> (outcome: Result<(), usize>)
        requires
            self.wf(),
        ensures
            outcome == if count <= self.room() {
                Ok::<(), usize>(())
            } else {
                Err::<(), usize>((count - self.room()) as usize)
            },
    {
        if self.bits_left() < count {
            Err(count - self.bits_left())
        } else {
            Ok(())
        }
    }

    /// The unwritten part of the byte under the cursor, if there is one.
    fn bitarray(&self) -> (view: Option<MaskedBits>)
        requires
            self.wf(),
        ensures
            self.room() == 0 ==> view.is_none(),
            self.room() > 0 ==> view.is_some() && view.unwrap().backing() == self.bytes()[self.pos as int
                / 8] && view.unwrap().left() == self.pos % 8 && view.unwrap().right() == 0,
    {
        let index: usize = self.pos / 8;
        if index < self.bits.len() {
            Some(MaskedBits::new(self.bits[index], (self.pos % 8) as u32, 0))
        } else {
            None
        }
    }

    fn advance(&mut self, count: usize) -> (outcome: Result<(), usize>)
        requires
            old(self).wf(),
        ensures
            final(self).wf(),
            final(self).bytes() == old(self).bytes(),
            final(final(self).bits)@ == final(old(self).bits)@,
            count <= old(self).room() ==> outcome == Ok::<(), usize>(()) && final(self).pos
                == old(self).pos + count,
            count > old(self).room() ==> outcome == Err::<(), usize>(
                (count - old(self).room()) as usize,
            ) && final(self).pos == old(self).pos,
    {
        match self.validate_len(count) {
            Err(missing) => { return Err(missing); },
            Ok(()) => {},
        }
        self.pos = self.pos + count;
        Ok(())
    }

    /// Writes one bit at the cursor. When the buffer is full nothing changes
    /// and the error says that one bit did not fit.
    pub fn write_bit(&mut self, bit: bool) -> (outcome: Result<(), usize>)
        requires
            old(self).wf(),
        ensures
            final(self).wf(),
            final(final(self).bits)@ == final(old(self).bits)@,
            final(self).bytes().len() == old(self).bytes().len(),
            old(self).room() > 0 ==> outcome == Ok::<(), usize>(()) && final(self).pos == old(
                self,
            ).pos + 1 && final(self).stream() == old(self).stream().update(
                old(self).pos as int,
                bit,
            ),
            old(self).room() == 0 ==> outcome == Err::<(), usize>(1) && final(self).pos == old(
                self,
            ).pos && final(self).bytes() == old(self).bytes(),
    {
        let view = match self.bitarray() {
            None => { return Err(1); },
            Some(view) => view,
        };
        let ghost before = self.bits@;
        let ghost at = self.pos as int;
        let mut target = view.trim_trailing_to(1);
        let fill = MaskedBits::new(if bit { 0xFF } else { 0x00 }, 7, 0);
        proof {
            lemma_bitwise_bits();
            assert(fill@.len() == 1);
            assert(fill@[0] == bit_at(fill.backing(), 7));
            assert(low_bit(fill.backing(), 0) == bit);
        }
        target.assign(fill);
        let index: usize = self.pos / 8;
        let byte: u8 = target.data();
        self.bits[index] = byte;
        proof {
            let after = self.bits@;
            assert(target@[0] == bit_at(byte, at % 8));
            assert(bits_of(after) =~= bits_of(before).update(at, bit)) by {
                assert forall|i: int| 0 <= i < 8 * before.len() implies #[trigger] bits_of(after)[i]
                    == bits_of(before).update(at, bit)[i] by {
                    if i / 8 == at / 8 && i != at {
                        assert(bit_at(byte, i % 8) == bit_at(before[at / 8], i % 8));
                    }
                }
            }
        }
        self.advance(1)
    }
}

} // verus!
