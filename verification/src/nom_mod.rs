//! Taking and giving groups of bits at a byte-and-offset position in a
//! buffer.

use vstd::prelude::*;
use crate::bits::{be_value, bit_at, bits_of, overwrite};
use crate::masked_bits::MaskedBits;

verus! {

/// How much more input a parser asked for.
#[derive(Debug, Clone, Copy, PartialEq, Eq)]
pub enum Shortage {
    /// More input is needed, it is not known how much.
    Unknown,
    /// This much more is needed.
    Size(usize),
}

/// Why no bits were taken.
#[derive(Debug, Clone, Copy, PartialEq, Eq)]
pub enum TakeFailure {
    /// The input ended too early.
    Incomplete(Shortage),
    /// The parser failed for another reason.
    Failed,
}

/// The number that the `count` bits of `input` from bit `bit_offset` on
/// spell, most significant bit first.
pub open spec fn taken(input: Seq<u8>, bit_offset: int, count: int) -> nat {
    be_value(bits_of(input).subrange(bit_offset, bit_offset + count))
}

/// The last `len` bits of `byte`, most significant first.
pub open spec fn low_bits(byte: u8, len: nat) -> Seq<bool> {
    Seq::new(len, |i: int| bit_at(byte, 8 - len + i))
}

/// Bits taken from an input, and where the input goes on.
#[derive(Debug, Clone, Copy, PartialEq, Eq)]
pub struct Taken<'a> {
    /// The input from the byte on in which the next bit lies.
    pub rest: &'a [u8],
    /// The offset of the next bit in the first byte of `rest`.
    pub bit_offset: usize,
    /// The bits that were taken, most significant first.
    pub value: u64,
}

/// What taking `count` bits from `input` at `bit_offset` gives: the bits,
/// most significant first, and the position behind them.
pub open spec fn took(input: Seq<u8>, bit_offset: int, count: int, found: Taken) -> bool {
    &&& found.rest@ == input.skip((count + bit_offset) / 8)
    &&& found.bit_offset == (count + bit_offset) % 8
    &&& found.value == if count == 0 {
        0
    } else {
        taken(input, bit_offset, count)
    }
}

/// Calls `nom::bits::streaming::take` for `count` bits as a `u64`, on a byte
/// slice and a bit offset into its first byte.
///
/// The contract restates the parser: no bits asked for leave the input as it
/// is and give 0; an input with fewer than `count` bits behind the offset
/// gives `Incomplete` with a shortage of `count`; otherwise the bits are
/// read most significant first, and the input that is handed back starts at
/// the byte and offset behind them.
#[verifier::external_body]
pub(crate) fn nom_take<'a>(count: usize, input: &'a [u8], bit_offset: usize) -> (outcome: Result<Taken<'a>, TakeFailure>)
    requires
        bit_offset < 8,
        count <= 64,
        8 * input@.len() <= usize::MAX,
    ensures
        match outcome {
            Ok(found) => (count == 0 || 8 * input@.len() >= count + bit_offset) && took(
                input@,
                bit_offset as int,
                count as int,
                found,
            ),
            Err(failure) => count > 0 && 8 * input@.len() < count + bit_offset && failure
                == TakeFailure::Incomplete(Shortage::Size(count)),
        },
{
    match nom::bits::streaming::take::<&[u8], u64, usize, ()>(count)((input, bit_offset)) {
        Ok(((rest, bit_offset), value)) => Ok(Taken { rest, bit_offset, value }),
        Err(nom::Err::Incomplete(nom::Needed::Size(needed))) => Err(
            TakeFailure::Incomplete(Shortage::Size(needed.get())),
        ),
        Err(nom::Err::Incomplete(nom::Needed::Unknown)) => Err(
            TakeFailure::Incomplete(Shortage::Unknown),
        ),
        Err(_) => Err(TakeFailure::Failed),
    }
}

/// Takes `count` bits from `input`, a byte slice and a bit offset into its
/// first byte.
///
/// Where the input is too short, the error holds the bits that could be
/// taken once the missing ones are left out, and the number of missing bits
/// as the parser reports it: the parser asks for all `count` bits again, so
/// nothing is taken and the value is 0.
pub fn take_partial<'a>(count: usize, input: (&'a [u8], usize)) -> (outcome: Result<Taken<'a>, (u64, usize)>)
    requires
        input.1 < 8,
        count <= 64,
        8 * input.0@.len() <= usize::MAX,
    ensures
        match outcome {
            Ok(found) => (count == 0 || 8 * input.0@.len() >= count + input.1) && took(
                input.0@,
                input.1 as int,
                count as int,
                found,
            ),
            Err(partial) => count > 0 && 8 * input.0@.len() < count + input.1 && partial == (
                0u64,
                count,
            ),
        },
{
    match nom_take(count, input.0, input.1) {
        Ok(found) => Ok(found),
        Err(TakeFailure::Incomplete(Shortage::Size(needed))) => {
            match nom_take(count - needed, input.0, input.1) {
                Ok(found) => Err((found.value, needed)),
                Err(_) => {
                    assert(false);
                    Err((0, needed))
                },
            }
        },
        Err(_) => {
            assert(false);
            Err((0, count))
        },
    }
}

/// Writes the `source.1` low bits of `source.0` into the first byte of
/// `output` from bit `bit_offset` on, as far as the byte has room.
///
/// The result is the position behind the bits written, as bytes to advance
/// and the offset into the byte reached, and the bits that did not fit,
/// with their number. Without a byte to write to, the error is the number of
/// bits that were to be written.
pub fn give8(output: &mut [u8], bit_offset: usize, source: (u8, usize)) -> (outcome: Result<
    ((usize, usize), (u8, usize)),
    usize,
>)
    requires
        bit_offset < 8,
        source.1 <= 8,
    ensures
        final(output)@.len() == old(output)@.len(),
        source.1 == 0 ==> outcome == Ok::<((usize, usize), (u8, usize)), usize>(
            ((0, bit_offset), (0, 0)),
        ) && final(output)@ == old(output)@,
        source.1 > 0 && old(output)@.len() == 0 ==> outcome == Err::<
            ((usize, usize), (u8, usize)),
            usize,
        >(source.1) && final(output)@ == old(output)@,
        source.1 > 0 && old(output)@.len() > 0 ==> ({
            let written = if source.1 <= 8 - bit_offset {
                source.1 as int
            } else {
                8 - bit_offset
            };
            let left = source.1 - written;
            &&& outcome == Ok::<((usize, usize), (u8, usize)), usize>(
                (
                    (((bit_offset + written) / 8) as usize, ((bit_offset + written) % 8) as usize),
                    (be_value(low_bits(source.0, left as nat)) as u8, left as usize),
                ),
            )
            &&& bits_of(final(output)@) == overwrite(
                bits_of(old(output)@),
                bit_offset as int,
                low_bits(source.0, source.1 as nat).take(written),
            )
        }),
{
    let (bits, length) = source;
    if length == 0 {
        return Ok(((0, bit_offset), (0, length)));
    }
    if output.len() == 0 {
        return Err(length);
    }
    let output_rem: usize = 8 - bit_offset;
    let len_write: usize = if length < output_rem {
        length
    } else {
        output_rem
    };
    let source_rem: usize = length - len_write;
    let ghost before = output@;
    let mut target = MaskedBits::new(
        output[0],
        bit_offset as u32,
        (output_rem - len_write) as u32,
    );
    let piece = MaskedBits::new(bits, (8 - length) as u32, source_rem as u32);
    target.assign(piece);
    let byte: u8 = target.data();
    output[0] = byte;
    let rest = MaskedBits::new(bits, (8 - source_rem) as u32, 0);
    let remainder: u8 = rest.value();
    proof {
        let word = low_bits(bits, length as nat).take(len_write as int);
        assert(piece@ =~= word);
        assert(rest@ =~= low_bits(bits, source_rem as nat));
        let after = output@;
        let goal = overwrite(bits_of(before), bit_offset as int, word);
        assert(bits_of(after).len() == goal.len());
        assert forall|i: int| 0 <= i < bits_of(after).len() implies #[trigger] bits_of(after)[i]
            == goal[i] by {
            if i < 8 {
                assert(bits_of(after)[i] == bit_at(byte, i));
                if bit_offset <= i < bit_offset + len_write {
                    assert(target@[i - bit_offset] == word[i - bit_offset]);
                } else {
                    assert(bit_at(byte, i) == bit_at(before[0], i));
                }
            }
        }
        assert(bits_of(after) =~= goal);
    }
    Ok((((bit_offset + len_write) / 8, (bit_offset + len_write) % 8), (remainder, source_rem)))
}

} // verus!
