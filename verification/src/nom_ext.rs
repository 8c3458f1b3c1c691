//! Parsers for runs of equal bits and for the bits up to the next byte
//! boundary, at a byte-and-offset position in a buffer.

use vstd::prelude::*;
use crate::bits::{
    bits_of, leading_run, lemma_be_value_bound, lemma_leading_run,
    lemma_leading_run_facts,
};
use crate::masked_bits::MaskedBits;
use crate::nom_mod::{nom_take, taken, Shortage, TakeFailure};

verus! {

/// The bits of `input` from bit `bit_offset` of its first byte on.
pub open spec fn stream_at(input: Seq<u8>, bit_offset: int) -> Seq<bool> {
    bits_of(input).skip(bit_offset)
}

/// Takes the bits up to the next byte boundary: none where the position is
/// at a boundary already.
pub fn take_align<'a>(input: (&'a [u8], usize)) -> (outcome: Result<(&'a [u8], (u8, usize)), TakeFailure>)
    requires
        input.1 < 8,
        8 * input.0@.len() <= usize::MAX,
    ensures
        input.1 == 0 ==> outcome == Ok::<(&'a [u8], (u8, usize)), TakeFailure>(
            (input.0, (0, 0)),
        ),
        input.1 > 0 && input.0@.len() == 0 ==> outcome == Err::<
            (&'a [u8], (u8, usize)),
            TakeFailure,
        >(TakeFailure::Incomplete(Shortage::Size((8 - input.1) as usize))),
        input.1 > 0 && input.0@.len() > 0 ==> outcome.is_ok() && outcome.unwrap().0@
            == input.0@.skip(1) && outcome.unwrap().1 == (
            taken(input.0@, input.1 as int, 8 - input.1) as u8,
            (8 - input.1) as usize,
        ),
{
    let (bytes, bit_offset) = input;
    let bitlen: usize = (8 - bit_offset) % 8;
    match nom_take(bitlen, bytes, bit_offset) {
        Err(failure) => Err(failure),
        Ok(found) => {
            proof {
                if bitlen > 0 {
                    let piece = bits_of(bytes@).subrange(bit_offset as int, bit_offset + bitlen);
                    lemma_be_value_bound(piece);
                    vstd::arithmetic::power2::lemma2_to64();
                    crate::sbs_utils::lemma_pow2_le(bitlen as nat, 7);
                } else {
                    assert(bytes@.skip(0) =~= bytes@);
                }
            }
            if bitlen == 0 {
                Ok((bytes, (0, bitlen)))
            } else {
                Ok((found.rest, (found.value as u8, bitlen)))
            }
        },
    }
}

/// What counting the bits equal to `bit` at the front of a stream gives,
/// where at most `max_count` are to be counted.
///
/// Nothing is counted where none is asked for. The count needs a bit that
/// ends the run, or `max_count` bits in the run: where the input ends before
/// either, more input is asked for. Otherwise the run is counted up to
/// `max_count`, and the position moves behind the bits counted.
pub open spec fn streak<'a>(
    bit: bool,
    max_count: usize,
    input: (&'a [u8], usize),
    outcome: Result<((&'a [u8], usize), usize), TakeFailure>,
) -> bool {
    let bits = stream_at(input.0@, input.1 as int);
    let run = leading_run(bits, bit);
    if max_count == 0 {
        outcome == Ok::<((&'a [u8], usize), usize), TakeFailure>((input, 0))
    } else if input.0@.len() == 0 || (run == bits.len() && run < max_count) {
        outcome == Err::<((&'a [u8], usize), usize), TakeFailure>(
            TakeFailure::Incomplete(Shortage::Unknown),
        )
    } else {
        let count = if run <= max_count {
            run as int
        } else {
            max_count as int
        };
        &&& outcome.is_ok()
        &&& outcome.unwrap().1 == count
        &&& (outcome.unwrap().0).0@ == input.0@.skip((input.1 + count) / 8)
        &&& (outcome.unwrap().0).1 == (input.1 + count) % 8
    }
}

/// The length of the run of `bit` in `byte` from bit `bit_offset` on.
fn run_in(byte: u8, bit_offset: usize, bit: bool) -> (count: usize)
    requires
        bit_offset < 8,
    ensures
        count == leading_run(stream_at(seq![byte], bit_offset as int), bit),
        count <= 8 - bit_offset,
{
    let view = MaskedBits::new(byte, bit_offset as u32, 0);
    proof {
        assert(view@ =~= stream_at(seq![byte], bit_offset as int));
        lemma_leading_run_facts(view@, bit);
    }
    if bit {
        view.leading_ones() as usize
    } else {
        view.leading_zeros() as usize
    }
}

/// A run that has covered the first `start` bits goes on with the run at
/// the front of the next piece.
proof fn lemma_run_goes_on(bits: Seq<bool>, bit: bool, start: int, len: int)
    requires
        0 <= start,
        0 <= len,
        start + len <= bits.len(),
        forall|i: int| 0 <= i < start ==> bits[i] == bit,
    ensures
        ({
            let more = leading_run(bits.subrange(start, start + len), bit);
            &&& more <= len
            &&& forall|i: int| 0 <= i < start + more ==> bits[i] == bit
            &&& more < len ==> leading_run(bits, bit) == start + more
            &&& more == len ==> leading_run(bits, bit) >= start + len
        }),
{
    let piece = bits.subrange(start, start + len);
    let more = leading_run(piece, bit) as int;
    lemma_leading_run_facts(piece, bit);
    lemma_leading_run_facts(bits, bit);
    assert forall|i: int| 0 <= i < start + more implies bits[i] == bit by {
        if i >= start {
            assert(piece[i - start] == bit);
        }
    }
    if more < len {
        assert(piece[more] != bit);
        lemma_leading_run(bits, bit, (start + more) as nat);
    } else {
        let run = leading_run(bits, bit) as int;
        if run < start + len {
            assert(bits[run] == bit);
        }
    }
}

/// Counts the bits equal to `bit` at the front of the input, up to
/// `max_count`.
fn take_streak<'a>(bit: bool, max_count: usize, input: (&'a [u8], usize)) -> (outcome: Result<((&'a [u8], usize), usize), TakeFailure>)
    requires
        input.1 < 8,
        8 * input.0@.len() <= usize::MAX,
    ensures
        streak(bit, max_count, input, outcome),
{
    let (bytes, bit_offset) = input;
    if max_count == 0 {
        return Ok(((bytes, bit_offset), 0));
    }
    if bytes.len() == 0 {
        return Err(TakeFailure::Incomplete(Shortage::Unknown));
    }
    let ghost bits = stream_at(bytes@, bit_offset as int);
    let mut index: usize = 0;
    let mut item_run: usize = run_in(bytes[0], bit_offset, bit);
    let mut item_len: usize = 8 - bit_offset;
    let mut streak_len: usize = item_run;
    let ghost mut start: int = 0;
    proof {
        assert(stream_at(seq![bytes@[0]], bit_offset as int) =~= bits.subrange(0, item_len as int));
    }
    while item_run == item_len && streak_len <= max_count
        invariant
            bits == stream_at(bytes@, bit_offset as int),
            input == (bytes, bit_offset),
            bit_offset < 8,
            max_count > 0,
            8 * bytes@.len() <= usize::MAX,
            index < bytes@.len(),
            0 <= start,
            start + item_len == 8 * index + 8 - bit_offset,
            index == 0 ==> start == 0,
            index > 0 ==> item_len == 8 && start < max_count,
            streak_len == start + item_run,
            forall|i: int| 0 <= i < start ==> bits[i] == bit,
            item_run == leading_run(bits.subrange(start, start + item_len), bit),
        decreases bytes@.len() - index,
    {
        proof {
            lemma_run_goes_on(bits, bit, start, item_len as int);
        }
        if streak_len == max_count {
            let rest = vstd::slice::slice_subrange(bytes, index + 1, bytes.len());
            return Ok(((rest, 0), streak_len));
        }
        if index + 1 >= bytes.len() {
            proof {
                lemma_leading_run_facts(bits, bit);
                assert(bits.len() == 8 * bytes@.len() - bit_offset);
                assert(leading_run(bits, bit) == bits.len());
            }
            return Err(TakeFailure::Incomplete(Shortage::Unknown));
        }
        proof {
            start = start + item_len;
        }
        index += 1;
        item_run = run_in(bytes[index], 0, bit);
        item_len = 8;
        streak_len += item_run;
        proof {
            assert(stream_at(seq![bytes@[index as int]], 0) =~= bits.subrange(start, start + 8));
        }
    }
    proof {
        lemma_run_goes_on(bits, bit, start, item_len as int);
    }
    let count: usize = if streak_len < max_count {
        streak_len
    } else {
        max_count
    };
    let rest = vstd::slice::slice_subrange(bytes, index, bytes.len());
    Ok(((rest, (count + bit_offset) % 8), count))
}

/// Counts the zero bits at the front of the input, up to `max_count`.
pub fn take_zeros<'a>(max_count: usize, input: (&'a [u8], usize)) -> (outcome: Result<((&'a [u8], usize), usize), TakeFailure>)
    requires
        input.1 < 8,
        8 * input.0@.len() <= usize::MAX,
    ensures
        streak(false, max_count, input, outcome),
{
    take_streak(false, max_count, input)
}

/// Counts the one bits at the front of the input, up to `max_count`.
pub fn take_ones<'a>(max_count: usize, input: (&'a [u8], usize)) -> (outcome: Result<((&'a [u8], usize), usize), TakeFailure>)
    requires
        input.1 < 8,
        8 * input.0@.len() <= usize::MAX,
    ensures
        streak(true, max_count, input, outcome),
{
    take_streak(true, max_count, input)
}

} // verus!
