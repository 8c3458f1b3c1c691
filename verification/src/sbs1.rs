//! The first of the two symbol codes: a single zero for 1, and a one
//! followed by the code word of `v + 1` for every `v` from 2 upwards.

use vstd::prelude::*;
use crate::sbs_utils;
use crate::utils::IncompleteInt;

pub mod decode;
pub mod encode;

verus! {

/// `incomplete` with each of its bounds lowered by one.
pub open spec fn lowered(incomplete: IncompleteInt<u64>) -> IncompleteInt<u64> {
    match incomplete {
        IncompleteInt::Unbounded { start } => IncompleteInt::Unbounded {
            start: (start - 1) as u64,
        },
        IncompleteInt::Bounded { lo, hi, bits_needed } => IncompleteInt::Bounded {
            lo: (lo - 1) as u64,
            hi: (hi - 1) as u64,
            bits_needed,
        },
    }
}

/// What a reader makes of `bits` when they are all that is left of the stream.
pub open spec fn decoded(bits: Seq<bool>) -> Result<u64, IncompleteInt<u64>> {
    if bits.len() == 0 {
        Err(IncompleteInt::Unbounded { start: 1 })
    } else if !bits[0] {
        Ok(1)
    } else {
        match sbs_utils::decoded(bits.skip(1)) {
            Ok(value) => Ok((value - 1) as u64),
            Err(incomplete) => Err(lowered(incomplete)),
        }
    }
}

/// The length of the code word at the front of `bits`; where the stream ends
/// before the length is known, one more than there are bits.
pub open spec fn decoded_len(bits: Seq<bool>) -> nat {
    if bits.len() == 0 || !bits[0] {
        1
    } else {
        1 + sbs_utils::decoded_len(bits.skip(1))
    }
}

/// The code word of `v`, for `v` from 1 upwards.
pub open spec fn codeword(v: nat) -> Seq<bool> {
    if v == 1 {
        seq![false]
    } else {
        seq![true] + sbs_utils::codeword(v + 1)
    }
}

/// What a writer reports after `word` met a buffer with room for `room`
/// bits: success, or what a reader would make of the part that fitted.
pub open spec fn write_outcome(word: Seq<bool>, room: nat) -> Result<(), IncompleteInt<u64>> {
    if word.len() <= room {
        Ok(())
    } else {
        match decoded(word.take(room as int)) {
            Ok(_) => Ok(()),
            Err(incomplete) => Err(incomplete),
        }
    }
}

/// Lowers each bound of an incomplete value of the inner code by one, as
/// complete values are.
pub fn translate_err(e: IncompleteInt<u64>) -> (lower: IncompleteInt<u64>)
    requires
        e.wf(),
        e.lower() >= 2,
    ensures
        lower == lowered(e),
        lower.wf(),
{
    match e {
        IncompleteInt::Unbounded { start } => IncompleteInt::Unbounded { start: start - 1 },
        IncompleteInt::Bounded { lo, hi, bits_needed } => IncompleteInt::new_bounded(
            (lo - 1, hi - 1),
            bits_needed,
        ),
    }
}

} // verus!
