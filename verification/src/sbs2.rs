//! The second of the two symbol codes: `00` for 1, `01` for 2, and a one
//! followed by the code word of `v` itself for every `v` from 3 upwards.

use vstd::prelude::*;
use crate::bits::bit_value;
use crate::sbs_utils;
use crate::utils::IncompleteInt;

pub mod decode;
pub mod encode;

verus! {

/// What a reader makes of `bits` when they are all that is left of the stream.
pub open spec fn decoded(bits: Seq<bool>) -> Result<u64, IncompleteInt<u64>> {
    if bits.len() == 0 {
        Err(IncompleteInt::Unbounded { start: 1 })
    } else if bits[0] {
        sbs_utils::decoded(bits.skip(1))
    } else if bits.len() == 1 {
        Err(IncompleteInt::Bounded { lo: 1, hi: 2, bits_needed: 1 })
    } else {
        Ok((bit_value(bits[1]) + 1) as u64)
    }
}

/// The length of the code word at the front of `bits`; where the stream ends
/// before the length is known, one more than there are bits.
pub open spec fn decoded_len(bits: Seq<bool>) -> nat {
    if bits.len() == 0 {
        1
    } else if bits[0] {
        1 + sbs_utils::decoded_len(bits.skip(1))
    } else {
        2
    }
}

/// The code word of `v`, for `v` from 1 upwards.
pub open spec fn codeword(v: nat) -> Seq<bool> {
    if v <= 2 {
        seq![false, v == 2]
    } else {
        seq![true] + sbs_utils::codeword(v)
    }
}

/// What a writer reports after `word` met a buffer with room for `room`
/// bits: success, or what a reader would make of the part that fitted.
pub open spec fn write_outcome(word: Seq<bool>, room: nat) -> Result<(), IncompleteInt<u64>> {
    if word.len() <= room {
        Ok(())
    } else {
        match decoded(word.take(room as int)) {
            Ok(_) => Ok(()),
            Err(incomplete) => Err(incomplete),
        }
    }
}

} // verus!
