//! Reading one symbol in the first code.

use vstd::prelude::*;
use crate::bitslice::BitDecoder;
use crate::sbs1::{decoded, decoded_len, translate_err};
use crate::sbs_utils;
use crate::utils::IncompleteInt;

verus! {

/// Reads one symbol from the stream.
///
/// A complete code word gives its value and is consumed. When the stream
/// ends inside the code word, every remaining bit is consumed and the error
/// tells what the bits seen so far leave open.
pub fn read(bitstream: &mut BitDecoder) -> (outcome: Result<u64, IncompleteInt<u64>>)
    ensures
        outcome == decoded(old(bitstream)@),
        outcome.is_ok() <==> decoded_len(old(bitstream)@) <= old(bitstream)@.len(),
        outcome.is_ok() ==> final(bitstream)@ == old(bitstream)@.skip(
            decoded_len(old(bitstream)@) as int,
        ),
        outcome.is_err() ==> final(bitstream)@.len() == 0,
        outcome.is_ok() ==> outcome.unwrap() >= 1,
        outcome.is_err() ==> outcome.unwrap_err().wf(),
{
    let ghost start = bitstream@;
    let first_bit: bool = match bitstream.read_bit() {
        Err(_) => { return Err(IncompleteInt::new_unbounded(1)); },
        Ok(bit) => bit,
    };
    if first_bit {
        let inner = sbs_utils::decode::read(bitstream);
        proof {
            if inner.is_ok() {
                assert(start.skip(1).skip(sbs_utils::decoded_len(start.skip(1)) as int)
                    =~= start.skip(decoded_len(start) as int));
            }
        }
        match inner {
            Ok(result) => Ok(result - 1),
            Err(e) => Err(translate_err(e)),
        }
    } else {
        Ok(1)
    }
}

} // verus!
