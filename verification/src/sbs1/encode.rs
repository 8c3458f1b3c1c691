//! Writing one symbol in the first code.

use vstd::prelude::*;
use crate::bits::{lemma_overwrite_empty, overwrite};
use crate::bitslice::BitEncoder;
use crate::sbs1::{codeword, translate_err, write_outcome};
use crate::sbs_utils;
use crate::utils::IncompleteInt;

pub use crate::sbs_utils::encode::write_inf;

verus! {

/// Writes the code word of `value`, as far as the buffer has room.
///
/// When the buffer ends inside the code word, the error tells what a reader
/// makes of the part that was written.
pub fn write(bitstream: &mut BitEncoder, value: u64) -> (outcome: Result<(), IncompleteInt<u64>>)
    requires
        old(bitstream).wf(),
        1 <= value < u64::MAX,
    ensures
        final(bitstream).wf(),
        final(final(bitstream).bits)@ == final(old(bitstream).bits)@,
        final(bitstream).wrote(old(bitstream), codeword(value as nat)),
        outcome == write_outcome(codeword(value as nat), old(bitstream).room()),
        outcome.is_ok() <==> codeword(value as nat).len() <= old(bitstream).room(),
        outcome.is_err() ==> outcome.unwrap_err().wf(),
{
    let ghost before = *bitstream;
    let ghost word = codeword(value as nat);
    match bitstream.write_bit(value > 1) {
        Err(_) => {
            proof {
                lemma_overwrite_empty(before.stream(), before.pos as int);
                assert(word.take(0) =~= Seq::<bool>::empty());
            }
            return Err(IncompleteInt::new_unbounded(1));
        },
        Ok(()) => {},
    }
    let ghost middle = *bitstream;
    proof {
        let head = seq![value > 1];
        assert(before.stream().update(before.pos as int, value > 1) =~= overwrite(
            before.stream(),
            before.pos as int,
            head,
        ));
        assert(middle.wrote(&before, head));
    }
    if value == 1 {
        Ok(())
    } else {
        let inner = sbs_utils::encode::write(bitstream, value + 1);
        proof {
            let head = seq![true];
            let tail = sbs_utils::codeword((value + 1) as nat);
            bitstream.lemma_wrote_then(&before, &middle, head, tail);
            assert(word == head + tail);
            let room = before.room() as int;
            if word.len() > room {
                assert(word.take(room).skip(1) =~= tail.take(room - 1));
            }
        }
        match inner {
            Ok(()) => Ok(()),
            Err(e) => Err(translate_err(e)),
        }
    }
}

} // verus!
