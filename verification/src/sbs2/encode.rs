//! Writing one symbol in the second code.

use vstd::prelude::*;
use crate::bits::{lemma_overwrite_empty, overwrite};
use crate::bitslice::BitEncoder;
use crate::sbs2::{codeword, write_outcome};
use crate::sbs_utils;
use crate::utils::IncompleteInt;

pub use crate::sbs_utils::encode::write_inf;

verus! {

/// Writes the code word of `value`, as far as the buffer has room.
///
/// When the buffer ends inside the code word, the error tells what a reader
/// makes of the part that was written.
pub fn write(bitstream: &mut BitEncoder, value: u64) -> (outcome: Result<(), IncompleteInt<u64>>)
    requires
        old(bitstream).wf(),
        value >= 1,
    ensures
        final(bitstream).wf(),
        final(final(bitstream).bits)@ == final(old(bitstream).bits)@,
        final(bitstream).wrote(old(bitstream), codeword(value as nat)),
        outcome == write_outcome(codeword(value as nat), old(bitstream).room()),
        outcome.is_ok() <==> codeword(value as nat).len() <= old(bitstream).room(),
        outcome.is_err() ==> outcome.unwrap_err().wf(),
{
    let ghost before = *bitstream;
    let ghost word = codeword(value as nat);
    match bitstream.write_bit(value > 2) {
        Err(_) => {
            proof {
                lemma_overwrite_empty(before.stream(), before.pos as int);
                assert(word.take(0) =~= Seq::<bool>::empty());
            }
            return Err(IncompleteInt::new_unbounded(1));
        },
        Ok(()) => {},
    }
    let ghost middle = *bitstream;
    let ghost head = seq![value > 2];
    proof {
        assert(before.stream().update(before.pos as int, value > 2) =~= overwrite(
            before.stream(),
            before.pos as int,
            head,
        ));
        assert(middle.wrote(&before, head));
    }
    if value <= 2 {
        match bitstream.write_bit(value > 1) {
            Err(needed) => {
                proof {
                    assert(word.take(1) =~= head);
                }
                Err(IncompleteInt::new_bounded((1, 2), needed))
            },
            Ok(()) => {
                proof {
                    assert(bitstream.stream() =~= overwrite(
                        before.stream(),
                        before.pos as int,
                        word,
                    ));
                }
                Ok(())
            },
        }
    } else {
        let inner = sbs_utils::encode::write(bitstream, value);
        proof {
            let tail = sbs_utils::codeword(value as nat);
            bitstream.lemma_wrote_then(&before, &middle, head, tail);
            assert(word == head + tail);
            let room = before.room() as int;
            if word.len() > room {
                assert(word.take(room).skip(1) =~= tail.take(room - 1));
            }
        }
        inner
    }
}

} // verus!
