//! The coder: a five-state machine that picks, symbol by symbol, which of
//! the two symbol codes is used.

use vstd::prelude::*;
use crate::bits::{bits_of, lemma_overwrite_empty, overwrite, repeat};
use crate::bitslice::{BitDecoder, BitEncoder};
use crate::sbs_utils::{clamp, prefix_value};
use crate::utils::IncompleteInt;
use crate::{sbs1, sbs2};

verus! {

/// The two symbol codes.
#[derive(Debug, Copy, Clone, PartialEq, Eq)]
pub enum SbsMarker {
    Mode1,
    Mode2,
}

/// The region in which the ratio of the last two denominators lies after the
/// digits seen so far.
#[derive(Debug, Copy, Clone, PartialEq, Eq)]
pub enum RhoRegion {
    Eq0,
    Leq1div3,
    Gthan1d3Lthan3d4,
    Geq3Div4,
    Eq1,
}

impl RhoRegion {
    /// The region that follows this one once the digit `value` is seen.
    pub open spec fn next_spec(self, value: u64) -> RhoRegion {
        match self {
            RhoRegion::Eq0 => if value == 1 {
                RhoRegion::Eq1
            } else {
                RhoRegion::Leq1div3
            },
            RhoRegion::Leq1div3 => if value == 1 {
                RhoRegion::Geq3Div4
            } else {
                RhoRegion::Leq1div3
            },
            RhoRegion::Gthan1d3Lthan3d4 | RhoRegion::Geq3Div4 => if value == 1 || value == 2 {
                RhoRegion::Gthan1d3Lthan3d4
            } else {
                RhoRegion::Leq1div3
            },
            RhoRegion::Eq1 => if value == 2 {
                RhoRegion::Leq1div3
            } else {
                RhoRegion::Gthan1d3Lthan3d4
            },
        }
    }

    /// The code in which the next symbol stands.
    pub open spec fn which_spec(self) -> SbsMarker {
        match self {
            RhoRegion::Eq0 | RhoRegion::Leq1div3 | RhoRegion::Gthan1d3Lthan3d4 => SbsMarker::Mode1,
            RhoRegion::Geq3Div4 | RhoRegion::Eq1 => SbsMarker::Mode2,
        }
    }

    /// The region that follows this one once the digit `value` is seen.
    pub fn next(self, value: u64) -> (region: Self)
        ensures
            region == self.next_spec(value),
    {
        match self {
            RhoRegion::Eq0 => {
                if value == 1 {
                    RhoRegion::Eq1
                } else {
                    RhoRegion::Leq1div3
                }
            },
            RhoRegion::Leq1div3 => {
                if value == 1 {
                    RhoRegion::Geq3Div4
                } else {
                    RhoRegion::Leq1div3
                }
            },
            RhoRegion::Gthan1d3Lthan3d4 | RhoRegion::Geq3Div4 => {
                if value == 1 || value == 2 {
                    RhoRegion::Gthan1d3Lthan3d4
                } else {
                    RhoRegion::Leq1div3
                }
            },
            RhoRegion::Eq1 => {
                if value == 2 {
                    RhoRegion::Leq1div3
                } else {
                    RhoRegion::Gthan1d3Lthan3d4
                }
            },
        }
    }

    /// The code in which the next symbol stands.
    pub fn which(self) -> (mode: SbsMarker)
        ensures
            mode == self.which_spec(),
    {
        match self {
            RhoRegion::Eq0 | RhoRegion::Leq1div3 | RhoRegion::Gthan1d3Lthan3d4 => SbsMarker::Mode1,
            RhoRegion::Geq3Div4 | RhoRegion::Eq1 => SbsMarker::Mode2,
        }
    }
}

impl Default for RhoRegion {
    fn default() -> (region: Self)
        ensures
            region == RhoRegion::Eq0,
    {
        RhoRegion::Eq0
    }
}

/// What a reader in the code `mode` makes of `bits` when they are all that
/// is left of the stream.
pub open spec fn decoded(mode: SbsMarker, bits: Seq<bool>) -> Result<u64, IncompleteInt<u64>> {
    match mode {
        SbsMarker::Mode1 => sbs1::decoded(bits),
        SbsMarker::Mode2 => sbs2::decoded(bits),
    }
}

/// The length of the code word of the code `mode` at the front of `bits`.
pub open spec fn decoded_len(mode: SbsMarker, bits: Seq<bool>) -> nat {
    match mode {
        SbsMarker::Mode1 => sbs1::decoded_len(bits),
        SbsMarker::Mode2 => sbs2::decoded_len(bits),
    }
}

/// The code word of `v` in the code `mode`.
pub open spec fn codeword(mode: SbsMarker, v: u64) -> Seq<bool> {
    match mode {
        SbsMarker::Mode1 => sbs1::codeword(v as nat),
        SbsMarker::Mode2 => sbs2::codeword(v as nat),
    }
}

/// What a writer in the code `mode` reports after `word` met a buffer with
/// room for `room` bits.
pub open spec fn write_outcome(mode: SbsMarker, word: Seq<bool>, room: nat) -> Result<
    (),
    IncompleteInt<u64>,
> {
    match mode {
        SbsMarker::Mode1 => sbs1::write_outcome(word, room),
        SbsMarker::Mode2 => sbs2::write_outcome(word, room),
    }
}

/// Whether `value` can be written in the code `mode`.
pub open spec fn writable(mode: SbsMarker, value: u64) -> bool {
    value >= 1 && (mode == SbsMarker::Mode1 ==> value < u64::MAX)
}

/// The region reached from `region` over `digits`.
pub open spec fn region_after(region: RhoRegion, digits: Seq<u64>) -> RhoRegion
    decreases digits.len(),
{
    if digits.len() == 0 {
        region
    } else {
        region_after(region, digits.drop_last()).next_spec(digits.last())
    }
}

/// The code words of `digits` in a row, the first one written in `region`.
pub open spec fn stream_of(region: RhoRegion, digits: Seq<u64>) -> Seq<bool>
    decreases digits.len(),
{
    if digits.len() == 0 {
        Seq::empty()
    } else {
        stream_of(region, digits.drop_last()) + codeword(
            region_after(region, digits.drop_last()).which_spec(),
            digits.last(),
        )
    }
}

/// Whether each of `digits` can be written, the first one in `region`.
pub open spec fn all_writable(region: RhoRegion, digits: Seq<u64>) -> bool {
    forall|i: int|
        0 <= i < digits.len() ==> writable(
            #[trigger] region_after(region, digits.take(i)).which_spec(),
            digits[i],
        )
}

/// `word` cut or padded with ones to exactly `room` bits.
pub open spec fn filled(word: Seq<bool>, room: nat) -> Seq<bool> {
    if word.len() >= room {
        word.take(room as int)
    } else {
        word + repeat(true, (room - word.len()) as nat)
    }
}

/// Every symbol of the stream `bits`, read from `region` on: the complete
/// ones in order, and last the incomplete one at which the stream ends.
pub open spec fn read_all(region: RhoRegion, bits: Seq<bool>) -> Seq<
    Result<u64, IncompleteInt<u64>>,
>
    decreases bits.len(),
{
    let mode = region.which_spec();
    let item = decoded(mode, bits);
    let len = decoded_len(mode, bits);
    match item {
        Ok(value) => if 0 < len <= bits.len() {
            seq![item] + read_all(region.next_spec(value), bits.skip(len as int))
        } else {
            seq![item]
        },
        Err(_) => seq![item],
    }
}

/// The code words of some of the first digits stand at the front of the code
/// words of all of them.
pub proof fn lemma_stream_of_prefix(region: RhoRegion, digits: Seq<u64>, n: nat)
    requires
        n <= digits.len(),
    ensures
        stream_of(region, digits.take(n as int)).len() <= stream_of(region, digits).len(),
        stream_of(region, digits).take(stream_of(region, digits.take(n as int)).len() as int)
            == stream_of(region, digits.take(n as int)),
    decreases digits.len(),
{
    if n == digits.len() {
        assert(digits.take(n as int) =~= digits);
        assert(stream_of(region, digits).take(stream_of(region, digits).len() as int)
            =~= stream_of(region, digits));
    } else {
        lemma_stream_of_prefix(region, digits.drop_last(), n);
        assert(digits.drop_last().take(n as int) =~= digits.take(n as int));
        let short = stream_of(region, digits.take(n as int));
        let most = stream_of(region, digits.drop_last());
        assert(stream_of(region, digits).take(short.len() as int) =~= most.take(
            short.len() as int,
        ));
    }
}

/// When the code words of some of the first digits already exceed a
/// buffer, the buffer holds the same bits as it would of all the digits.
pub proof fn lemma_stream_of_cut(region: RhoRegion, digits: Seq<u64>, n: nat, room: nat)
    requires
        n <= digits.len(),
        stream_of(region, digits.take(n as int)).len() > room,
    ensures
        stream_of(region, digits).len() > room,
        stream_of(region, digits.take(n as int)).take(room as int) == stream_of(
            region,
            digits,
        ).take(room as int),
{
    let word = stream_of(region, digits.take(n as int));
    let total = stream_of(region, digits);
    lemma_stream_of_prefix(region, digits, n);
    assert(total.take(word.len() as int).take(room as int) =~= total.take(room as int));
}

/// The coder's state: the region reached over the symbols handled so far.
#[derive(Debug, Copy, Clone)]
pub struct Coder(pub RhoRegion);

impl Default for Coder {
    fn default() -> (coder: Self)
        ensures
            coder.0 == RhoRegion::Eq0,
    {
        Coder(RhoRegion::Eq0)
    }
}

impl Coder {
    /// Writes `value` in the code of the current region and moves on to the
    /// next region. When the buffer ends inside the code word the region
    /// stays, and the error tells what a reader makes of the part written.
    pub fn write(&mut self, bitstream: &mut BitEncoder, value: u64) -> (outcome: Result<
        (),
        IncompleteInt<u64>,
    >)
        requires
            old(bitstream).wf(),
            writable(old(self).0.which_spec(), value),
        ensures
            final(bitstream).wf(),
            final(final(bitstream).bits)@ == final(old(bitstream).bits)@,
            final(bitstream).wrote(
                old(bitstream),
                codeword(old(self).0.which_spec(), value),
            ),
            outcome == write_outcome(
                old(self).0.which_spec(),
                codeword(old(self).0.which_spec(), value),
                old(bitstream).room(),
            ),
            outcome.is_ok() <==> codeword(old(self).0.which_spec(), value).len() <= old(
                bitstream,
            ).room(),
            outcome.is_ok() ==> final(self).0 == old(self).0.next_spec(value),
            outcome.is_err() ==> final(self).0 == old(self).0 && outcome.unwrap_err().wf(),
    {
        let result = match self.0.which() {
            SbsMarker::Mode1 => sbs1::encode::write(bitstream, value),
            SbsMarker::Mode2 => sbs2::encode::write(bitstream, value),
        };
        match result {
            Err(e) => Err(e),
            Ok(()) => {
                self.0 = self.0.next(value);
                Ok(())
            },
        }
    }

    /// Fills the rest of the buffer with ones and returns to the first
    /// region. The result is what a reader of the inner code makes of the
    /// ones.
    pub fn write_inf(&mut self, bitstream: &mut BitEncoder) -> (incomplete: IncompleteInt<u64>)
        requires
            old(bitstream).wf(),
        ensures
            final(bitstream).wf(),
            final(final(bitstream).bits)@ == final(old(bitstream).bits)@,
            final(bitstream).room() == 0,
            final(bitstream).wrote(old(bitstream), repeat(true, old(bitstream).room())),
            incomplete == (IncompleteInt::Unbounded {
                start: clamp(prefix_value(old(bitstream).room(), false)),
            }),
            final(self).0 == RhoRegion::Eq0,
    {
        let result = match self.0.which() {
            SbsMarker::Mode1 => sbs1::encode::write_inf(bitstream),
            SbsMarker::Mode2 => sbs2::encode::write_inf(bitstream),
        };
        self.0 = RhoRegion::Eq0;
        result
    }

    /// Reads one symbol in the code of the current region and moves on to
    /// the next region. When the stream ends inside the symbol the region
    /// stays.
    pub fn read(&mut self, bitstream: &mut BitDecoder) -> (outcome: Result<
        u64,
        IncompleteInt<u64>,
    >)
        ensures
            outcome == decoded(old(self).0.which_spec(), old(bitstream)@),
            outcome.is_ok() <==> decoded_len(old(self).0.which_spec(), old(bitstream)@) <= old(
                bitstream,
            )@.len(),
            outcome.is_ok() ==> final(bitstream)@ == old(bitstream)@.skip(
                decoded_len(old(self).0.which_spec(), old(bitstream)@) as int,
            ) && final(self).0 == old(self).0.next_spec(outcome.unwrap()) && outcome.unwrap()
                >= 1,
            outcome.is_err() ==> final(bitstream)@.len() == 0 && final(self).0 == old(self).0
                && outcome.unwrap_err().wf(),
    {
        let result = match self.0.which() {
            SbsMarker::Mode1 => sbs1::decode::read(bitstream),
            SbsMarker::Mode2 => sbs2::decode::read(bitstream),
        };
        match result {
            Err(e) => Err(e),
            Ok(value) => {
                self.0 = self.0.next(value);
                Ok(value)
            },
        }
    }

    /// Reads symbols until the stream ends: every complete symbol in order,
    /// and last the incomplete one that the end of the stream leaves.
    pub fn read_iter(self, bitstream: BitDecoder) -> (items: Vec<
        Result<u64, IncompleteInt<u64>>,
    >)
        ensures
            items@ == read_all(self.0, bitstream@),
    {
        let ghost first = self.0;
        let ghost start = bitstream@;
        let mut coder = self;
        let mut bitstream = bitstream;
        let mut items: Vec<Result<u64, IncompleteInt<u64>>> = Vec::new();
        let mut is_done: bool = false;
        while !is_done
            invariant
                !is_done ==> items@ + read_all(coder.0, bitstream@) == read_all(first, start),
                is_done ==> items@ == read_all(first, start),
            decreases bitstream@.len() + if is_done { 0nat } else { 1nat },
        {
            let ghost before = bitstream@;
            let ghost region = coder.0;
            let ghost seen = items@;
            let item = coder.read(&mut bitstream);
            if item.is_err() {
                is_done = true;
            }
            items.push(item);
            proof {
                let mode = region.which_spec();
                let len = decoded_len(mode, before);
                assert(0 < len);
                if item.is_ok() {
                    assert(seen.push(item) + read_all(coder.0, bitstream@) =~= seen + read_all(
                        region,
                        before,
                    ));
                } else {
                    assert(seen.push(item) =~= seen + read_all(region, before));
                }
            }
        }
        items
    }

    /// Writes the code words of `iter` one behind the other and fills the
    /// rest of the buffer with ones. When the buffer ends inside a code word
    /// the writing stops there with an error.
    pub fn write_iter(self, bitstream: BitEncoder, iter: &[u64]) -> (outcome: Result<(), ()>)
        requires
            bitstream.wf(),
            all_writable(self.0, iter@),
        ensures
            bits_of(final(bitstream.bits)@) == overwrite(
                bitstream.stream(),
                bitstream.pos as int,
                filled(stream_of(self.0, iter@), bitstream.room()),
            ),
            outcome.is_ok() == (stream_of(self.0, iter@).len() <= bitstream.room()),
    {
        let ghost first = self.0;
        let ghost room = bitstream.room();
        let mut coder = self;
        let mut sink = bitstream;
        let mut index: usize = 0;
        proof {
            lemma_overwrite_empty(bitstream.stream(), bitstream.pos as int);
            assert(iter@.take(0) =~= Seq::<u64>::empty());
        }
        while index < iter.len()
            invariant
                index <= iter@.len(),
                first == self.0,
                bitstream.wf(),
                room == bitstream.room(),
                all_writable(first, iter@),
                sink.wf(),
                final(sink.bits)@ == final(bitstream.bits)@,
                coder.0 == region_after(first, iter@.take(index as int)),
                stream_of(first, iter@.take(index as int)).len() <= room,
                sink.wrote(&bitstream, stream_of(first, iter@.take(index as int))),
            decreases iter@.len() - index,
        {
            let ghost middle = sink;
            let ghost done = iter@.take(index as int);
            let ghost region = coder.0;
            let item: u64 = iter[index];
            assert(writable(region_after(first, iter@.take(index as int)).which_spec(), item));
            let outcome = coder.write(&mut sink, item);
            proof {
                let longer = iter@.take(index + 1);
                assert(longer.drop_last() =~= done);
                assert(longer.last() == item);
                sink.lemma_wrote_then(
                    &bitstream,
                    &middle,
                    stream_of(first, done),
                    codeword(region.which_spec(), item),
                );
            }
            if outcome.is_err() {
                proof {
                    lemma_stream_of_cut(first, iter@, (index + 1) as nat, room);
                }
                return Err(());
            }
            index += 1;
        }
        let ghost middle = sink;
        coder.write_inf(&mut sink);
        proof {
            assert(iter@.take(iter@.len() as int) =~= iter@);
            let total = stream_of(first, iter@);
            sink.lemma_wrote_then(&bitstream, &middle, total, repeat(true, middle.room()));
            assert(total + repeat(true, middle.room()) =~= filled(total, room));
        }
        Ok(())
    }
}

} // verus!
