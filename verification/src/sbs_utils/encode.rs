//! Writing one code word.

use vstd::prelude::*;
use vstd::arithmetic::div_mod::lemma_small_mod;
use vstd::arithmetic::power2::{lemma2_to64, lemma_pow2_adds, lemma_pow2_pos, pow2};
use crate::bits::{
    be_bits, lemma_be_bits_prefix, lemma_leading_ones,
    lemma_overwrite_empty, lemma_overwrite_push, overwrite, repeat,
};
use crate::bitslice::BitEncoder;
use crate::sbs_utils::decode;
use crate::sbs_utils::{
    bit_length, clamp, codeword, decoded, lemma_bit_length_bounds, lemma_bit_length_is_width,
    lemma_second_bit, masked_bit, masked_suffix, partial_range, prefix_value, suffix_size,
};
use crate::utils::IncompleteInt;

verus! {

/// How many ones announce a value of `flen` significant bits whose second
/// significant bit is `next_bit`.
pub fn vlen_indicator(flen: usize, next_bit: bool) -> (len: usize)
    requires
        flen >= 3 || (flen == 2 && next_bit),
        flen < usize::MAX,
    ensures
        len == if next_bit {
            flen - 2
        } else {
            flen - 3
        },
{
    if next_bit {
        flen + 1 - 3
    } else {
        flen - 3
    }
}

/// How many bits of a value of `flen` significant bits form the suffix.
pub fn suffix_len(flen: usize) -> (len: usize)
    requires
        flen >= 2,
    ensures
        len == flen - 2,
{
    flen - 2
}

/// What a writer reports after a code word `word` met a buffer with room for
/// `room` bits: success, or what a reader would make of the part that fitted.
pub open spec fn write_outcome(word: Seq<bool>, room: nat) -> Result<(), IncompleteInt<u64>> {
    if word.len() <= room {
        Ok(())
    } else {
        match decoded(word.take(room as int)) {
            Ok(_) => Ok(()),
            Err(incomplete) => Err(incomplete),
        }
    }
}

/// Fills the rest of the buffer with ones, the end-of-stream mark, and
/// reports what a reader makes of them.
pub fn write_inf(bitstream: &mut BitEncoder) -> (incomplete: IncompleteInt<u64>)
    requires
        old(bitstream).wf(),
    ensures
        final(bitstream).wf(),
        final(final(bitstream).bits)@ == final(old(bitstream).bits)@,
        final(bitstream).room() == 0,
        final(bitstream).wrote(old(bitstream), repeat(true, old(bitstream).room())),
        incomplete == (IncompleteInt::Unbounded {
            start: clamp(prefix_value(old(bitstream).room(), false)),
        }),
        incomplete.wf(),
{
    let ghost before = bitstream.stream();
    let ghost at = bitstream.pos as int;
    let mut sublen: usize = 0;
    proof {
        lemma_overwrite_empty(before, at);
        assert(repeat(true, 0) =~= Seq::<bool>::empty());
    }
    loop
        invariant
            bitstream.wf(),
            final(bitstream.bits)@ == final(old(bitstream).bits)@,
            before == old(bitstream).stream(),
            before.len() == bitstream.stream().len(),
            at == old(bitstream).pos,
            bitstream.pos == at + sublen,
            bitstream.stream() == overwrite(before, at, repeat(true, sublen as nat)),
        decreases bitstream.room(),
    {
        match bitstream.write_bit(true) {
            Err(_) => {
                return IncompleteInt::Unbounded {
                    start: decode::from_partial_length_indicator(sublen),
                };
            },
            Ok(()) => {
                proof {
                    lemma_overwrite_push(before, at, repeat(true, sublen as nat), true);
                    assert(repeat(true, sublen as nat).push(true) =~= repeat(
                        true,
                        (sublen + 1) as nat,
                    ));
                }
                sublen += 1;
            },
        }
    }
}

/// The state of a writer that has placed the first `done` bits of `word`
/// since it was in the state `start`.
pub open spec fn in_progress(
    now: &BitEncoder,
    start: &BitEncoder,
    word: Seq<bool>,
    done: nat,
) -> bool {
    &&& now.wf()
    &&& start.wf()
    &&& done <= word.len()
    &&& now.pos == start.pos + done
    &&& now.stream().len() == start.stream().len()
    &&& now.stream() == overwrite(start.stream(), start.pos as int, word.take(done as int))
}

/// One more bit of the word has been placed.
proof fn lemma_progress(
    now: &BitEncoder,
    next: &BitEncoder,
    start: &BitEncoder,
    word: Seq<bool>,
    done: nat,
)
    requires
        in_progress(now, start, word, done),
        done < word.len(),
        now.room() > 0,
        next.wf(),
        next.pos == now.pos + 1,
        next.stream() == now.stream().update(now.pos as int, word[done as int]),
    ensures
        in_progress(next, start, word, done + 1),
{
    lemma_overwrite_push(start.stream(), start.pos as int, word.take(done as int), word[done as int]);
    assert(word.take(done as int).push(word[done as int]) =~= word.take(done as int + 1));
}

/// The code word of a value in terms of what the writer computes.
pub proof fn lemma_codeword_parts(value: u64, vlen_prefix: nat, next_bit: bool, size: nat, suffix: nat)
    requires
        value >= 3,
        size == bit_length(value as nat) - 2,
        next_bit == !((value as nat / pow2(size)) % 2 == 1),
        vlen_prefix == if next_bit {
            size - 1
        } else {
            size as int
        },
        suffix == value as nat % pow2(size),
    ensures
        size <= 62,
        suffix < pow2(size),
        size == suffix_size(vlen_prefix, next_bit),
        value == prefix_value(vlen_prefix, next_bit) + suffix,
        codeword(value as nat) == repeat(true, vlen_prefix) + seq![false, next_bit] + be_bits(
            suffix,
            size,
        ),
        codeword(value as nat).len() == vlen_prefix + 2 + size,
{
    lemma_second_bit(value as nat);
    lemma_bit_length_is_width(value);
    lemma2_to64();
    if next_bit {
        if size == 0 {
            assert(value as nat / pow2(size) == 2);
            assert(value as nat % pow2(size) == 0);
        }
    }
    let unit = pow2(size) as int;
    assert(3 * unit == unit * 3 && 2 * unit == unit * 2) by (nonlinear_arith);
    if next_bit {
        vstd::arithmetic::power2::lemma_pow2_unfold(size);
    }
}

/// A code word cut inside its run of ones reads as an open range.
pub proof fn lemma_cut_in_ones(word: Seq<bool>, vlen_prefix: nat, cut: nat)
    requires
        cut <= vlen_prefix <= word.len(),
        forall|i: int| 0 <= i < vlen_prefix ==> word[i],
    ensures
        decoded(word.take(cut as int)) == Err::<u64, IncompleteInt<u64>>(
            IncompleteInt::Unbounded { start: clamp(prefix_value(cut, false)) },
        ),
{
    lemma_leading_ones(word.take(cut as int), cut);
}

/// A code word cut behind the zero that ends its run of ones reads as the
/// range of all values with that many ones.
pub proof fn lemma_cut_at_next_bit(word: Seq<bool>, vlen_prefix: nat)
    requires
        vlen_prefix < word.len(),
        vlen_prefix + 2 <= usize::MAX,
        forall|i: int| 0 <= i < vlen_prefix ==> word[i],
        !word[vlen_prefix as int],
    ensures
        decoded(word.take(vlen_prefix as int + 1)) == Err::<u64, IncompleteInt<u64>>(
            IncompleteInt::Bounded {
                lo: clamp(prefix_value(vlen_prefix, false)),
                hi: clamp(prefix_value(vlen_prefix + 1, false) - 1),
                bits_needed: (vlen_prefix + 2) as usize,
            },
        ),
{
    lemma_leading_ones(word.take(vlen_prefix as int + 1), vlen_prefix);
}

/// A code word cut behind `cut` of its suffix bits reads as the range of the
/// values that share those bits.
pub proof fn lemma_cut_in_suffix(
    word: Seq<bool>,
    vlen_prefix: nat,
    next_bit: bool,
    suffix: nat,
    cut: nat,
)
    requires
        suffix < pow2(suffix_size(vlen_prefix, next_bit)),
        cut < suffix_size(vlen_prefix, next_bit) <= 62,
        word == repeat(true, vlen_prefix) + seq![false, next_bit] + be_bits(
            suffix,
            suffix_size(vlen_prefix, next_bit),
        ),
    ensures
        ({
            let size = suffix_size(vlen_prefix, next_bit);
            let partial = suffix / pow2((size - cut) as nat);
            let range = partial_range(vlen_prefix, next_bit, partial, cut);
            &&& partial < pow2(cut)
            &&& decoded(word.take(vlen_prefix as int + 2 + cut)) == Err::<u64, IncompleteInt<u64>>(
                IncompleteInt::Bounded {
                    lo: clamp(range.0),
                    hi: clamp(range.1),
                    bits_needed: (size - cut) as usize,
                },
            )
        }),
{
    let size = suffix_size(vlen_prefix, next_bit);
    let seen = word.take(vlen_prefix as int + 2 + cut);
    let unit = pow2((size - cut) as nat);
    lemma_leading_ones(seen, vlen_prefix);
    assert(seen.subrange(vlen_prefix as int + 2, seen.len() as int) =~= be_bits(suffix, size).take(
        cut as int,
    ));
    lemma_be_bits_prefix(suffix, size, cut);
    lemma_pow2_adds((size - cut) as nat, cut);
    lemma_pow2_pos((size - cut) as nat);
    vstd::arithmetic::div_mod::lemma_multiply_divide_lt(
        suffix as int,
        unit as int,
        pow2(cut) as int,
    );
}

/// The parts of the code word of `value`: the length of its run of ones,
/// the bit behind the zero, the length of its suffix and the suffix.
fn parts(value: u64) -> (parts: (usize, bool, usize, u64))
    requires
        value >= 3,
    ensures
        parts.0 <= 62,
        parts.2 <= 62,
        parts.2 == suffix_size(parts.0 as nat, parts.1),
        parts.3 < pow2(parts.2 as nat),
        value == prefix_value(parts.0 as nat, parts.1) + parts.3,
        codeword(value as nat) == repeat(true, parts.0 as nat) + seq![false, parts.1] + be_bits(
            parts.3 as nat,
            parts.2 as nat,
        ),
        codeword(value as nat).len() == parts.0 + 2 + parts.2,
{
    proof {
        lemma_bit_length_is_width(value);
        lemma_second_bit(value as nat);
        lemma_bit_length_bounds(value as nat);
        lemma2_to64();
    }
    let flen: usize = 64 - (value.leading_zeros() as usize);
    proof {
        vstd::bits::lemma_u64_pow2_no_overflow((flen - 2) as nat);
    }
    let flen_next_bit: bool = masked_bit(value, flen - 2);
    let vlen_next_bit: bool = !flen_next_bit;
    let vlen_prefix: usize = vlen_indicator(flen, flen_next_bit);
    let size: usize = suffix_len(flen);
    let suffix_bits: u64 = masked_suffix(value, size);
    proof {
        lemma_codeword_parts(
            value,
            vlen_prefix as nat,
            vlen_next_bit,
            size as nat,
            suffix_bits as nat,
        );
    }
    (vlen_prefix, vlen_next_bit, size, suffix_bits)
}

/// Writes the code word of `value`, as far as the buffer has room.
///
/// When the buffer ends inside the code word, the error tells what a reader
/// makes of the part that was written.
#[verifier::rlimit(60)]
pub fn write(bitstream: &mut BitEncoder, value: u64) -> (outcome: Result<(), IncompleteInt<u64>>)
    requires
        old(bitstream).wf(),
        value >= 3,
    ensures
        final(bitstream).wf(),
        final(final(bitstream).bits)@ == final(old(bitstream).bits)@,
        final(bitstream).wrote(old(bitstream), codeword(value as nat)),
        outcome == write_outcome(codeword(value as nat), old(bitstream).room()),
        outcome.is_ok() <==> codeword(value as nat).len() <= old(bitstream).room(),
        outcome.is_err() ==> outcome.unwrap_err().wf() && outcome.unwrap_err().lower() >= 3,
{
    let (vlen_prefix, vlen_next_bit, size, suffix_bits) = parts(value);
    let ghost word = codeword(value as nat);
    proof {
        lemma_overwrite_empty(bitstream.stream(), bitstream.pos as int);
        assert(word.take(0) =~= Seq::<bool>::empty());
    }

    let mut sublen: usize = 0;
    while sublen < vlen_prefix
        invariant
            final(bitstream.bits)@ == final(old(bitstream).bits)@,
            in_progress(bitstream, old(bitstream), word, sublen as nat),
            sublen <= vlen_prefix <= 62,
            word == codeword(value as nat),
            word == repeat(true, vlen_prefix as nat) + seq![false, vlen_next_bit] + be_bits(
                suffix_bits as nat,
                size as nat,
            ),
        decreases vlen_prefix - sublen,
    {
        let ghost now = *bitstream;
        match bitstream.write_bit(true) {
            Err(_) => {
                proof {
                    lemma_cut_in_ones(word, vlen_prefix as nat, sublen as nat);
                }
                return Err(
                    IncompleteInt::Unbounded { start: decode::from_partial_length_indicator(sublen) },
                );
            },
            Ok(()) => {
                proof {
                    lemma_progress(&now, bitstream, old(bitstream), word, sublen as nat);
                }
                sublen += 1;
            },
        }
    }

    let ghost now = *bitstream;
    match bitstream.write_bit(false) {
        Err(_) => {
            proof {
                lemma_cut_in_ones(word, vlen_prefix as nat, vlen_prefix as nat);
            }
            return Err(
                IncompleteInt::Unbounded { start: decode::from_partial_length_indicator(vlen_prefix) },
            );
        },
        Ok(()) => {
            proof {
                lemma_progress(&now, bitstream, old(bitstream), word, vlen_prefix as nat);
            }
        },
    }

    let ghost now = *bitstream;
    match bitstream.write_bit(vlen_next_bit) {
        Err(_) => {
            proof {
                lemma_cut_at_next_bit(word, vlen_prefix as nat);
            }
            let range = decode::from_full_length_indicator(vlen_prefix);
            return Err(
                IncompleteInt::Bounded {
                    lo: range.0,
                    hi: range.1,
                    bits_needed: 1 + decode::suffix_len(vlen_prefix, true),
                },
            );
        },
        Ok(()) => {
            proof {
                lemma_progress(&now, bitstream, old(bitstream), word, (vlen_prefix + 1) as nat);
            }
        },
    }

    let first: usize = vlen_prefix + 2;
    let mut written: usize = 0;
    while written < size
        invariant
            final(bitstream.bits)@ == final(old(bitstream).bits)@,
            in_progress(bitstream, old(bitstream), word, (first + written) as nat),
            written <= size <= 62,
            first == vlen_prefix + 2,
            vlen_prefix <= 62,
            word == codeword(value as nat),
            word == repeat(true, vlen_prefix as nat) + seq![false, vlen_next_bit] + be_bits(
                suffix_bits as nat,
                size as nat,
            ),
            size == suffix_size(vlen_prefix as nat, vlen_next_bit),
            suffix_bits < pow2(size as nat),
        decreases size - written,
    {
        let sublen: usize = size - 1 - written;
        proof {
            vstd::bits::lemma_u64_pow2_no_overflow(sublen as nat);
        }
        let bit: bool = masked_bit(suffix_bits, sublen);
        let ghost now = *bitstream;
        match bitstream.write_bit(bit) {
            Err(_) => {
                let partial: u64 = suffix_bits >> (sublen + 1);
                proof {
                    lemma_cut_in_suffix(
                        word,
                        vlen_prefix as nat,
                        vlen_next_bit,
                        suffix_bits as nat,
                        written as nat,
                    );
                    vstd::bits::lemma_u64_shr_is_div(suffix_bits, (sublen + 1) as u64);
                    lemma_small_mod(partial as nat, pow2(written as nat));
                }
                let range = decode::from_full_prefix(vlen_prefix, vlen_next_bit, (partial, written));
                return Err(
                    IncompleteInt::Bounded { lo: range.0, hi: range.1, bits_needed: sublen + 1 },
                );
            },
            Ok(()) => {
                proof {
                    lemma_progress(&now, bitstream, old(bitstream), word, (first + written) as nat);
                }
                written += 1;
            },
        }
    }
    proof {
        assert(word.take(word.len() as int) =~= word);
    }
    Ok(())
}

} // verus!
