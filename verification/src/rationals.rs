//! Fractions, their continued-fraction digits, and the fixed-width words.

use vstd::prelude::*;
use vstd::arithmetic::power2::pow2;
use crate::bits::{
    be_bits, be_byte, be_value, bits_of, lemma_be_bits_value, lemma_bytes_of_word,
    lemma_overwrite_empty, repeat,
};
use crate::bitslice::{BitDecoder, BitEncoder};
use crate::sbs_main::{
    codeword, filled, lemma_stream_of_prefix, read_all, region_after, stream_of,
    Coder, RhoRegion,
};
use crate::utils::IncompleteInt;

verus! {

/// The continued-fraction digits of `p / q`, for `p <= q`: the quotients of
/// Euclid's algorithm, first digit first.
pub open spec fn cf_digits(p: nat, q: nat) -> Seq<u64>
    decreases p,
{
    if p == 0 {
        Seq::empty()
    } else {
        seq![(q / p) as u64] + cf_digits(q % p, p)
    }
}

/// Whether `g` divides `x`.
pub open spec fn divides(g: nat, x: nat) -> bool {
    g > 0 && x % g == 0
}

/// Whether `p / q` is in lowest terms: no number from 2 upwards divides both.
pub open spec fn reduced(p: nat, q: nat) -> bool {
    forall|g: nat| g >= 2 ==> !(#[trigger] divides(g, p) && divides(g, q))
}

/// The pair that the fold over `digits_rev` arrives at: starting from
/// `(1, 0)`, each digit `a` turns `(num, den)` into `(a * num + den, num)`.
pub open spec fn cf_fold(digits_rev: Seq<u64>) -> (int, int)
    decreases digits_rev.len(),
{
    if digits_rev.len() == 0 {
        (1, 0)
    } else {
        let (num, den) = cf_fold(digits_rev.drop_last());
        (digits_rev.last() * num + den, num)
    }
}

/// A producer of the continued-fraction digits of a fraction.
pub struct CfDigits {
    numerator: u64,
    denominator: u64,
}

impl View for CfDigits {
    type V = Seq<u64>;

    /// The digits that are still to come.
    closed spec fn view(&self) -> Seq<u64> {
        cf_digits(self.numerator as nat, self.denominator as nat)
    }
}

impl CfDigits {
    #[verifier::type_invariant]
    closed spec fn inv(&self) -> bool {
        self.numerator <= self.denominator
    }

    /// Whether every digit to come is below `u64::MAX`: so it is for every
    /// fraction but `1 / u64::MAX`.
    pub closed spec fn below_max(&self) -> bool {
        !(self.numerator == 1 && self.denominator == u64::MAX)
    }

    /// The next digit, or `None` once the expansion has ended.
    pub fn next(&mut self) -> (digit: Option<u64>)
        ensures
            match digit {
                None => old(self)@.len() == 0 && final(self)@ == old(self)@,
                Some(value) => old(self)@.len() > 0 && value == old(self)@[0] && value >= 1
                    && final(self)@ == old(self)@.skip(1),
            },
            old(self).below_max() ==> final(self).below_max() && (digit.is_some()
                ==> digit.unwrap() < u64::MAX),
    {
        proof {
            use_type_invariant(&*self);
        }
        if self.numerator == 0 {
            return None;
        }
        let next_value: u64 = self.denominator / self.numerator;
        let ghost rest = cf_digits(
            (self.denominator % self.numerator) as nat,
            self.numerator as nat,
        );
        proof {
            assert(self@ == seq![next_value] + rest);
            assert((seq![next_value] + rest).skip(1) =~= rest);
            assert(next_value >= 1) by (nonlinear_arith)
                requires
                    next_value == self.denominator / self.numerator,
                    0 < self.numerator <= self.denominator,
            ;
            assert(self.numerator >= 2 ==> next_value < u64::MAX) by (nonlinear_arith)
                requires
                    next_value == self.denominator / self.numerator,
                    self.denominator <= u64::MAX,
            ;
            assert(self.numerator == 1 ==> next_value == self.denominator) by (nonlinear_arith)
                requires
                    next_value == self.denominator / self.numerator,
            ;
            assert(self.numerator == self.denominator ==> self.denominator % self.numerator == 0)
                by (nonlinear_arith)
                requires
                    self.numerator > 0,
            ;
        }
        *self = CfDigits {
            numerator: self.denominator % self.numerator,
            denominator: self.numerator,
        };
        Some(next_value)
    }
}

/// The continued-fraction digits of `numerator / denominator`, a fraction
/// between 0 and 1.
pub fn rational64_to_cf_iter(numerator: u64, denominator: u64) -> (digits: CfDigits)
    requires
        denominator >= 1,
        numerator <= denominator,
    ensures
        digits@ == cf_digits(numerator as nat, denominator as nat),
        digits.below_max() == !(numerator == 1 && denominator == u64::MAX),
{
    CfDigits { numerator, denominator }
}

/// Folds digits, last digit first, back into the fraction that they expand:
/// the result is `(numerator, denominator)`.
pub fn cf_iter_to_rational64(iter_rev: &[u64]) -> (fraction: (u64, u64))
    requires
        forall|i: int| 0 <= i < iter_rev@.len() ==> iter_rev@[i] >= 1,
        cf_fold(iter_rev@).0 <= u64::MAX,
    ensures
        fraction.0 == cf_fold(iter_rev@).1,
        fraction.1 == cf_fold(iter_rev@).0,
        fraction.0 <= fraction.1,
        fraction.1 >= 1,
        reduced(fraction.0 as nat, fraction.1 as nat),
{
    proof {
        lemma_fold_is_reduced(iter_rev@);
    }
    let mut num: u64 = 1;
    let mut den: u64 = 0;
    let mut index: usize = 0;
    proof {
        lemma_cf_fold_grows(iter_rev@, 0);
        assert(iter_rev@.take(0) =~= Seq::<u64>::empty());
    }
    while index < iter_rev.len()
        invariant
            index <= iter_rev@.len(),
            forall|i: int| 0 <= i < iter_rev@.len() ==> iter_rev@[i] >= 1,
            cf_fold(iter_rev@).0 <= u64::MAX,
            (num as int, den as int) == cf_fold(iter_rev@.take(index as int)),
            den <= num,
            num >= 1,
        decreases iter_rev@.len() - index,
    {
        let item: u64 = iter_rev[index];
        proof {
            let longer = iter_rev@.take(index + 1);
            assert(longer.drop_last() =~= iter_rev@.take(index as int));
            assert(longer.last() == item);
            lemma_cf_fold_grows(iter_rev@, (index + 1) as nat);
            assert(item * num >= num) by (nonlinear_arith)
                requires
                    item >= 1,
                    num >= 1,
            ;
        }
        let next: u64 = item * num + den;
        den = num;
        num = next;
        index += 1;
    }
    proof {
        assert(iter_rev@.take(iter_rev@.len() as int) =~= iter_rev@);
    }
    (den, num)
}

/// The fold never shrinks: what it holds after some of the digits is at most
/// what it holds after all of them.
pub proof fn lemma_cf_fold_grows(digits_rev: Seq<u64>, n: nat)
    requires
        n <= digits_rev.len(),
        forall|i: int| 0 <= i < digits_rev.len() ==> digits_rev[i] >= 1,
    ensures
        1 <= cf_fold(digits_rev.take(n as int)).0 <= cf_fold(digits_rev).0,
        0 <= cf_fold(digits_rev.take(n as int)).1 <= cf_fold(digits_rev.take(n as int)).0,
    decreases digits_rev.len(),
{
    if n == digits_rev.len() {
        assert(digits_rev.take(n as int) =~= digits_rev);
        if n > 0 {
            lemma_cf_fold_grows(digits_rev.drop_last(), (n - 1) as nat);
            assert(digits_rev.drop_last().take(n - 1) =~= digits_rev.drop_last());
            let (num, den) = cf_fold(digits_rev.drop_last());
            assert(digits_rev.last() * num >= num) by (nonlinear_arith)
                requires
                    digits_rev.last() >= 1,
                    num >= 1,
            ;
        }
    } else {
        lemma_cf_fold_grows(digits_rev.drop_last(), n);
        assert(digits_rev.drop_last().take(n as int) =~= digits_rev.take(n as int));
        lemma_cf_fold_grows(digits_rev.drop_last(), (digits_rev.len() - 1) as nat);
        assert(digits_rev.drop_last().take(digits_rev.len() - 1) =~= digits_rev.drop_last());
        let (num, den) = cf_fold(digits_rev.drop_last());
        assert(digits_rev.last() * num + den >= num) by (nonlinear_arith)
            requires
                digits_rev.last() >= 1,
                num >= 1,
                den >= 0,
        ;
    }
}

/// What digits fold to is a fraction in lowest terms.
pub proof fn lemma_fold_is_reduced(digits_rev: Seq<u64>)
    ensures
        cf_fold(digits_rev).0 >= 0,
        cf_fold(digits_rev).1 >= 0,
        reduced(cf_fold(digits_rev).1 as nat, cf_fold(digits_rev).0 as nat),
    decreases digits_rev.len(),
{
    let (top, bottom) = cf_fold(digits_rev);
    if digits_rev.len() == 0 {
        assert forall|g: nat| g >= 2 implies !(#[trigger] divides(g, 0) && divides(g, 1)) by {
            vstd::arithmetic::div_mod::lemma_small_mod(1, g);
        }
    } else {
        let (num, den) = cf_fold(digits_rev.drop_last());
        let last = digits_rev.last() as int;
        lemma_fold_is_reduced(digits_rev.drop_last());
        assert(last * num >= 0) by (nonlinear_arith)
            requires
                last >= 0,
                num >= 0,
        ;
        assert forall|g: nat| g >= 2 implies !(#[trigger] divides(g, bottom as nat) && divides(
            g,
            top as nat,
        )) by {
            if divides(g, num as nat) && divides(g, (last * num + den) as nat) {
                let k = num / g as int;
                vstd::arithmetic::div_mod::lemma_fundamental_div_mod(num, g as int);
                assert(last * num + den == g * (last * k) + den) by (nonlinear_arith)
                    requires
                        num == g * k,
                ;
                vstd::arithmetic::div_mod::lemma_mod_multiples_vanish(last * k, den, g as int);
                assert(divides(g, den as nat));
            }
        }
    }
}

/// The digit that the item at `i` stands for, if it stands for one.
///
/// A complete symbol stands for itself. A range with both ends known stands
/// for the value just above its lower end. An open range stands for the value
/// just above its start where the symbol before it is a complete 1 that is
/// not the first symbol, and for nothing otherwise.
pub open spec fn resolved_at(items: Seq<Result<u64, IncompleteInt<u64>>>, i: int) -> Option<int> {
    match items[i] {
        Ok(value) => Some(value as int),
        Err(IncompleteInt::Unbounded { start }) => if i >= 2 && items[i - 1] == Ok::<
            u64,
            IncompleteInt<u64>,
        >(1) {
            Some(start + 1)
        } else {
            None
        },
        Err(IncompleteInt::Bounded { lo, .. }) => Some(lo + 1),
    }
}

/// The digits that `items` stand for, in order.
pub open spec fn resolved(items: Seq<Result<u64, IncompleteInt<u64>>>) -> Seq<u64>
    decreases items.len(),
{
    if items.len() == 0 {
        Seq::empty()
    } else {
        match resolved_at(items, items.len() - 1) {
            Some(value) => resolved(items.drop_last()).push(value as u64),
            None => resolved(items.drop_last()),
        }
    }
}

/// Whether every digit that `items` stand for fits 64 bits.
pub open spec fn resolvable(items: Seq<Result<u64, IncompleteInt<u64>>>) -> bool {
    forall|i: int|
        0 <= i < items.len() ==> match #[trigger] resolved_at(items, i) {
            Some(value) => value <= u64::MAX,
            None => true,
        }
}

/// Turns symbols as they were read, the incomplete ones included, into
/// continued-fraction digits.
pub fn map_resolve_incomplete_ints(iter: &[Result<u64, IncompleteInt<u64>>]) -> (digits: Vec<u64>)
    requires
        resolvable(iter@),
    ensures
        digits@ == resolved(iter@),
{
    let mut digits: Vec<u64> = Vec::new();
    let mut prev_is_one: bool = false;
    let mut index: usize = 0;
    proof {
        assert(iter@.take(0) =~= Seq::<Result<u64, IncompleteInt<u64>>>::empty());
    }
    while index < iter.len()
        invariant
            index <= iter@.len(),
            resolvable(iter@),
            digits@ == resolved(iter@.take(index as int)),
            prev_is_one == (index >= 1 && iter@[index - 1] == Ok::<u64, IncompleteInt<u64>>(1)),
        decreases iter@.len() - index,
    {
        let ghost seen = iter@.take(index + 1);
        proof {
            assert(seen.drop_last() =~= iter@.take(index as int));
            assert(resolved_at(seen, index as int) == resolved_at(iter@, index as int));
        }
        let result: Option<u64> = match &iter[index] {
            Ok(value) => Some(*value),
            Err(IncompleteInt::Unbounded { start }) => {
                if index >= 2 && prev_is_one {
                    Some(*start + 1)
                } else {
                    None
                }
            },
            Err(IncompleteInt::Bounded { lo, .. }) => Some(*lo + 1),
        };
        prev_is_one = match &iter[index] {
            Ok(value) => *value == 1,
            Err(_) => false,
        };
        match result {
            Some(value) => {
                digits.push(value);
            },
            None => {},
        }
        index += 1;
    }
    proof {
        assert(iter@.take(iter@.len() as int) =~= iter@);
    }
    digits
}

/// The bits that encoding `numerator / denominator` leaves in a buffer of
/// `width` bits: the code words of its digits, cut at the end of the buffer
/// or padded with ones up to it.
pub open spec fn encoded(numerator: u64, denominator: u64, width: nat) -> Seq<bool> {
    filled(stream_of(RhoRegion::Eq0, cf_digits(numerator as nat, denominator as nat)), width)
}

/// The word of `width` bits that encoding `numerator / denominator` gives.
pub open spec fn encoded_word(numerator: u64, denominator: u64, width: nat) -> nat {
    be_value(encoded(numerator, denominator, width))
}

/// Whether the code words of every digit of `numerator / denominator` fit a
/// buffer of `width` bits.
pub open spec fn fits(numerator: u64, denominator: u64, width: nat) -> bool {
    stream_of(RhoRegion::Eq0, cf_digits(numerator as nat, denominator as nat)).len() <= width
}

/// Encodes `numerator / denominator` into the whole of `raw_bits` and tells
/// whether every digit fitted. Either way the buffer then holds the code
/// words as far as they fitted, padded with ones.
pub fn encode_stream(numerator: u64, denominator: u64, raw_bits: &mut [u8]) -> (complete: bool)
    requires
        denominator >= 1,
        numerator <= denominator,
        !(numerator == 1 && denominator == u64::MAX),
        8 * old(raw_bits)@.len() <= usize::MAX,
    ensures
        final(raw_bits)@.len() == old(raw_bits)@.len(),
        bits_of(final(raw_bits)@) == encoded(numerator, denominator, 8 * old(raw_bits)@.len()),
        complete == fits(numerator, denominator, 8 * old(raw_bits)@.len()),
{
    let ghost all = cf_digits(numerator as nat, denominator as nat);
    let ghost width = 8 * raw_bits@.len();
    let mut bitstream = BitEncoder::new(raw_bits);
    let ghost start = bitstream;
    let mut coder = Coder::default();
    let mut digits = rational64_to_cf_iter(numerator, denominator);
    let mut is_truncated: bool = false;
    let ghost mut count: int = 0;
    proof {
        lemma_overwrite_empty(start.stream(), 0);
        assert(all.take(0) =~= Seq::<u64>::empty());
        assert(all.skip(0) =~= all);
    }
    loop
        invariant_except_break
            !is_truncated,
            digits@ == all.skip(count),
            digits.below_max(),
            coder.0 == region_after(RhoRegion::Eq0, all.take(count)),
            stream_of(RhoRegion::Eq0, all.take(count)).len() <= width,
            bitstream.wrote(&start, stream_of(RhoRegion::Eq0, all.take(count))),
        invariant
            0 <= count <= all.len(),
            start.wf(),
            start.pos == 0,
            start.room() == width,
            bitstream.wf(),
            final(bitstream.bits)@ == final(start.bits)@,
        ensures
            bitstream.wrote(&start, stream_of(RhoRegion::Eq0, all.take(count))),
            is_truncated ==> stream_of(RhoRegion::Eq0, all.take(count)).len() > width,
            !is_truncated ==> count == all.len() && stream_of(RhoRegion::Eq0, all).len() <= width,
        decreases all.len() - count,
    {
        let ghost middle = bitstream;
        let ghost done = all.take(count);
        match digits.next() {
            None => {
                proof {
                    assert(all.take(count) =~= all);
                }
                break ;
            },
            Some(value) => {
                let ghost region = coder.0;
                let outcome = coder.write(&mut bitstream, value);
                proof {
                    let longer = all.take(count + 1);
                    assert(value == all[count]);
                    assert(longer.drop_last() =~= done);
                    assert(longer.last() == value);
                    assert(all.skip(count).skip(1) =~= all.skip(count + 1));
                    bitstream.lemma_wrote_then(
                        &start,
                        &middle,
                        stream_of(RhoRegion::Eq0, done),
                        codeword(region.which_spec(), value),
                    );
                    count = count + 1;
                }
                if outcome.is_err() {
                    is_truncated = true;
                    break ;
                }
            },
        }
    }
    let ghost middle = bitstream;
    let ghost word = stream_of(RhoRegion::Eq0, all.take(count));
    coder.write_inf(&mut bitstream);
    proof {
        lemma_stream_of_prefix(RhoRegion::Eq0, all, count as nat);
        let total = stream_of(RhoRegion::Eq0, all);
        if is_truncated {
            assert(middle.room() == 0);
            assert(repeat(true, 0) =~= Seq::<bool>::empty());
            lemma_overwrite_empty(middle.stream(), middle.pos as int);
            assert(word.take(width as int) =~= total.take(width as int)) by {
                assert(total.take(word.len() as int).take(width as int) =~= total.take(
                    width as int,
                ));
            }
            assert(bitstream.stream() =~= total.take(width as int));
        } else {
            bitstream.lemma_wrote_then(&start, &middle, word, repeat(true, middle.room()));
            assert(bitstream.stream() =~= filled(total, width as nat));
        }
    }
    !is_truncated
}

/// The `count` low bytes of `word`, most significant first.
pub fn word_to_bytes(word: u64, count: usize) -> (bytes: Vec<u8>)
    requires
        count <= 8,
    ensures
        bytes@.len() == count,
        bits_of(bytes@) == be_bits(word as nat, 8 * count as nat),
{
    let mut bytes: Vec<u8> = Vec::new();
    let mut index: usize = 0;
    while index < count
        invariant
            index <= count <= 8,
            bytes@.len() == index,
            forall|m: int| 0 <= m < index ==> #[trigger] bytes@[m] == be_byte(word, count as nat, m),
        decreases count - index,
    {
        let shift: usize = 8 * (count - 1 - index);
        let byte: u8 = ((word >> shift) & 0xff) as u8;
        bytes.push(byte);
        index += 1;
    }
    proof {
        lemma_bytes_of_word(word, bytes@);
    }
    bytes
}

/// The word whose low bytes, most significant first, are `bytes`.
pub fn bytes_to_word(bytes: &[u8]) -> (word: u64)
    requires
        bytes@.len() <= 8,
    ensures
        bits_of(bytes@) == be_bits(word as nat, 8 * bytes@.len()),
        bytes@.len() < 8 ==> word >> ((8 * bytes@.len()) as u64) == 0,
{
    let mut word: u64 = 0;
    let mut index: usize = 0;
    assert(0u64 >> 0u64 == 0) by (bit_vector);
    while index < bytes.len()
        invariant
            index <= bytes@.len() <= 8,
            index < 8 ==> word >> ((8 * index) as u64) == 0,
            forall|m: int| 0 <= m < index ==> #[trigger] bytes@[m] == be_byte(word, index as nat, m),
        decreases bytes@.len() - index,
    {
        let byte: u8 = bytes[index];
        let wider: u64 = (word << 8) | (byte as u64);
        proof {
            let width = (8 * index) as u64;
            assert(((wider >> 0) & 0xff) as u8 == byte && (width < 56 ==> wider >> ((width + 8) as u64)
                == 0)) by (bit_vector)
                requires
                    wider == (word << 8) | (byte as u64),
                    word >> width == 0,
                    width <= 56,
            ;
            assert forall|m: int| 0 <= m < index implies #[trigger] bytes@[m] == be_byte(
                wider,
                (index + 1) as nat,
                m,
            ) by {
                let shift = (8 * (index - 1 - m)) as u64;
                assert(bytes@[m] == be_byte(word, index as nat, m));
                assert((wider >> ((shift + 8) as u64)) & 0xff == (word >> shift) & 0xff)
                    by (bit_vector)
                    requires
                        wider == (word << 8) | (byte as u64),
                        word >> width == 0,
                        width <= 56,
                        shift <= 48,
                ;
            }
        }
        word = wider;
        index += 1;
    }
    proof {
        lemma_bytes_of_word(word, bytes@);
    }
    word
}

/// The word that an encoder returns, complete or not.
pub open spec fn word_of<W>(outcome: Result<W, W>) -> W {
    match outcome {
        Ok(word) => word,
        Err(word) => word,
    }
}

/// Encodes `numerator / denominator` into a buffer of `count` bytes and
/// packs the buffer, most significant byte first, into a word.
fn encode_word(numerator: u64, denominator: u64, count: usize) -> (outcome: (bool, u64))
    requires
        denominator >= 1,
        numerator <= denominator,
        !(numerator == 1 && denominator == u64::MAX),
        count <= 8,
    ensures
        outcome.0 == fits(numerator, denominator, 8 * count as nat),
        be_bits(outcome.1 as nat, 8 * count as nat) == encoded(
            numerator,
            denominator,
            8 * count as nat,
        ),
        count < 8 ==> outcome.1 >> ((8 * count) as u64) == 0,
        outcome.1 == encoded_word(numerator, denominator, 8 * count as nat),
{
    let mut bits: Vec<u8> = word_to_bytes(0, count);
    let complete = encode_stream(numerator, denominator, bits.as_mut_slice());
    let word = bytes_to_word(bits.as_slice());
    proof {
        let width = (8 * count) as nat;
        if count < 8 {
            vstd::bits::lemma_u64_shr_is_div(word, (8 * count) as u64);
            vstd::bits::lemma_u64_pow2_no_overflow(width);
            vstd::arithmetic::div_mod::lemma_small_div_converse(word as int, pow2(width) as int);
        } else {
            vstd::arithmetic::power2::lemma2_to64();
        }
        lemma_be_bits_value(word as nat, width);
    }
    (complete, word)
}

/// Encodes `numerator / denominator` as a word of 8 bits: `Ok` where every
/// digit fitted, `Err` with the word as far as it got where not.
pub fn encode_c8(numerator: u64, denominator: u64) -> (outcome: Result<u8, u8>)
    requires
        denominator >= 1,
        numerator <= denominator,
        !(numerator == 1 && denominator == u64::MAX),
    ensures
        outcome.is_ok() == fits(numerator, denominator, 8),
        word_of(outcome) == encoded_word(numerator, denominator, 8),
        be_bits(word_of(outcome) as nat, 8) == encoded(numerator, denominator, 8),
{
    let (complete, word) = encode_word(numerator, denominator, 1);
    assert(word <= u8::MAX) by (bit_vector)
        requires
            word >> 8u64 == 0,
    ;
    let result: u8 = word as u8;
    if complete {
        Ok(result)
    } else {
        Err(result)
    }
}

/// Encodes `numerator / denominator` as a word of 16 bits: `Ok` where every
/// digit fitted, `Err` with the word as far as it got where not.
pub fn encode_c16(numerator: u64, denominator: u64) -> (outcome: Result<u16, u16>)
    requires
        denominator >= 1,
        numerator <= denominator,
        !(numerator == 1 && denominator == u64::MAX),
    ensures
        outcome.is_ok() == fits(numerator, denominator, 16),
        word_of(outcome) == encoded_word(numerator, denominator, 16),
        be_bits(word_of(outcome) as nat, 16) == encoded(numerator, denominator, 16),
{
    let (complete, word) = encode_word(numerator, denominator, 2);
    assert(word <= u16::MAX) by (bit_vector)
        requires
            word >> 16u64 == 0,
    ;
    let result: u16 = word as u16;
    if complete {
        Ok(result)
    } else {
        Err(result)
    }
}

/// Encodes `numerator / denominator` as a word of 32 bits: `Ok` where every
/// digit fitted, `Err` with the word as far as it got where not.
pub fn encode_c32(numerator: u64, denominator: u64) -> (outcome: Result<u32, u32>)
    requires
        denominator >= 1,
        numerator <= denominator,
        !(numerator == 1 && denominator == u64::MAX),
    ensures
        outcome.is_ok() == fits(numerator, denominator, 32),
        word_of(outcome) == encoded_word(numerator, denominator, 32),
        be_bits(word_of(outcome) as nat, 32) == encoded(numerator, denominator, 32),
{
    let (complete, word) = encode_word(numerator, denominator, 4);
    assert(word <= u32::MAX) by (bit_vector)
        requires
            word >> 32u64 == 0,
    ;
    let result: u32 = word as u32;
    if complete {
        Ok(result)
    } else {
        Err(result)
    }
}

/// Encodes `numerator / denominator` as a word of 64 bits: `Ok` where every
/// digit fitted, `Err` with the word as far as it got where not.
pub fn encode_c64(numerator: u64, denominator: u64) -> (outcome: Result<u64, u64>)
    requires
        denominator >= 1,
        numerator <= denominator,
        !(numerator == 1 && denominator == u64::MAX),
    ensures
        outcome.is_ok() == fits(numerator, denominator, 64),
        word_of(outcome) == encoded_word(numerator, denominator, 64),
        be_bits(word_of(outcome) as nat, 64) == encoded(numerator, denominator, 64),
{
    let (complete, word) = encode_word(numerator, denominator, 8);
    let result: u64 = word;
    if complete {
        Ok(result)
    } else {
        Err(result)
    }
}

/// The digits that the stream `bits` stands for, first digit first.
pub open spec fn decoded_digits(bits: Seq<bool>) -> Seq<u64> {
    resolved(read_all(RhoRegion::Eq0, bits))
}

/// The fraction `(numerator, denominator)` that the stream `bits` stands for.
pub open spec fn decoded_fraction(bits: Seq<bool>) -> (int, int) {
    let folded = cf_fold(decoded_digits(bits).reverse());
    (folded.1, folded.0)
}

/// Whether decoding `bits` stays within 64-bit numbers.
pub open spec fn decodable(bits: Seq<bool>) -> bool {
    &&& resolvable(read_all(RhoRegion::Eq0, bits))
    &&& forall|i: int| 0 <= i < decoded_digits(bits).len() ==> decoded_digits(bits)[i] >= 1
    &&& decoded_fraction(bits).1 <= u64::MAX
}

/// The items of `items` in reverse order.
pub fn reversed(items: &[u64]) -> (turned: Vec<u64>)
    ensures
        turned@ == items@.reverse(),
{
    let mut turned: Vec<u64> = Vec::new();
    let mut left: usize = items.len();
    while left > 0
        invariant
            left <= items@.len(),
            turned@.len() == items@.len() - left,
            forall|i: int| 0 <= i < turned@.len() ==> turned@[i] == items@[items@.len() - 1 - i],
        decreases left,
    {
        left -= 1;
        turned.push(items[left]);
    }
    assert(turned@ =~= items@.reverse());
    turned
}

/// Decodes the whole of `bits`, a stream of at most 64 bits, into the
/// fraction `(numerator, denominator)` that it stands for.
pub fn decode_stream(bits: &[u8]) -> (fraction: (u64, u64))
    requires
        bits@.len() <= 8,
    ensures
        fraction.0 == decoded_fraction(bits_of(bits@)).0,
        fraction.1 == decoded_fraction(bits_of(bits@)).1,
        fraction.0 <= fraction.1,
        fraction.1 >= 1,
        reduced(fraction.0 as nat, fraction.1 as nat),
{
    proof {
        crate::bounds::lemma_decode_fits(bits_of(bits@));
        lemma_fold_is_reduced(decoded_digits(bits_of(bits@)).reverse());
    }
    let bitstream = BitDecoder::new(bits);
    let coder = Coder::default();
    let items = coder.read_iter(bitstream);
    let digits = map_resolve_incomplete_ints(items.as_slice());
    let turned = reversed(digits.as_slice());
    cf_iter_to_rational64(turned.as_slice())
}

/// Decodes a word of 8 bits into the fraction `(numerator, denominator)`
/// that it stands for.
pub fn decode_c8(bits: &u8) -> (fraction: (u64, u64))
    ensures
        fraction.0 == decoded_fraction(be_bits(*bits as nat, 8)).0,
        fraction.1 == decoded_fraction(be_bits(*bits as nat, 8)).1,
        fraction.0 <= fraction.1,
        fraction.1 >= 1,
        reduced(fraction.0 as nat, fraction.1 as nat),
{
    let bytes = word_to_bytes(*bits as u64, 1);
    decode_stream(bytes.as_slice())
}

/// Decodes a word of 16 bits into the fraction `(numerator, denominator)`
/// that it stands for.
pub fn decode_c16(bits: &u16) -> (fraction: (u64, u64))
    ensures
        fraction.0 == decoded_fraction(be_bits(*bits as nat, 16)).0,
        fraction.1 == decoded_fraction(be_bits(*bits as nat, 16)).1,
        fraction.0 <= fraction.1,
        fraction.1 >= 1,
        reduced(fraction.0 as nat, fraction.1 as nat),
{
    let bytes = word_to_bytes(*bits as u64, 2);
    decode_stream(bytes.as_slice())
}

/// Decodes a word of 32 bits into the fraction `(numerator, denominator)`
/// that it stands for.
pub fn decode_c32(bits: &u32) -> (fraction: (u64, u64))
    ensures
        fraction.0 == decoded_fraction(be_bits(*bits as nat, 32)).0,
        fraction.1 == decoded_fraction(be_bits(*bits as nat, 32)).1,
        fraction.0 <= fraction.1,
        fraction.1 >= 1,
        reduced(fraction.0 as nat, fraction.1 as nat),
{
    let bytes = word_to_bytes(*bits as u64, 4);
    decode_stream(bytes.as_slice())
}

/// Decodes a word of 64 bits into the fraction `(numerator, denominator)`
/// that it stands for.
pub fn decode_c64(bits: &u64) -> (fraction: (u64, u64))
    ensures
        fraction.0 == decoded_fraction(be_bits(*bits as nat, 64)).0,
        fraction.1 == decoded_fraction(be_bits(*bits as nat, 64)).1,
        fraction.0 <= fraction.1,
        fraction.1 >= 1,
        reduced(fraction.0 as nat, fraction.1 as nat),
{
    let bytes = word_to_bytes(*bits as u64, 8);
    decode_stream(bytes.as_slice())
}

} // verus!
