//! The mathematical model of a bit stream: bytes read from their most
//! significant bit, as a sequence of booleans.

use vstd::prelude::*;
use vstd::arithmetic::div_mod::{lemma_basic_div, lemma_div_denominator};
use vstd::arithmetic::power2::{lemma2_to64, lemma_pow2_pos, lemma_pow2_unfold, pow2};

verus! {

/// Bit `j` of `byte`, counted from the least significant bit (`j == 0`).
pub open spec fn low_bit(byte: u8, j: u8) -> bool {
    (byte >> j) & 1u8 == 1u8
}

/// Bit `i` of `byte`, counted from the most significant bit (`i == 0`).
pub open spec fn bit_at(byte: u8, i: int) -> bool {
    low_bit(byte, (7 - i) as u8)
}

/// How the bitwise operators act on each single bit of a byte.
pub proof fn lemma_bitwise_bits()
    by (bit_vector)
    ensures
        forall|a: u8, b: u8, j: u8| j < 8 ==> #[trigger] low_bit(a & b, j) == (low_bit(a, j) && low_bit(b, j)),
        forall|a: u8, b: u8, j: u8| j < 8 ==> #[trigger] low_bit(a | b, j) == (low_bit(a, j) || low_bit(b, j)),
        forall|a: u8, b: u8, j: u8| j < 8 ==> #[trigger] low_bit(a ^ b, j) == (low_bit(a, j) != low_bit(b, j)),
        forall|a: u8, j: u8| j < 8 ==> #[trigger] low_bit(!a, j) == !low_bit(a, j),
        forall|j: u8| j < 8 ==> #[trigger] low_bit(0xFFu8, j),
        forall|j: u8| j < 8 ==> !#[trigger] low_bit(0u8, j),
        forall|a: u8| #[trigger] (a & 1u8) == 0u8 || (a & 1u8) == 1u8,
        forall|a: u8| a == 2 * (a >> 1u8) + (a & 1u8),
{
}

/// How a shift moves the bits of a byte.
pub proof fn lemma_shift_bits()
    by (bit_vector)
    ensures
        forall|a: u8, s: u8, j: u8| j < 8 && s < 8 ==> #[trigger] low_bit(a << s, j) == (j >= s && low_bit(a, (j - s) as u8)),
        forall|a: u8, s: u8, j: u8| j < 8 && s < 8 ==> #[trigger] low_bit(a >> s, j) == (j + s < 8 && low_bit(a, (j + s) as u8)),
{
}

/// All bits of `bytes`, byte by byte, each from its most significant bit.
pub open spec fn bits_of(bytes: Seq<u8>) -> Seq<bool> {
    Seq::new((8 * bytes.len()) as nat, |i: int| bit_at(bytes[i / 8], i % 8))
}

/// The number that `bits` spell, most significant bit first.
pub open spec fn be_value(bits: Seq<bool>) -> nat
    decreases bits.len(),
{
    if bits.len() == 0 {
        0
    } else {
        2 * be_value(bits.drop_last()) + if bits.last() {
            1nat
        } else {
            0nat
        }
    }
}

/// A run of `n` equal bits.
pub open spec fn repeat(bit: bool, n: nat) -> Seq<bool> {
    Seq::new(n, |i: int| bit)
}

/// How many `true` bits stand at the front of `bits`.
pub open spec fn leading_ones(bits: Seq<bool>) -> nat
    decreases bits.len(),
{
    if bits.len() == 0 || !bits[0] {
        0
    } else {
        1 + leading_ones(bits.skip(1))
    }
}

/// A byte is determined by its eight bits.
pub proof fn lemma_byte_from_bits(a: u8, b: u8)
    requires
        forall|i: int| 0 <= i < 8 ==> bit_at(a, i) == bit_at(b, i),
    ensures
        a == b,
{
    assert(bit_at(a, 0) == bit_at(b, 0));
    assert(bit_at(a, 1) == bit_at(b, 1));
    assert(bit_at(a, 2) == bit_at(b, 2));
    assert(bit_at(a, 3) == bit_at(b, 3));
    assert(bit_at(a, 4) == bit_at(b, 4));
    assert(bit_at(a, 5) == bit_at(b, 5));
    assert(bit_at(a, 6) == bit_at(b, 6));
    assert(bit_at(a, 7) == bit_at(b, 7));
    assert(a == b) by (bit_vector)
        requires
            low_bit(a, 7) == low_bit(b, 7),
            low_bit(a, 6) == low_bit(b, 6),
            low_bit(a, 5) == low_bit(b, 5),
            low_bit(a, 4) == low_bit(b, 4),
            low_bit(a, 3) == low_bit(b, 3),
            low_bit(a, 2) == low_bit(b, 2),
            low_bit(a, 1) == low_bit(b, 1),
            low_bit(a, 0) == low_bit(b, 0),
    ;
}

/// Two byte sequences with the same bits are the same bytes: reading every
/// bit of a buffer and writing them in order into a buffer of the same length
/// reproduces the buffer.
pub proof fn lemma_bits_determine_bytes(a: Seq<u8>, b: Seq<u8>)
    requires
        bits_of(a) =~= bits_of(b),
    ensures
        a =~= b,
{
    assert(bits_of(a).len() == 8 * a.len());
    assert(bits_of(b).len() == 8 * b.len());
    assert(a.len() == b.len());
    assert forall|k: int| 0 <= k < a.len() implies a[k] == b[k] by {
        assert forall|i: int| 0 <= i < 8 implies bit_at(a[k], i) == bit_at(b[k], i) by {
            let j = 8 * k + i;
            assert(j / 8 == k && j % 8 == i);
            assert(bits_of(a)[j] == bit_at(a[k], i));
            assert(bits_of(b)[j] == bit_at(b[k], i));
        }
        lemma_byte_from_bits(a[k], b[k]);
    }
}

/// A bit as a number.
pub open spec fn bit_value(bit: bool) -> nat {
    if bit {
        1
    } else {
        0
    }
}

/// The `n` lowest bits of `x`, most significant first.
pub open spec fn be_bits(x: nat, n: nat) -> Seq<bool> {
    Seq::new(n, |i: int| (x / pow2((n - 1 - i) as nat)) % 2 == 1)
}

/// `stream` with the bits from `at` on replaced by `word`.
pub open spec fn overwrite(stream: Seq<bool>, at: int, word: Seq<bool>) -> Seq<bool> {
    stream.take(at) + word + stream.skip(at + word.len())
}

/// Appending a bit doubles the value and adds the bit.
pub proof fn lemma_be_value_push(bits: Seq<bool>, bit: bool)
    ensures
        be_value(bits.push(bit)) == 2 * be_value(bits) + bit_value(bit),
{
    assert(bits.push(bit).drop_last() =~= bits);
}

/// `n` bits spell a number below `2^n`.
pub proof fn lemma_be_value_bound(bits: Seq<bool>)
    ensures
        be_value(bits) < pow2(bits.len()),
    decreases bits.len(),
{
    if bits.len() == 0 {
        lemma2_to64();
    } else {
        lemma_be_value_bound(bits.drop_last());
        lemma_pow2_unfold(bits.len());
    }
}

/// The first `m` of the `n` bits of `x` spell `x` without its `n - m` lowest bits.
pub proof fn lemma_be_bits_prefix(x: nat, n: nat, m: nat)
    requires
        m <= n,
        x < pow2(n),
    ensures
        be_value(be_bits(x, n).take(m as int)) == x / pow2((n - m) as nat),
    decreases m,
{
    if m == 0 {
        lemma_basic_div(x as int, pow2(n) as int);
    } else {
        let shorter = be_bits(x, n).take(m - 1);
        let longer = be_bits(x, n).take(m as int);
        lemma_be_bits_prefix(x, n, (m - 1) as nat);
        assert(longer.drop_last() =~= shorter);
        let e = (n - m) as nat;
        assert(longer.last() == ((x / pow2(e)) % 2 == 1));
        lemma_pow2_unfold(e + 1);
        lemma_pow2_pos(e);
        lemma_div_denominator(x as int, pow2(e) as int, 2);
        assert(pow2(e) * 2 == pow2(e + 1));
    }
}

/// All `n` bits of `x` spell `x`.
pub proof fn lemma_be_bits_value(x: nat, n: nat)
    requires
        x < pow2(n),
    ensures
        be_value(be_bits(x, n)) == x,
{
    lemma_be_bits_prefix(x, n, n);
    assert(be_bits(x, n).take(n as int) =~= be_bits(x, n));
    lemma2_to64();
}

/// The length of the run of ones at the front, from where it ends.
pub proof fn lemma_leading_ones(bits: Seq<bool>, k: nat)
    requires
        k <= bits.len(),
        forall|i: int| 0 <= i < k ==> bits[i],
        k == bits.len() || !bits[k as int],
    ensures
        leading_ones(bits) == k,
    decreases k,
{
    if k > 0 {
        lemma_leading_ones(bits.skip(1), (k - 1) as nat);
    }
}

/// Placing one more bit behind a word that was placed at `at`.
pub proof fn lemma_overwrite_push(stream: Seq<bool>, at: int, word: Seq<bool>, bit: bool)
    requires
        0 <= at,
        at + word.len() < stream.len(),
    ensures
        overwrite(stream, at, word).update(at + word.len(), bit) =~= overwrite(
            stream,
            at,
            word.push(bit),
        ),
        overwrite(stream, at, word).len() == stream.len(),
{
}

/// Placing nothing changes nothing.
pub proof fn lemma_overwrite_empty(stream: Seq<bool>, at: int)
    requires
        0 <= at <= stream.len(),
    ensures
        overwrite(stream, at, Seq::<bool>::empty()) =~= stream,
{
}

/// Placing two words one behind the other places their concatenation.
pub proof fn lemma_overwrite_concat(stream: Seq<bool>, at: int, head: Seq<bool>, tail: Seq<bool>)
    requires
        0 <= at,
        at + head.len() + tail.len() <= stream.len(),
    ensures
        overwrite(overwrite(stream, at, head), at + head.len(), tail) =~= overwrite(
            stream,
            at,
            head + tail,
        ),
{
}

/// Byte `index` of the `count` low bytes of `word`, most significant first.
pub open spec fn be_byte(word: u64, count: nat, index: int) -> u8 {
    ((word >> ((8 * (count - 1 - index)) as u64)) & 0xff) as u8
}

/// The bits of a byte cut out of a word are bits of the word.
pub proof fn lemma_byte_of_word(word: u64, shift: u64, byte: u8)
    requires
        shift <= 56,
        byte == ((word >> shift) & 0xff) as u8,
    ensures
        forall|j: u8|
            j < 8 ==> #[trigger] low_bit(byte, j) == ((word as nat / pow2((shift + j) as nat)) % 2
                == 1),
{
    assert forall|j: u8| j < 8 implies #[trigger] low_bit(byte, j) == ((word as nat / pow2(
        (shift + j) as nat,
    )) % 2 == 1) by {
        let e = (shift + j) as u64;
        assert(low_bit(byte, j) == ((word >> e) % 2 == 1)) by (bit_vector)
            requires
                byte == ((word >> shift) & 0xff) as u8,
                e == shift + j,
                j < 8,
                shift <= 56,
        ;
        vstd::bits::lemma_u64_shr_is_div(word, e);
    }
}

/// Bytes that are the low bytes of a word, most significant first, hold the
/// low bits of the word, most significant first.
pub proof fn lemma_bytes_of_word(word: u64, bytes: Seq<u8>)
    requires
        bytes.len() <= 8,
        forall|m: int| 0 <= m < bytes.len() ==> #[trigger] bytes[m] == be_byte(word, bytes.len(), m),
    ensures
        bits_of(bytes) =~= be_bits(word as nat, 8 * bytes.len()),
{
    let count = bytes.len();
    assert forall|i: int| 0 <= i < 8 * count implies #[trigger] bits_of(bytes)[i] == be_bits(
        word as nat,
        8 * count,
    )[i] by {
        let m = i / 8;
        let shift = (8 * (count - 1 - m)) as u64;
        let j = (7 - i % 8) as u8;
        assert(bytes[m] == be_byte(word, count, m));
        lemma_byte_of_word(word, shift, bytes[m]);
        assert(low_bit(bytes[m], j) == ((word as nat / pow2((shift + j) as nat)) % 2 == 1));
        assert(shift + j == 8 * count - 1 - i);
    }
}

/// How many bits equal to `bit` stand at the front of `bits`.
pub open spec fn leading_run(bits: Seq<bool>, bit: bool) -> nat
    decreases bits.len(),
{
    if bits.len() == 0 || bits[0] != bit {
        0
    } else {
        1 + leading_run(bits.skip(1), bit)
    }
}

/// How many bits equal to `bit` stand at the end of `bits`.
pub open spec fn trailing_run(bits: Seq<bool>, bit: bool) -> nat
    decreases bits.len(),
{
    if bits.len() == 0 || bits.last() != bit {
        0
    } else {
        1 + trailing_run(bits.drop_last(), bit)
    }
}

/// The length of the run at the front, from where it ends.
pub proof fn lemma_leading_run(bits: Seq<bool>, bit: bool, k: nat)
    requires
        k <= bits.len(),
        forall|i: int| 0 <= i < k ==> bits[i] == bit,
        k == bits.len() || bits[k as int] != bit,
    ensures
        leading_run(bits, bit) == k,
    decreases k,
{
    if k > 0 {
        lemma_leading_run(bits.skip(1), bit, (k - 1) as nat);
    }
}

/// The length of the run at the end, from where it begins.
pub proof fn lemma_trailing_run(bits: Seq<bool>, bit: bool, k: nat)
    requires
        k <= bits.len(),
        forall|i: int| bits.len() - k <= i < bits.len() ==> bits[i] == bit,
        k == bits.len() || bits[bits.len() - 1 - k] != bit,
    ensures
        trailing_run(bits, bit) == k,
    decreases k,
{
    if k > 0 {
        lemma_trailing_run(bits.drop_last(), bit, (k - 1) as nat);
    }
}

/// Sequences of equal length that spell the same number are the same.
pub proof fn lemma_be_value_injective(a: Seq<bool>, b: Seq<bool>)
    requires
        a.len() == b.len(),
        be_value(a) == be_value(b),
    ensures
        a =~= b,
    decreases a.len(),
{
    if a.len() > 0 {
        lemma_be_value_injective(a.drop_last(), b.drop_last());
        assert(a =~= a.drop_last().push(a.last()));
        assert(b =~= b.drop_last().push(b.last()));
    }
}

/// The last `len` bits of a byte whose other bits are clear spell the byte.
pub proof fn lemma_low_bits_value(byte: u8, len: nat)
    requires
        len <= 8,
        forall|i: int| 0 <= i < 8 - len ==> !bit_at(byte, i),
    ensures
        be_value(Seq::new(len, |i: int| bit_at(byte, 8 - len + i))) == byte,
    decreases len,
{
    lemma_bitwise_bits();
    lemma_shift_bits();
    let bits = Seq::new(len, |i: int| bit_at(byte, 8 - len + i));
    if len == 0 {
        assert forall|i: int| 0 <= i < 8 implies bit_at(byte, i) == bit_at(0u8, i) by {
            assert(!low_bit(0u8, (7 - i) as u8));
        }
        lemma_byte_from_bits(byte, 0u8);
    } else {
        let half = byte >> 1u8;
        let shorter = (len - 1) as nat;
        assert forall|i: int| 0 <= i < 8 implies bit_at(half, i) == (i >= 1 && bit_at(
            byte,
            i - 1,
        )) by {
            let j = (7 - i) as u8;
            assert(low_bit(byte >> 1u8, j) == (j + 1u8 < 8 && low_bit(byte, (j + 1u8) as u8)));
        }
        lemma_low_bits_value(half, shorter);
        assert(bits.drop_last() =~= Seq::new(shorter, |i: int| bit_at(half, 8 - shorter + i)));
        assert(bits.last() == low_bit(byte, 0));
        assert(byte == 2 * (byte >> 1u8) + (byte & 1u8));
        assert(byte >> 0u8 == byte) by (bit_vector);
    }
}

/// The bits of the number that a sequence spells are the sequence.
pub proof fn lemma_be_bits_of_value(bits: Seq<bool>)
    ensures
        be_bits(be_value(bits), bits.len()) =~= bits,
{
    lemma_be_value_bound(bits);
    lemma_be_bits_value(be_value(bits), bits.len());
    lemma_be_value_injective(be_bits(be_value(bits), bits.len()), bits);
}

/// Every bit of the run at the front is the bit of the run, and the bit
/// behind the run is the other one.
pub proof fn lemma_leading_run_facts(bits: Seq<bool>, bit: bool)
    ensures
        leading_run(bits, bit) <= bits.len(),
        forall|i: int| 0 <= i < leading_run(bits, bit) ==> bits[i] == bit,
        leading_run(bits, bit) < bits.len() ==> bits[leading_run(bits, bit) as int] != bit,
    decreases bits.len(),
{
    if bits.len() > 0 && bits[0] == bit {
        lemma_leading_run_facts(bits.skip(1), bit);
        assert forall|i: int| 0 <= i < leading_run(bits, bit) implies bits[i] == bit by {
            if i > 0 {
                assert(bits.skip(1)[i - 1] == bit);
            }
        }
    }
}

} // verus!
