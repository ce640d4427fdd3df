//! The bit-level model of a byte stream.
//!
//! A byte sequence is read as one long sequence of bits: byte by byte, and
//! inside each byte from the least significant bit upwards. Everything the
//! transcoders and the packer promise is stated over such bit sequences.

use vstd::prelude::*;

verus! {

/// Bit `k` of `x`, counting from the least significant bit.
pub open spec fn bit_of(x: u16, k: u16) -> bool {
    (x >> k) & 1 == 1
}

/// The number a bit stands for: one if it is set, zero if it is clear.
pub open spec fn weight(b: bool) -> int {
    if b {
        1
    } else {
        0
    }
}

/// The `n` low bits of `x`, lowest first.
pub open spec fn low_bits(x: u16, n: nat) -> Seq<bool> {
    Seq::new(n, |k: int| bit_of(x, k as u16))
}

/// The bits of a byte sequence in stream order: bit `k` of the stream is
/// bit `k % 8` of byte `k / 8`.
pub open spec fn stream_bits(bytes: Seq<u8>) -> Seq<bool> {
    Seq::new((8 * bytes.len()) as nat, |k: int| bit_of(bytes[k / 8] as u16, (k % 8) as u16))
}

/// Bit `k` of a bit sequence. Every position outside the sequence reads as a
/// clear bit, which is how a short last group gets its zero padding.
pub open spec fn bit_at(bits: Seq<bool>, k: int) -> bool {
    0 <= k < bits.len() && bits[k]
}

/// The byte whose bits, lowest first, are the first eight of `bits`.
pub open spec fn byte_of(bits: Seq<bool>) -> u8 {
    (weight(bit_at(bits, 0)) + 2 * weight(bit_at(bits, 1)) + 4 * weight(bit_at(bits, 2)) + 8
        * weight(bit_at(bits, 3)) + 16 * weight(bit_at(bits, 4)) + 32 * weight(bit_at(bits, 5))
        + 64 * weight(bit_at(bits, 6)) + 128 * weight(bit_at(bits, 7))) as u8
}

/// The bytes spelled by a bit sequence, eight bits to a byte; bits past the
/// last full byte are left out.
pub open spec fn bytes_of(bits: Seq<bool>) -> Seq<u8> {
    Seq::new(bits.len() / 8, |j: int| byte_of(bits.subrange(8 * j, 8 * j + 8)))
}

/// Bit `k` of `low | (high << n)` comes from `low` below position `n` and
/// from `high` above it, provided `low` has no bit at or above `n`.
pub(crate) proof fn lemma_merged_bit(low: u16, high: u16, n: u16, k: u16)
    by (bit_vector)
    requires
        n <= 7,
        low >> n == 0,
        high < 256,
        k < 16,
    ensures
        bit_of(low | (high << n), k) == (if k < n {
            bit_of(low, k)
        } else {
            bit_of(high, (k - n) as u16)
        }),
{
}

/// Merging eight more bits above `n` buffered ones leaves nothing at or
/// above position `n + 8`.
pub(crate) proof fn lemma_merged_bound(low: u16, high: u16, n: u16)
    by (bit_vector)
    requires
        n <= 7,
        low >> n == 0,
        high < 256,
    ensures
        (low | (high << n)) >> ((n + 8) as u16) == 0,
        (low | (high << n)) < 0x8000,
{
}

/// Merging a three-bit symbol above `n` buffered bits leaves nothing at or
/// above position `n + 3`.
pub(crate) proof fn lemma_merged_symbol_bound(low: u16, high: u16, n: u16)
    by (bit_vector)
    requires
        n <= 7,
        low >> n == 0,
        high < 8,
    ensures
        (low | (high << n)) >> ((n + 3) as u16) == 0,
{
}

/// Shifting right by `w` moves bit `k + w` down to position `k`.
pub(crate) proof fn lemma_shifted_bit(x: u16, w: u16, k: u16)
    by (bit_vector)
    requires
        w <= 8,
        k < 8,
    ensures
        bit_of(x >> w, k) == bit_of(x, (k + w) as u16),
{
}

/// Shifting `w` bits out of a value of at most `n` bits leaves at most
/// `n - w` bits, and the result fits in a byte when `n - w` is at most eight.
pub(crate) proof fn lemma_shifted_bound(x: u16, n: u16, w: u16)
    by (bit_vector)
    requires
        w <= n,
        n <= 15,
        n - w <= 8,
        x >> n == 0,
    ensures
        (x >> w) >> ((n - w) as u16) == 0,
        (x >> w) < 256,
{
}

/// A value with no bit at or above position `n` has every such bit clear.
pub(crate) proof fn lemma_high_bits_clear(x: u16, n: u16, k: u16)
    by (bit_vector)
    requires
        x >> n == 0,
        n <= k,
        k < 16,
    ensures
        !bit_of(x, k),
{
}

/// The low three bits of `x` as a number.
pub(crate) proof fn lemma_low_three(x: u16)
    by (bit_vector)
    ensures
        x & 7 == (if bit_of(x, 0) {
            1u16
        } else {
            0u16
        }) + (if bit_of(x, 1) {
            2u16
        } else {
            0u16
        }) + (if bit_of(x, 2) {
            4u16
        } else {
            0u16
        }),
{
}

/// The low eight bits of `x` as a number.
pub(crate) proof fn lemma_low_eight(x: u16)
    by (bit_vector)
    ensures
        x & 0xff == (if bit_of(x, 0) {
            1u16
        } else {
            0u16
        }) + (if bit_of(x, 1) {
            2u16
        } else {
            0u16
        }) + (if bit_of(x, 2) {
            4u16
        } else {
            0u16
        }) + (if bit_of(x, 3) {
            8u16
        } else {
            0u16
        }) + (if bit_of(x, 4) {
            16u16
        } else {
            0u16
        }) + (if bit_of(x, 5) {
            32u16
        } else {
            0u16
        }) + (if bit_of(x, 6) {
            64u16
        } else {
            0u16
        }) + (if bit_of(x, 7) {
            128u16
        } else {
            0u16
        }),
{
}

/// A value below 256 is the whole of its low eight bits, and one with no
/// bit at or above position three is the whole of its low three.
pub(crate) proof fn lemma_small_values(x: u16)
    by (bit_vector)
    ensures
        x < 256 ==> x & 0xff == x,
        x >> 3 == 0 ==> x & 7 == x,
        x >> 3 == 0 <==> x < 8,
        x >> 0 == 0 <==> x == 0,
{
}

/// The bits of a byte by division: bit `k` is set where the byte, divided
/// by two `k` times, is odd.
pub proof fn lemma_byte_bits(b: u8)
    ensures
        bit_of(b as u16, 0) == (b % 2 == 1),
        bit_of(b as u16, 1) == ((b / 2) % 2 == 1),
        bit_of(b as u16, 2) == ((b / 4) % 2 == 1),
        bit_of(b as u16, 3) == ((b / 8) % 2 == 1),
        bit_of(b as u16, 4) == ((b / 16) % 2 == 1),
        bit_of(b as u16, 5) == ((b / 32) % 2 == 1),
        bit_of(b as u16, 6) == ((b / 64) % 2 == 1),
        bit_of(b as u16, 7) == ((b / 128) % 2 == 1),
{
    let x = b as u16;
    assert(bit_of(x, 0) == (x % 2 == 1) && bit_of(x, 1) == ((x / 2) % 2 == 1) && bit_of(x, 2) == ((
    x / 4) % 2 == 1) && bit_of(x, 3) == ((x / 8) % 2 == 1) && bit_of(x, 4) == ((x / 16) % 2 == 1)
        && bit_of(x, 5) == ((x / 32) % 2 == 1) && bit_of(x, 6) == ((x / 64) % 2 == 1) && bit_of(
        x,
        7,
    ) == ((x / 128) % 2 == 1)) by (bit_vector);
}

/// A byte is spelled back by its own eight bits.
pub proof fn lemma_byte_of_low_bits(b: u8)
    ensures
        byte_of(low_bits(b as u16, 8)) == b,
{
    lemma_low_eight(b as u16);
    lemma_small_values(b as u16);
}

/// The bits of a byte sequence spell that byte sequence.
pub proof fn lemma_bytes_of_stream_bits(bytes: Seq<u8>)
    ensures
        bytes_of(stream_bits(bytes)) == bytes,
{
    let s = stream_bits(bytes);
    assert forall|j: int| 0 <= j < bytes.len() implies bytes_of(s)[j] == bytes[j] by {
        let window = s.subrange(8 * j, 8 * j + 8);
        assert forall|k: int| 0 <= k < 8 implies window[k] == low_bits(bytes[j] as u16, 8)[k] by {
            assert((8 * j + k) / 8 == j);
            assert((8 * j + k) % 8 == k);
        }
        assert(window =~= low_bits(bytes[j] as u16, 8));
        lemma_byte_of_low_bits(bytes[j]);
    }
    assert(bytes_of(s) =~= bytes);
}

} // verus!
