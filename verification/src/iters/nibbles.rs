//! Splitting a byte stream into four-bit symbols.

use crate::bits::{bit_at, bit_of, stream_bits, weight};
use crate::source::ByteSource;
use vstd::prelude::*;

verus! {

/// The four-bit symbols of a byte sequence: the low half of each byte,
/// followed by its high half.
pub open spec fn nibbles_of(bytes: Seq<u8>) -> Seq<u8> {
    Seq::new(
        (2 * bytes.len()) as nat,
        |i: int|
            if i % 2 == 0 {
                bytes[i / 2] % 16
            } else {
                bytes[i / 2] / 16
            },
    )
}

/// Symbol `i` of a bit sequence cut into groups of four: the value of bits
/// `4 * i` to `4 * i + 3`, the first of them weighing least.
pub open spec fn nibble_at(bits: Seq<bool>, i: int) -> int {
    weight(bit_at(bits, 4 * i)) + 2 * weight(bit_at(bits, 4 * i + 1)) + 4 * weight(
        bit_at(bits, 4 * i + 2),
    ) + 8 * weight(bit_at(bits, 4 * i + 3))
}

/// One step of the transcoder on the symbols `buffered` and the bytes
/// `unread`: the symbol that comes out, the symbols that stay buffered, and
/// the bytes that stay unread.
///
/// A byte is taken from `unread` only when nothing is buffered; its low half
/// comes out at once, and its high half waits for the next step.
pub open spec fn nibble_step(buffered: Seq<u8>, unread: Seq<u8>) -> (
    Option<u8>,
    Seq<u8>,
    Seq<u8>,
) {
    if buffered.len() > 0 {
        (Some(buffered[0]), buffered.skip(1), unread)
    } else if unread.len() > 0 {
        (Some(unread[0] % 16), seq![unread[0] / 16], unread.skip(1))
    } else {
        (None, buffered, unread)
    }
}

/// Width conservation: `n` bytes give `2 * n` symbols, and every symbol is
/// below sixteen.
pub proof fn lemma_nibble_count(bytes: Seq<u8>)
    ensures
        nibbles_of(bytes).len() == 2 * bytes.len(),
        forall|i: int| 0 <= i < nibbles_of(bytes).len() ==> #[trigger] nibbles_of(bytes)[i] < 16,
{
}

/// The halves of the bytes are the four-bit groups of the bit stream:
/// symbol `i` is made of bits `4 * i` to `4 * i + 3` of the stream.
pub proof fn lemma_nibbles_are_bit_groups(bytes: Seq<u8>, i: int)
    requires
        0 <= i < 2 * bytes.len(),
    ensures
        nibbles_of(bytes)[i] == nibble_at(stream_bits(bytes), i),
{
    let b = bytes[i / 2] as u16;
    let bits = stream_bits(bytes);
    lemma_halves(b);
    if i % 2 == 0 {
        assert((4 * i) / 8 == i / 2 && (4 * i) % 8 == 0);
        assert((4 * i + 1) / 8 == i / 2 && (4 * i + 1) % 8 == 1);
        assert((4 * i + 2) / 8 == i / 2 && (4 * i + 2) % 8 == 2);
        assert((4 * i + 3) / 8 == i / 2 && (4 * i + 3) % 8 == 3);
        assert(bit_at(bits, 4 * i) == bit_of(b, 0));
        assert(bit_at(bits, 4 * i + 1) == bit_of(b, 1));
        assert(bit_at(bits, 4 * i + 2) == bit_of(b, 2));
        assert(bit_at(bits, 4 * i + 3) == bit_of(b, 3));
    } else {
        assert((4 * i) / 8 == i / 2 && (4 * i) % 8 == 4);
        assert((4 * i + 1) / 8 == i / 2 && (4 * i + 1) % 8 == 5);
        assert((4 * i + 2) / 8 == i / 2 && (4 * i + 2) % 8 == 6);
        assert((4 * i + 3) / 8 == i / 2 && (4 * i + 3) % 8 == 7);
        assert(bit_at(bits, 4 * i) == bit_of(b, 4));
        assert(bit_at(bits, 4 * i + 1) == bit_of(b, 5));
        assert(bit_at(bits, 4 * i + 2) == bit_of(b, 6));
        assert(bit_at(bits, 4 * i + 3) == bit_of(b, 7));
    }
}

/// The two halves of a byte, by their bits and by mask and shift.
proof fn lemma_halves(b: u16)
    by (bit_vector)
    requires
        b < 256,
    ensures
        b & 15 == b % 16,
        b >> 4 == b / 16,
        b >> 4 < 16,
        (b >> 4) >> 4 == 0,
        0u16 | (b << 0u16) == b,
        b % 16 == (if bit_of(b, 0) {
            1u16
        } else {
            0u16
        }) + (if bit_of(b, 1) {
            2u16
        } else {
            0u16
        }) + (if bit_of(b, 2) {
            4u16
        } else {
            0u16
        }) + (if bit_of(b, 3) {
            8u16
        } else {
            0u16
        }),
        b / 16 == (if bit_of(b, 4) {
            1u16
        } else {
            0u16
        }) + (if bit_of(b, 5) {
            2u16
        } else {
            0u16
        }) + (if bit_of(b, 6) {
            4u16
        } else {
            0u16
        }) + (if bit_of(b, 7) {
            8u16
        } else {
            0u16
        }),
{
}

/// A value below sixteen is its own low half and has an empty high half.
proof fn lemma_low_half(x: u16)
    by (bit_vector)
    requires
        x < 16,
    ensures
        x & 15 == x,
        x >> 4 == 0,
{
}

/// Splits the bytes of a source into four-bit symbols, low half first.
///
/// Every byte gives exactly two symbols, so the buffer holds either nothing
/// or the high half of the byte pulled last.
pub struct Nibbles<S: ByteSource> {
    byte_iter: S,
    remainder: u8,
    bits_left: u8,
}

impl<S: ByteSource> Nibbles<S> {
    /// The symbols that wait in the buffer: none, or one.
    pub closed spec fn buffered(&self) -> Seq<u8> {
        if self.bits_left == 4 {
            seq![self.remainder]
        } else {
            Seq::empty()
        }
    }

    /// The bytes that have not been pulled from the source yet.
    pub closed spec fn unread(&self) -> Seq<u8> {
        self.byte_iter.remaining()
    }

    /// The buffer holds no bits and is clear, or holds the four bits of one
    /// symbol.
    pub closed spec fn wf(&self) -> bool {
        ||| self.bits_left == 0 && self.remainder == 0
        ||| self.bits_left == 4 && self.remainder < 16
    }

    /// A transcoder over the bytes of `iter`. It pulls nothing yet.
    pub fn new(iter: S) -> (r: Self)
        ensures
            r.wf(),
            r.buffered() == Seq::<u8>::empty(),
            r.unread() == iter.remaining(),
            r@ == nibbles_of(iter.remaining()),
    {
        let r = Nibbles { byte_iter: iter, remainder: 0, bits_left: 0 };
        assert(r@ =~= nibbles_of(iter.remaining()));
        r
    }

    /// Hands out the next symbol, or `None` once the source is exhausted and
    /// both halves of its last byte have been handed out.
    pub fn next(&mut self) -> (r: Option<u8>)
        requires
            old(self).wf(),
        ensures
            final(self).wf(),
            old(self)@.len() == 0 ==> r is None && final(self)@ == old(self)@,
            old(self)@.len() > 0 ==> r == Some(old(self)@[0]) && final(self)@ == old(self)@.skip(1),
            r is Some ==> r->0 < 16,
            final(self).buffered().len() <= 1,
            (r, final(self).buffered(), final(self).unread()) == nibble_step(
                old(self).buffered(),
                old(self).unread(),
            ),
    {
        let ghost buffered = self.buffered();
        let ghost unread = self.unread();
        proof {
            lemma_nibble_step(buffered, unread);
        }
        let mut quire: u16 = self.remainder as u16;
        if self.bits_left < 4 {
            match self.byte_iter.next_byte() {
                Some(b) => {
                    proof {
                        lemma_halves(b as u16);
                    }
                    quire = quire | ((b as u16) << self.bits_left);
                    self.bits_left = self.bits_left + 8;
                },
                None => {
                    return None;
                },
            }
        } else {
            proof {
                lemma_low_half(quire);
            }
        }
        self.remainder = (quire >> 4) as u8;
        self.bits_left = self.bits_left - 4;
        proof {
            assert(self.buffered() =~= nibble_step(buffered, unread).1);
        }
        Some((quire & 15) as u8)
    }

    /// Runs the transcoder dry and returns every symbol it had left, in order.
    pub fn collect(self) -> (symbols: Vec<u8>)
        requires
            self.wf(),
        ensures
            symbols@ == self@,
    {
        let mut rest = self;
        let mut symbols: Vec<u8> = Vec::new();
        loop
            invariant
                rest.wf(),
                symbols@ + rest@ == self@,
            ensures
                symbols@ == self@,
            decreases rest@.len(),
        {
            let ghost before = rest@;
            match rest.next() {
                Some(s) => {
                    symbols.push(s);
                    assert(symbols@ + rest@ =~= symbols@.drop_last() + before);
                },
                None => {
                    assert(symbols@ + rest@ =~= symbols@);
                    break ;
                },
            }
        }
        symbols
    }
}

impl<S: ByteSource> View for Nibbles<S> {
    type V = Seq<u8>;

    /// The symbols not handed out yet, in the order they will come: the
    /// buffered one, if there is one, followed by those of the unread bytes.
    open spec fn view(&self) -> Seq<u8> {
        self.buffered() + nibbles_of(self.unread())
    }
}

/// What a step does to the symbols still to come: it hands out the first of
/// them and leaves the others, or hands out nothing when none is left.
pub proof fn lemma_nibble_step(buffered: Seq<u8>, unread: Seq<u8>)
    requires
        buffered.len() <= 1,
    ensures
        ({
            let (symbol, kept, left) = nibble_step(buffered, unread);
            let before = buffered + nibbles_of(unread);
            let after = kept + nibbles_of(left);
            &&& kept.len() <= 1
            &&& before.len() == 0 ==> symbol is None && after == before
            &&& before.len() > 0 ==> symbol == Some(before[0]) && after == before.skip(1)
        }),
{
    let (symbol, kept, left) = nibble_step(buffered, unread);
    let before = buffered + nibbles_of(unread);
    let after = kept + nibbles_of(left);
    if buffered.len() > 0 {
        assert(after =~= before.skip(1));
    } else if unread.len() > 0 {
        lemma_nibbles_skip(unread);
        assert(after =~= before.skip(1));
    } else {
        assert(after =~= before);
    }
}

/// The symbols of a byte sequence are the two halves of its first byte,
/// followed by the symbols of the bytes after it.
proof fn lemma_nibbles_skip(bytes: Seq<u8>)
    requires
        bytes.len() > 0,
    ensures
        nibbles_of(bytes) == seq![bytes[0] % 16, bytes[0] / 16] + nibbles_of(bytes.skip(1)),
{
    let whole = nibbles_of(bytes);
    let split = seq![bytes[0] % 16, bytes[0] / 16] + nibbles_of(bytes.skip(1));
    assert forall|i: int| 0 <= i < whole.len() implies whole[i] == split[i] by {
        if i >= 2 {
            assert((i - 2) / 2 == i / 2 - 1);
            assert((i - 2) % 2 == i % 2);
        }
    }
    assert(whole =~= split);
}

} // verus!
