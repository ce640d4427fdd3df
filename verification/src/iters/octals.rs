//! Splitting a byte stream into three-bit symbols, and packing them back.
//!
//! The symbols of a byte sequence are the groups of three of its bit stream
//! ([`octal_digits`]). [`Octals`] hands them out one by one while it pulls
//! bytes from a source; [`OctalPrinter`] takes them in one by one and hands
//! the bytes back ([`lemma_round_trip`]).

use crate::bits::{
    bit_at, bit_of, byte_of, bytes_of, lemma_bytes_of_stream_bits, lemma_high_bits_clear,
    lemma_low_eight, lemma_low_three, lemma_merged_bit, lemma_merged_bound,
    lemma_merged_symbol_bound, lemma_shifted_bit, lemma_shifted_bound, lemma_small_values,
    low_bits, stream_bits, weight,
};
use crate::source::ByteSource;
use vstd::prelude::*;

verus! {

/// Symbol `i` of a bit sequence: the value of bits `3 * i`, `3 * i + 1` and
/// `3 * i + 2`, the first of them weighing least.
pub open spec fn octal_at(bits: Seq<bool>, i: int) -> u8 {
    (weight(bit_at(bits, 3 * i)) + 2 * weight(bit_at(bits, 3 * i + 1)) + 4 * weight(
        bit_at(bits, 3 * i + 2),
    )) as u8
}

/// A bit sequence cut into three-bit symbols. A last group of one or two
/// bits is filled up with clear bits.
pub open spec fn octals_of(bits: Seq<bool>) -> Seq<u8> {
    Seq::new(((bits.len() + 2) / 3) as nat, |i: int| octal_at(bits, i))
}

/// The three-bit symbols of a byte sequence.
///
/// [`crate::bits::lemma_byte_bits`] reads the bits of a given byte by
/// division, which is all it takes to work the symbols of given bytes out.
pub open spec fn octal_digits(bytes: Seq<u8>) -> Seq<u8> {
    octals_of(stream_bits(bytes))
}

/// One step of the transcoder on the bits `buffered` and the bytes `unread`:
/// the symbol that comes out, the bits that stay buffered, and the bytes
/// that stay unread.
///
/// A byte is taken from `unread` only when fewer than three bits are
/// buffered. Once nothing is unread, one or two buffered bits come out as
/// one last symbol, filled up with clear bits.
pub open spec fn octal_step(buffered: Seq<bool>, unread: Seq<u8>) -> (
    Option<u8>,
    Seq<bool>,
    Seq<u8>,
) {
    if buffered.len() >= 3 {
        (Some(octal_at(buffered, 0)), buffered.skip(3), unread)
    } else if unread.len() > 0 {
        let more = buffered + stream_bits(unread.take(1));
        (Some(octal_at(more, 0)), more.skip(3), unread.skip(1))
    } else if buffered.len() > 0 {
        (Some(octal_at(buffered, 0)), Seq::empty(), unread)
    } else {
        (None, buffered, unread)
    }
}

/// The three bits of a symbol, lowest first.
pub open spec fn symbol_bits(symbol: u8) -> Seq<bool> {
    low_bits(symbol as u16, 3)
}

/// One step of the packer on the bits `buf`: the byte that comes out, if
/// the symbol brings the buffer up to eight bits, and the bits that stay
/// behind.
pub open spec fn pack_step(buf: Seq<bool>, symbol: u8) -> (Option<u8>, Seq<bool>) {
    let all = buf + symbol_bits(symbol);
    if all.len() >= 8 {
        (Some(byte_of(all.subrange(0, 8))), all.subrange(8, all.len() as int))
    } else {
        (None, all)
    }
}

/// The bytes that come out of a packer holding `buf` when `symbols` are fed
/// to it in order.
pub open spec fn pack_from(buf: Seq<bool>, symbols: Seq<u8>) -> Seq<u8>
    decreases symbols.len(),
{
    if symbols.len() == 0 {
        Seq::empty()
    } else {
        let (out, rest) = pack_step(buf, symbols[0]);
        match out {
            Some(b) => seq![b] + pack_from(rest, symbols.skip(1)),
            None => pack_from(rest, symbols.skip(1)),
        }
    }
}

/// The bytes that come out of a fresh packer fed with `symbols`.
pub open spec fn pack(symbols: Seq<u8>) -> Seq<u8> {
    pack_from(Seq::empty(), symbols)
}

/// Width conservation: `n` bytes give `8 * n / 3` symbols, rounded up. That
/// is the least number of groups of three that covers all `8 * n` bits.
pub proof fn lemma_octal_count(bytes: Seq<u8>)
    ensures
        octal_digits(bytes).len() == (8 * bytes.len() + 2) / 3,
        3 * octal_digits(bytes).len() >= 8 * bytes.len(),
        3 * octal_digits(bytes).len() < 8 * bytes.len() + 3,
        forall|i: int| 0 <= i < octal_digits(bytes).len() ==> #[trigger] octal_digits(bytes)[i] < 8,
{
}

/// Taking the first symbol off is the same as taking the first three bits off.
pub proof fn lemma_octals_skip(bits: Seq<bool>)
    requires
        bits.len() >= 3,
    ensures
        octals_of(bits.skip(3)) == octals_of(bits).skip(1),
{
    let rest = bits.skip(3);
    assert forall|i: int| 0 <= i < octals_of(rest).len() implies octals_of(rest)[i] == octals_of(
        bits,
    ).skip(1)[i] by {
        assert(bit_at(rest, 3 * i) == bit_at(bits, 3 * (i + 1)));
        assert(bit_at(rest, 3 * i + 1) == bit_at(bits, 3 * (i + 1) + 1));
        assert(bit_at(rest, 3 * i + 2) == bit_at(bits, 3 * (i + 1) + 2));
    }
    assert(octals_of(rest) =~= octals_of(bits).skip(1));
}

/// The bits of a byte sequence are the bits of its first byte, followed by
/// the bits of the bytes after it.
proof fn lemma_stream_bits_split(bytes: Seq<u8>)
    requires
        bytes.len() > 0,
    ensures
        stream_bits(bytes.take(1)) == low_bits(bytes[0] as u16, 8),
        stream_bits(bytes) == stream_bits(bytes.take(1)) + stream_bits(bytes.skip(1)),
{
    let whole = stream_bits(bytes);
    let split = stream_bits(bytes.take(1)) + stream_bits(bytes.skip(1));
    assert(stream_bits(bytes.take(1)) =~= low_bits(bytes[0] as u16, 8));
    assert forall|k: int| 0 <= k < whole.len() implies whole[k] == split[k] by {
        if k >= 8 {
            assert((k - 8) / 8 == k / 8 - 1);
            assert((k - 8) % 8 == k % 8);
        }
    }
    assert(whole =~= split);
}

/// What a step does to the symbols still to come: it hands out the first of
/// them and leaves the others, or hands out nothing when none is left.
pub proof fn lemma_octal_step(buffered: Seq<bool>, unread: Seq<u8>)
    requires
        buffered.len() <= 7,
    ensures
        ({
            let (symbol, kept, left) = octal_step(buffered, unread);
            let before = octals_of(buffered + stream_bits(unread));
            let after = octals_of(kept + stream_bits(left));
            &&& kept.len() <= 7
            &&& before.len() == 0 ==> symbol is None && after == before
            &&& before.len() > 0 ==> symbol == Some(before[0]) && after == before.skip(1)
        }),
{
    let (symbol, kept, left) = octal_step(buffered, unread);
    let bits = buffered + stream_bits(unread);
    if buffered.len() >= 3 {
        lemma_octals_skip(bits);
        assert(kept + stream_bits(left) =~= bits.skip(3));
    } else if unread.len() > 0 {
        lemma_stream_bits_split(unread);
        let more = buffered + stream_bits(unread.take(1));
        lemma_octals_skip(bits);
        assert(bits =~= more + stream_bits(left));
        assert(kept + stream_bits(left) =~= bits.skip(3));
    } else if buffered.len() > 0 {
        assert(bits =~= buffered);
        assert(kept + stream_bits(left) =~= Seq::<bool>::empty());
        assert(octals_of(bits).skip(1) =~= octals_of(Seq::<bool>::empty()));
    } else {
        assert(bits =~= Seq::<bool>::empty());
    }
}

/// The bits of the first symbol are the first three bits of the sequence.
proof fn lemma_first_symbol_bits(bits: Seq<bool>)
    requires
        bits.len() >= 3,
    ensures
        symbol_bits(octal_at(bits, 0)) == bits.subrange(0, 3),
{
    lemma_symbol_values();
    assert(symbol_bits(octal_at(bits, 0)) =~= bits.subrange(0, 3));
}

/// A last symbol made of one or two bits begins with those bits.
proof fn lemma_padded_symbol_bits(bits: Seq<bool>)
    requires
        0 < bits.len() < 3,
    ensures
        symbol_bits(octal_at(bits, 0)).subrange(0, bits.len() as int) == bits,
{
    lemma_symbol_values();
    assert(symbol_bits(octal_at(bits, 0)).subrange(0, bits.len() as int) =~= bits);
}

/// The bits of each of the eight symbols.
proof fn lemma_symbol_values()
    ensures
        !bit_of(0u16, 0) && !bit_of(0u16, 1) && !bit_of(0u16, 2),
        bit_of(1u16, 0) && !bit_of(1u16, 1) && !bit_of(1u16, 2),
        !bit_of(2u16, 0) && bit_of(2u16, 1) && !bit_of(2u16, 2),
        bit_of(3u16, 0) && bit_of(3u16, 1) && !bit_of(3u16, 2),
        !bit_of(4u16, 0) && !bit_of(4u16, 1) && bit_of(4u16, 2),
        bit_of(5u16, 0) && !bit_of(5u16, 1) && bit_of(5u16, 2),
        !bit_of(6u16, 0) && bit_of(6u16, 1) && bit_of(6u16, 2),
        bit_of(7u16, 0) && bit_of(7u16, 1) && bit_of(7u16, 2),
{
    assert(!bit_of(0u16, 0) && !bit_of(0u16, 1) && !bit_of(0u16, 2) && bit_of(1u16, 0) && !bit_of(
        1u16,
        1,
    ) && !bit_of(1u16, 2) && !bit_of(2u16, 0) && bit_of(2u16, 1) && !bit_of(2u16, 2) && bit_of(
        3u16,
        0,
    ) && bit_of(3u16, 1) && !bit_of(3u16, 2)) by (bit_vector);
    assert(!bit_of(4u16, 0) && !bit_of(4u16, 1) && bit_of(4u16, 2) && bit_of(5u16, 0) && !bit_of(
        5u16,
        1,
    ) && bit_of(5u16, 2) && !bit_of(6u16, 0) && bit_of(6u16, 1) && bit_of(6u16, 2) && bit_of(
        7u16,
        0,
    ) && bit_of(7u16, 1) && bit_of(7u16, 2)) by (bit_vector);
}

/// Packing the symbols of a bit sequence that, together with the bits
/// already buffered, makes up whole bytes gives exactly those bytes. The
/// clear bits that fill up a last symbol stay behind in the packer.
proof fn lemma_pack_symbols(buf: Seq<bool>, bits: Seq<bool>)
    requires
        buf.len() < 8,
        (buf.len() + bits.len()) % 8 == 0,
    ensures
        pack_from(buf, octals_of(bits)) == bytes_of(buf + bits),
    decreases bits.len(),
{
    let symbols = octals_of(bits);
    let whole = buf + bits;
    if bits.len() == 0 {
        assert(bytes_of(whole) =~= Seq::<u8>::empty());
    } else if bits.len() < 3 {
        lemma_padded_symbol_bits(bits);
        let all = buf + symbol_bits(symbols[0]);
        assert(all.subrange(0, 8) =~= whole);
        assert(whole.subrange(0, 8) =~= whole);
        assert(symbols.skip(1) =~= Seq::<u8>::empty());
        assert(bytes_of(whole) =~= seq![byte_of(whole)]);
        assert(pack_from(all.subrange(8, all.len() as int), symbols.skip(1)) =~= Seq::<u8>::empty());
    } else {
        lemma_first_symbol_bits(bits);
        lemma_octals_skip(bits);
        let all = buf + symbol_bits(symbols[0]);
        let later = bits.skip(3);
        assert(all =~= buf + bits.subrange(0, 3));
        if all.len() >= 8 {
            let kept = all.subrange(8, all.len() as int);
            lemma_pack_symbols(kept, later);
            assert(all.subrange(0, 8) =~= whole.subrange(0, 8));
            assert(kept + later =~= whole.skip(8));
            assert forall|j: int| 0 <= j < bytes_of(whole).len() - 1 implies bytes_of(
                whole.skip(8),
            )[j] == bytes_of(whole)[j + 1] by {
                assert(whole.skip(8).subrange(8 * j, 8 * j + 8) =~= whole.subrange(
                    8 * (j + 1),
                    8 * (j + 1) + 8,
                ));
            }
            assert(bytes_of(whole) =~= seq![byte_of(whole.subrange(0, 8))] + bytes_of(
                whole.skip(8),
            ));
        } else {
            lemma_pack_symbols(all, later);
            assert(all + later =~= whole);
        }
    }
}

/// Round trip: packing the symbols of a byte sequence gives the byte
/// sequence back, with no byte more and none less.
pub proof fn lemma_round_trip(bytes: Seq<u8>)
    ensures
        pack(octal_digits(bytes)) == bytes,
{
    let bits = stream_bits(bytes);
    lemma_pack_symbols(Seq::empty(), bits);
    assert(Seq::<bool>::empty() + bits =~= bits);
    lemma_bytes_of_stream_bits(bytes);
}

/// No two byte sequences have the same symbols.
pub proof fn lemma_octal_digits_injective(left: Seq<u8>, right: Seq<u8>)
    requires
        octal_digits(left) == octal_digits(right),
    ensures
        left == right,
{
    lemma_round_trip(left);
    lemma_round_trip(right);
}

/// Splits the bytes of a source into three-bit symbols, lowest bits first.
///
/// Symbols do not line up with bytes: up to seven bits wait in `remainder`
/// between two calls of [`Octals::next`], and a byte is pulled from the
/// source only when fewer than three are waiting.
pub struct Octals<S: ByteSource> {
    byte_iter: S,
    remainder: u8,
    bits_left: u8,
}

impl<S: ByteSource> Octals<S> {
    /// The bits that wait in the buffer, in stream order.
    pub closed spec fn buffered(&self) -> Seq<bool> {
        low_bits(self.remainder as u16, self.bits_left as nat)
    }

    /// The bytes that have not been pulled from the source yet.
    pub closed spec fn unread(&self) -> Seq<u8> {
        self.byte_iter.remaining()
    }

    /// `bits_left` counts exactly the valid low bits of `remainder`, and
    /// there are at most seven of them.
    pub closed spec fn wf(&self) -> bool {
        &&& self.bits_left <= 7
        &&& (self.remainder as u16) >> (self.bits_left as u16) == 0
    }

    /// A transcoder over the bytes of `iter`. It pulls nothing yet.
    pub fn new(iter: S) -> (r: Self)
        ensures
            r.wf(),
            r.buffered() == Seq::<bool>::empty(),
            r.unread() == iter.remaining(),
            r@ == octal_digits(iter.remaining()),
    {
        let r = Octals { byte_iter: iter, remainder: 0, bits_left: 0 };
        proof {
            lemma_small_values(0u16);
            assert(r.buffered() =~= Seq::<bool>::empty());
            assert(r.buffered() + stream_bits(r.unread()) =~= stream_bits(iter.remaining()));
        }
        r
    }

    /// Hands out the next symbol, or `None` once every bit has been handed
    /// out. A last group of one or two bits comes out once, filled up with
    /// clear bits.
    pub fn next(&mut self) -> (r: Option<u8>)
        requires
            old(self).wf(),
        ensures
            final(self).wf(),
            old(self)@.len() == 0 ==> r is None && final(self)@ == old(self)@,
            old(self)@.len() > 0 ==> r == Some(old(self)@[0]) && final(self)@ == old(self)@.skip(1),
            r is Some ==> r->0 < 8,
            final(self).buffered().len() <= 7,
            (r, final(self).buffered(), final(self).unread()) == octal_step(
                old(self).buffered(),
                old(self).unread(),
            ),
    {
        let ghost buffered = self.buffered();
        let ghost unread = self.unread();
        proof {
            lemma_octal_step(buffered, unread);
        }
        let mut quire: u16 = self.remainder as u16;
        if self.bits_left < 3 {
            match self.byte_iter.next_byte() {
                Some(b) => {
                    proof {
                        lemma_pulled_byte(quire, self.bits_left as u16, unread);
                    }
                    quire = quire | ((b as u16) << self.bits_left);
                    self.bits_left = self.bits_left + 8;
                },
                None => {
                    if self.bits_left > 0 {
                        let last: u8 = self.remainder;
                        proof {
                            lemma_last_symbol(quire, self.bits_left as u16);
                            lemma_small_values(0u16);
                        }
                        self.bits_left = 0;
                        self.remainder = 0;
                        assert(self.buffered() =~= Seq::<bool>::empty());
                        return Some(last);
                    } else {
                        return None;
                    }
                },
            }
        }
        proof {
            let n = self.bits_left as u16;
            let more = low_bits(quire, n as nat);
            lemma_dropped_group(quire, n, 3);
            lemma_low_three(quire);
            assert(bit_at(more, 0) == bit_of(quire, 0));
            assert(bit_at(more, 1) == bit_of(quire, 1));
            assert(bit_at(more, 2) == bit_of(quire, 2));
        }
        self.remainder = (quire >> 3) as u8;
        self.bits_left = self.bits_left - 3;
        Some((quire & 7) as u8)
    }

    /// Runs the transcoder dry and returns every symbol it had left, in order.
    pub fn collect(self) -> (symbols: Vec<u8>)
        requires
            self.wf(),
        ensures
            symbols@ == self@,
    {
        let mut rest = self;
        let mut symbols: Vec<u8> = Vec::new();
        loop
            invariant
                rest.wf(),
                symbols@ + rest@ == self@,
            ensures
                symbols@ == self@,
            decreases rest@.len(),
        {
            let ghost before = rest@;
            match rest.next() {
                Some(s) => {
                    symbols.push(s);
                    assert(symbols@ + rest@ =~= symbols@.drop_last() + before);
                },
                None => {
                    assert(symbols@ + rest@ =~= symbols@);
                    break ;
                },
            }
        }
        symbols
    }
}

impl<S: ByteSource> View for Octals<S> {
    type V = Seq<u8>;

    /// The symbols not handed out yet, in the order they will come: those
    /// of the buffered bits followed by the bits of the unread bytes.
    open spec fn view(&self) -> Seq<u8> {
        octals_of(self.buffered() + stream_bits(self.unread()))
    }
}

/// Pulling a byte into the buffer puts its eight bits behind the `n` bits
/// that wait there.
proof fn lemma_pulled_byte(low: u16, n: u16, unread: Seq<u8>)
    requires
        n <= 7,
        low >> n == 0,
        unread.len() > 0,
    ensures
        ({
            let quire = low | ((unread[0] as u16) << n);
            &&& quire >> ((n + 8) as u16) == 0
            &&& low_bits(quire, (n + 8) as nat) == low_bits(low, n as nat) + stream_bits(
                unread.take(1),
            )
        }),
{
    let high = unread[0] as u16;
    let quire = low | (high << n);
    lemma_merged_bound(low, high, n);
    lemma_stream_bits_split(unread);
    let after = low_bits(quire, (n + 8) as nat);
    let before = low_bits(low, n as nat) + low_bits(high, 8);
    assert forall|k: int| 0 <= k < after.len() implies after[k] == before[k] by {
        lemma_merged_bit(low, high, n, k as u16);
    }
    assert(after =~= before);
}

/// Shifting the `w` lowest bits out of the buffer takes its first `w` bits
/// off.
proof fn lemma_dropped_group(quire: u16, n: u16, w: u16)
    requires
        w <= n,
        n <= 15,
        w <= 8,
        n - w <= 8,
        quire >> n == 0,
    ensures
        (quire >> w) < 256,
        (quire >> w) >> ((n - w) as u16) == 0,
        low_bits(quire >> w, (n - w) as nat) == low_bits(quire, n as nat).skip(w as int),
{
    lemma_shifted_bound(quire, n, w);
    let after = low_bits(quire >> w, (n - w) as nat);
    let before = low_bits(quire, n as nat);
    assert forall|k: int| 0 <= k < after.len() implies after[k] == before.skip(w as int)[k] by {
        lemma_shifted_bit(quire, w, k as u16);
    }
    assert(after =~= before.skip(w as int));
}

/// One or two buffered bits make up one last symbol: the buffer's own value.
proof fn lemma_last_symbol(low: u16, n: u16)
    requires
        0 < n < 3,
        low >> n == 0,
        low < 256,
    ensures
        octal_at(low_bits(low, n as nat), 0) == low,
{
    lemma_low_three(low);
    lemma_high_bits_clear(low, n, 2);
    if n == 1 {
        lemma_high_bits_clear(low, n, 1);
    }
    assert(low >> 3 == 0) by (bit_vector)
        requires
            low >> n == 0,
            n < 3,
    ;
    lemma_small_values(low);
}

/// Packs three-bit symbols back into bytes, lowest bits first: the inverse
/// of [`Octals`].
///
/// Up to seven bits wait in `stored` between two calls of
/// [`OctalPrinter::add`]; a byte comes out whenever eight are there.
#[derive(Copy, Clone, Debug)]
pub struct OctalPrinter {
    stored: u8,
    bits_got: u8,
}

impl OctalPrinter {
    /// `bits_got` counts exactly the valid low bits of `stored`, and there
    /// are at most seven of them.
    pub closed spec fn wf(&self) -> bool {
        &&& self.bits_got <= 7
        &&& (self.stored as u16) >> (self.bits_got as u16) == 0
    }

    /// A packer with nothing buffered.
    pub fn new() -> (r: Self)
        ensures
            r.wf(),
            r@ == Seq::<bool>::empty(),
    {
        let r = OctalPrinter { stored: 0, bits_got: 0 };
        proof {
            lemma_small_values(0u16);
            assert(r@ =~= Seq::<bool>::empty());
        }
        r
    }

    /// Takes in one symbol, behind the bits already buffered. Hands out a
    /// byte, made of the eight oldest bits, as soon as eight or more are
    /// there, and keeps the rest.
    pub fn add(&mut self, input: u8) -> (r: Option<u8>)
        requires
            old(self).wf(),
            input < 8,
        ensures
            final(self).wf(),
            r == pack_step(old(self)@, input).0,
            final(self)@ == pack_step(old(self)@, input).1,
            final(self)@.len() <= 7,
    {
        let ghost n = self.bits_got as u16;
        let ghost low = self.stored as u16;
        let quire: u16 = (self.stored as u16) | ((input as u16) << self.bits_got);
        let ghost all = self@ + symbol_bits(input);
        proof {
            lemma_merged_symbol_bound(low, input as u16, n);
            assert forall|k: int| 0 <= k < n + 3 implies low_bits(quire, (n + 3) as nat)[k]
                == all[k] by {
                lemma_merged_bit(low, input as u16, n, k as u16);
            }
            assert(low_bits(quire, (n + 3) as nat) =~= all);
        }
        self.bits_got = self.bits_got + 3;
        if self.bits_got >= 8 {
            proof {
                let first = all.subrange(0, 8);
                lemma_dropped_group(quire, (n + 3) as u16, 8);
                lemma_low_eight(quire);
                assert(bit_at(first, 0) == bit_of(quire, 0));
                assert(bit_at(first, 1) == bit_of(quire, 1));
                assert(bit_at(first, 2) == bit_of(quire, 2));
                assert(bit_at(first, 3) == bit_of(quire, 3));
                assert(bit_at(first, 4) == bit_of(quire, 4));
                assert(bit_at(first, 5) == bit_of(quire, 5));
                assert(bit_at(first, 6) == bit_of(quire, 6));
                assert(bit_at(first, 7) == bit_of(quire, 7));
                assert(quire & 0xff < 256) by (bit_vector);
                assert(all.skip(8) =~= all.subrange(8, all.len() as int));
            }
            self.stored = (quire >> 8) as u8;
            self.bits_got = self.bits_got - 8;
            Some((quire & 0x00FF) as u8)
        } else {
            proof {
                assert(quire < 256) by (bit_vector)
                    requires
                        quire >> ((n + 3) as u16) == 0,
                        n + 3 < 8,
                ;
                lemma_small_values(quire);
            }
            self.stored = (quire & 0x00FF) as u8;
            None
        }
    }
}

impl View for OctalPrinter {
    type V = Seq<bool>;

    /// The buffered bits, oldest first.
    closed spec fn view(&self) -> Seq<bool> {
        low_bits(self.stored as u16, self.bits_got as nat)
    }
}

} // verus!
