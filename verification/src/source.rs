//! Byte sources: anything that hands out bytes one at a time until it runs dry.

use vstd::prelude::*;

verus! {

/// An ordered, finite source of bytes.
///
/// A transcoder pulls from its source only when it needs more bits, so a
/// source may stand for a buffer in memory as well as for a stream that is
/// read on demand.
pub trait ByteSource {
    /// The bytes not handed out yet, in the order they will come.
    ///
    /// Every verified source defines this. The body here, an empty sequence,
    /// only lets a source written outside of verified code leave it out.
    open spec fn remaining(&self) -> Seq<u8> {
        Seq::empty()
    }

    /// Hands out the next byte, or `None` once the source is exhausted. An
    /// exhausted source stays exhausted.
    fn next_byte(&mut self) -> (b: Option<u8>)
        ensures
            old(self).remaining().len() == 0 ==> b is None
                && final(self).remaining() == old(self).remaining(),
            old(self).remaining().len() > 0 ==> b == Some(old(self).remaining()[0])
                && final(self).remaining() == old(self).remaining().skip(1),
    ;
}

/// A byte source that walks over a borrowed slice.
pub struct SliceSource<'a> {
    bytes: &'a [u8],
    pos: usize,
}

impl<'a> SliceSource<'a> {
    /// A source that hands out the bytes of `bytes` from the first to the last.
    pub fn new(bytes: &'a [u8]) -> (s: Self)
        ensures
            s.remaining() == bytes@,
    {
        let s = SliceSource { bytes, pos: 0 };
        assert(bytes@.skip(0) =~= bytes@);
        s
    }
}

impl<'a> ByteSource for SliceSource<'a> {
    closed spec fn remaining(&self) -> Seq<u8> {
        if self.pos <= self.bytes@.len() {
            self.bytes@.skip(self.pos as int)
        } else {
            Seq::empty()
        }
    }

    fn next_byte(&mut self) -> (b: Option<u8>) {
        if self.pos < self.bytes.len() {
            let b: u8 = self.bytes[self.pos];
            self.pos = self.pos + 1;
            assert(self.bytes@.skip(self.pos as int) =~= self.bytes@.skip(self.pos - 1).skip(1));
            Some(b)
        } else {
            None
        }
    }
}

} // verus!
