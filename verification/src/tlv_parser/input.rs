//! The octets that the decoder reads, one at a time and in order.

use vstd::prelude::*;

verus! {

/// A source of octets that can be read one by one, each with its place in
/// the stream, and looked at one ahead.
#[derive(Debug)]
pub struct ByteInput {
    bytes: Vec<u8>,
    pos: usize,
}

impl View for ByteInput {
    type V = Seq<u8>;

    /// The octets not yet read, next one first.
    closed spec fn view(&self) -> Seq<u8> {
        if self.pos <= self.bytes@.len() {
            self.bytes@.skip(self.pos as int)
        } else {
            Seq::empty()
        }
    }
}

impl ByteInput {
    /// The number of octets read so far.
    pub closed spec fn position(&self) -> nat {
        if self.pos <= self.bytes@.len() {
            self.pos as nat
        } else {
            self.bytes@.len()
        }
    }

    /// A source that will yield `bytes` from the first on.
    pub fn new(bytes: Vec<u8>) -> (r: ByteInput)
        ensures
            r@ == bytes@,
            r.position() == 0,
    {
        let r = ByteInput { bytes, pos: 0 };
        assert(r.bytes@.skip(0) =~= r.bytes@);
        r
    }

    /// The next octet with its place, which stays unread.
    pub fn peek(&self) -> (r: Option<(usize, u8)>)
        ensures
            self@.len() == 0 ==> r is None,
            self@.len() > 0 ==> r == Some((self.position() as usize, self@[0])),
    {
        if self.pos < self.bytes.len() {
            Some((self.pos, self.bytes[self.pos]))
        } else {
            None
        }
    }

    /// Reads the next octet and hands it out with its place.
    pub fn next(&mut self) -> (r: Option<(usize, u8)>)
        ensures
            old(self)@.len() == 0 ==> {
                &&& r is None
                &&& final(self)@ == old(self)@
                &&& final(self).position() == old(self).position()
            },
            old(self)@.len() > 0 ==> {
                &&& r == Some((old(self).position() as usize, old(self)@[0]))
                &&& final(self)@ == old(self)@.drop_first()
                &&& final(self).position() == old(self).position() + 1
            },
    {
        if self.pos < self.bytes.len() {
            let at = self.pos;
            let octet = self.bytes[at];
            self.pos = at + 1;
            assert(self.bytes@.skip(at + 1) =~= self.bytes@.skip(at as int).drop_first());
            Some((at, octet))
        } else {
            None
        }
    }

    /// The octets not yet read, next one first.
    pub fn into_remaining(self) -> (r: Vec<u8>)
        ensures
            r@ == self@,
    {
        let mut rest: Vec<u8> = Vec::new();
        let mut i: usize = self.pos;
        if i > self.bytes.len() {
            return rest;
        }
        while i < self.bytes.len()
            invariant
                self.pos <= i <= self.bytes@.len(),
                rest@ == self.bytes@.subrange(self.pos as int, i as int),
            decreases self.bytes@.len() - i,
        {
            rest.push(self.bytes[i]);
            i += 1;
            assert(rest@ =~= self.bytes@.subrange(self.pos as int, i as int));
        }
        assert(rest@ =~= self.bytes@.skip(self.pos as int));
        rest
    }
}

} // verus!
