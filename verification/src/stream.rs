//! In-memory byte streams: a sink that values are encoded into and a
//! source that values are decoded from.
//!
//! A sink is a plain `Vec<u8>`; this module provides the reading side. A
//! source is a buffer together with a cursor that only ever advances, which
//! models a sequential, non-seekable channel: a read hands out the next
//! bytes and reports how many it could obtain, and zero bytes obtainable
//! means the stream is at its clean end.

use vstd::prelude::*;

verus! {

/// The reading end of a byte stream. Its view is the sequence of bytes
/// that have not yet been consumed.
pub struct ByteSource {
    data: Vec<u8>,
    pos: usize,
}

impl View for ByteSource {
    type V = Seq<u8>;

    closed spec fn view(&self) -> Seq<u8> {
        self.data@.skip(self.pos as int)
    }
}

impl ByteSource {
    #[verifier::type_invariant]
    spec fn inv(self) -> bool {
        &&& self.pos <= self.data@.len()
        &&& 8 * self.data@.len() <= usize::MAX
    }

    /// Opens a source over the whole of `data`. The modest size bound
    /// leaves room to count the bits of any part of the stream in a
    /// `usize`.
    pub fn new(data: Vec<u8>) -> (s: ByteSource)
        requires
            8 * data@.len() <= usize::MAX,
        ensures
            s@ == data@,
    {
        let s = ByteSource { data, pos: 0 };
        proof {
            assert(s@ =~= s.data@);
        }
        s
    }

    /// How many bytes are still obtainable.
    pub fn remaining_len(&self) -> (n: usize)
        ensures
            n == self@.len(),
            8 * n <= usize::MAX,
    {
        proof {
            use_type_invariant(self);
        }
        self.data.len() - self.pos
    }

    /// Reads one byte, or reports the clean end of the stream.
    pub fn read_byte(&mut self) -> (r: Option<u8>)
        ensures
            match r {
                None => old(self)@.len() == 0 && final(self)@ == old(self)@,
                Some(b) => {
                    &&& old(self)@.len() > 0
                    &&& b == old(self)@[0]
                    &&& final(self)@ == old(self)@.skip(1)
                },
            },
    {
        proof {
            use_type_invariant(&*self);
        }
        if self.pos < self.data.len() {
            let b = self.data[self.pos];
            self.pos = self.pos + 1;
            proof {
                assert(self@ =~= old(self)@.skip(1));
            }
            Some(b)
        } else {
            None
        }
    }

    /// Reads up to `n` bytes: as many as are obtainable, never more than
    /// `n`. The caller learns from the returned length whether the stream
    /// ended early.
    pub fn read_up_to(&mut self, n: usize) -> (buf: Vec<u8>)
        ensures
            buf@.len() == if n <= old(self)@.len() {
                n as int
            } else {
                old(self)@.len() as int
            },
            buf@ == old(self)@.take(buf@.len() as int),
            final(self)@ == old(self)@.skip(buf@.len() as int),
    {
        proof {
            use_type_invariant(&*self);
        }
        let ghost gdata = self.data@;
        let ghost gpos = self.pos as int;
        let mut buf: Vec<u8> = Vec::new();
        let avail = self.data.len() - self.pos;
        let count = if n <= avail {
            n
        } else {
            avail
        };
        let mut i: usize = 0;
        while i < count
            invariant
                i <= count,
                self.data@ == gdata,
                self.pos == gpos,
                gpos + count <= gdata.len(),
                gdata.len() <= usize::MAX,
                buf@ == gdata.subrange(gpos, gpos + i),
            decreases count - i,
        {
            let b = self.data[self.pos + i];
            buf.push(b);
            proof {
                assert(buf@ =~= gdata.subrange(gpos, gpos + i + 1));
            }
            i = i + 1;
        }
        self.pos = self.pos + count;
        proof {
            assert(buf@ =~= old(self)@.take(buf@.len() as int));
            assert(self@ =~= old(self)@.skip(buf@.len() as int));
        }
        buf
    }
}

} // verus!
