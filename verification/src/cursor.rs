//! A seekable, position-tracking byte sink over an in-memory buffer.
//!
//! The three build stages of a TSM file share one cursor; the surrounding
//! program hands the finished buffer to the actual storage in one step.

use vstd::prelude::*;

verus! {

/// The bytes a write leaves behind: the prefix before the position, the
/// written data, and whatever tail of the old buffer the data did not cover.
pub open spec fn write_effect(buf: Seq<u8>, pos: int, data: Seq<u8>) -> Seq<u8>
    recommends
        0 <= pos <= buf.len(),
{
    buf.take(pos) + data + if pos + data.len() <= buf.len() {
        buf.skip(pos + data.len())
    } else {
        Seq::empty()
    }
}

/// A positional cursor over a growable byte buffer.
pub struct FileCursor {
    buf: Vec<u8>,
    pos: usize,
}

impl FileCursor {
    /// The buffer contents.
    pub closed spec fn bytes(self) -> Seq<u8> {
        self.buf@
    }

    /// The current position.
    pub closed spec fn spec_pos(self) -> int {
        self.pos as int
    }

    /// The position never runs past the end of the buffer.
    pub closed spec fn wf(self) -> bool {
        self.pos <= self.buf@.len()
    }

    /// A fresh cursor: empty buffer, position zero.
    pub fn new() -> (r: FileCursor)
        ensures
            r.wf(),
            r.bytes() == Seq::<u8>::empty(),
            r.spec_pos() == 0,
    {
        FileCursor { buf: Vec::new(), pos: 0 }
    }

    /// The current position, as stored on disk offsets are measured.
    pub fn pos(&self) -> (r: u64)
        ensures
            r == self.spec_pos(),
    {
        self.pos as u64
    }

    /// Moves the position to `pos`, which must lie inside the buffer.
    pub fn seek(&mut self, pos: u64) -> (r: Result<(), crate::error::Error>)
        requires
            old(self).wf(),
            pos <= old(self).bytes().len(),
        ensures
            r is Ok,
            final(self).wf(),
            final(self).bytes() == old(self).bytes(),
            final(self).spec_pos() == pos,
    {
        let l = self.buf.len();
        proof {
            assert(pos <= l);
        }
        self.pos = pos as usize;
        Ok(())
    }

    /// Hands the finished buffer over, for the surrounding program to persist
    /// in one step.
    pub fn into_bytes(self) -> (r: Vec<u8>)
        ensures
            r@ == self.bytes(),
    {
        self.buf
    }

    /// Writes `data` at the current position, overwriting what it covers and
    /// growing the buffer as needed; the position advances past the data.
    pub fn write(&mut self, data: &[u8]) -> (r: Result<(), crate::error::Error>)
        requires
            old(self).wf(),
            old(self).spec_pos() + data@.len() <= usize::MAX,
            old(self).bytes().len() + data@.len() <= usize::MAX,
        ensures
            r is Ok,
            final(self).wf(),
            final(self).bytes() == write_effect(old(self).bytes(), old(self).spec_pos(), data@),
            final(self).spec_pos() == old(self).spec_pos() + data@.len(),
    {
        let ghost obuf = self.buf@;
        let ghost p = self.pos as int;
        let n = data.len();
        let mut i: usize = 0;
        while i < n
            invariant
                i <= n,
                n == data@.len(),
                self.pos as int == p,
                p + n <= usize::MAX,
                obuf.len() + n <= usize::MAX,
                p <= obuf.len(),
                self.buf@.len() == if p + i <= obuf.len() {
                    obuf.len() as int
                } else {
                    p + i
                },
                forall|j: int| 0 <= j < p ==> self.buf@[j] == obuf[j],
                forall|j: int| 0 <= j < i ==> self.buf@[p + j] == data@[j],
                forall|j: int|
                    p + i <= j < obuf.len() ==> j < self.buf@.len() && self.buf@[j] == obuf[j],
            decreases n - i,
        {
            if self.pos + i < self.buf.len() {
                let idx = self.pos + i;
                let b = data[i];
                self.buf[idx] = b;
            } else {
                self.buf.push(data[i]);
            }
            i = i + 1;
        }
        proof {
            assert(self.buf@ =~= write_effect(obuf, p, data@));
        }
        self.pos = self.pos + n;
        Ok(())
    }
}

} // verus!
