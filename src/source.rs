//! An in-memory byte source with a movable read position.

use vstd::prelude::*;

verus! {

/// Why a read did not complete.
#[derive(Clone, Copy, Debug, PartialEq, Eq, Structural)]
pub enum ReadError {
    /// No record of that name is in the index.
    UnknownSequence,
    /// The range starts after it stops.
    InvalidRange,
    /// The range stops after the record's end.
    OutOfBounds,
    /// The data ends before a byte that the index places in it.
    UnexpectedEndOfData,
}

/// Bytes with a read position, which may lie past their end.
pub struct ByteSource {
    data: Vec<u8>,
    pos: u64,
    seeks: Ghost<nat>,
    reads: Ghost<nat>,
}

impl ByteSource {
    pub closed spec fn bytes(&self) -> Seq<u8> {
        self.data@
    }

    pub closed spec fn position(&self) -> nat {
        self.pos as nat
    }

    /// How many times the position was moved by `seek`.
    pub closed spec fn seeks(&self) -> nat {
        self.seeks@
    }

    /// How many reads completed.
    pub closed spec fn reads(&self) -> nat {
        self.reads@
    }

    /// A source over `data`, positioned at its start.
    pub fn new(data: Vec<u8>) -> (r: ByteSource)
        ensures
            r.bytes() == data@,
            r.position() == 0,
            r.seeks() == 0,
            r.reads() == 0,
    {
        ByteSource { data, pos: 0, seeks: Ghost(0), reads: Ghost(0) }
    }

    /// Moves the read position to `pos`.
    pub fn seek(&mut self, pos: u64)
        ensures
            final(self).bytes() == old(self).bytes(),
            final(self).position() == pos,
            final(self).seeks() == old(self).seeks() + 1,
            final(self).reads() == old(self).reads(),
    {
        self.pos = pos;
        proof { self.seeks@ = self.seeks@ + 1; }
    }

    /// Reads exactly `n` bytes into the front of `buf` and advances past them,
    /// or fails, changing nothing, where the data ends too early.
    pub fn read_exact(&mut self, buf: &mut Vec<u8>, n: usize) -> (r: Result<(), ReadError>)
        requires
            n <= old(buf)@.len(),
        ensures
            final(self).bytes() == old(self).bytes(),
            final(buf)@.len() == old(buf)@.len(),
            r is Ok <==> old(self).position() + n <= old(self).bytes().len(),
            r is Ok ==> final(self).position() == old(self).position() + n
                && final(self).seeks() == old(self).seeks()
                && final(self).reads() == old(self).reads() + 1
                && final(buf)@.subrange(n as int, final(buf)@.len() as int)
                    == old(buf)@.subrange(n as int, old(buf)@.len() as int)
                && final(buf)@.subrange(0, n as int) == old(self).bytes().subrange(
                    old(self).position() as int,
                    old(self).position() + n,
                ),
            r is Err ==> r == Err::<(), ReadError>(ReadError::UnexpectedEndOfData)
                && *final(self) == *old(self) && *final(buf) == *old(buf),
    {
        let len = self.data.len() as u64;
        if self.pos > len || (n as u64) > len - self.pos {
            return Err(ReadError::UnexpectedEndOfData);
        }
        let start = self.pos as usize;
        let end = start + n;
        let mut i: usize = 0;
        while i < n
            invariant
                i <= n,
                n <= buf@.len(),
                buf@.len() == old(buf)@.len(),
                end == start + n,
                end <= self.data@.len(),
                start == self.pos,
                forall|j: int| 0 <= j < i ==> buf@[j] == self.data@[start + j],
                forall|j: int| n <= j < buf@.len() ==> buf@[j] == old(buf)@[j],
            decreases n - i,
        {
            buf.set(i, self.data[start + i]);
            i = i + 1;
        }
        self.pos = self.pos + n as u64;
        proof { self.reads@ = self.reads@ + 1; }
        assert(buf@.subrange(n as int, buf@.len() as int) =~= old(buf)@.subrange(n as int, old(buf)@.len() as int));
        assert(buf@.subrange(0, n as int) =~= self.data@.subrange(start as int, start + n));
        Ok(())
    }
}

} // verus!
