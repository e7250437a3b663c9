use vstd::prelude::*;

use crate::error::TzError;

verus! {

/// An owned byte sequence with a monotonically advancing read position.
///
/// Every parsing step of the decoder is built on `walk`, which hands out the
/// next `n` bytes and advances the position, or reports `BufferUnderrun` when
/// fewer than `n` bytes remain.
pub struct WalkingVec {
    buffer: Vec<u8>,
    position: usize,
}

impl WalkingVec {
    /// The underlying bytes, unchanged for the life of the cursor.
    pub closed spec fn bytes(&self) -> Seq<u8> {
        self.buffer@
    }

    /// The current read position.
    pub closed spec fn pos(&self) -> int {
        self.position as int
    }

    /// The cursor never moves past the end of the buffer.
    pub open spec fn wf(&self) -> bool {
        0 <= self.pos() <= self.bytes().len()
    }

    /// A fresh cursor at the start of the given bytes.
    pub fn new(bytes: Vec<u8>) -> (r: Self)
        ensures
            r.wf(),
            r.bytes() == bytes@,
            r.pos() == 0,
    {
        WalkingVec { buffer: bytes, position: 0 }
    }

    /// How many bytes are left to read.
    pub fn remaining(&self) -> (n: usize)
        requires
            self.wf(),
        ensures
            n == self.bytes().len() - self.pos(),
    {
        self.buffer.len() - self.position
    }

    /// Consume the next `n` bytes and return them; fail with
    /// `BufferUnderrun`, leaving the cursor where it was, when fewer than
    /// `n` bytes remain.
    pub fn walk(&mut self, n: usize) -> (r: Result<Vec<u8>, TzError>)
        requires
            old(self).wf(),
        ensures
            final(self).wf(),
            final(self).bytes() == old(self).bytes(),
            match r {
                Ok(taken) => {
                    &&& old(self).pos() + n <= old(self).bytes().len()
                    &&& final(self).pos() == old(self).pos() + n
                    &&& taken@ == old(self).bytes().subrange(old(self).pos(), old(self).pos() + n)
                },
                Err(e) => {
                    &&& e == TzError::BufferUnderrun
                    &&& old(self).pos() + n > old(self).bytes().len()
                    &&& final(self).pos() == old(self).pos()
                },
            },
    {
        if n > self.buffer.len() - self.position {
            return Err(TzError::BufferUnderrun);
        }
        let mut taken: Vec<u8> = Vec::new();
        let mut i: usize = 0;
        while i < n
            invariant
                self == old(self),
                self.wf(),
                i <= n,
                self.position + n <= self.buffer.len(),
                taken@ == self.bytes().subrange(self.pos(), self.pos() + i as int),
            decreases n - i,
        {
            taken.push(self.buffer[self.position + i]);
            i = i + 1;
            proof {
                assert(taken@ =~= self.bytes().subrange(self.pos(), self.pos() + i as int));
            }
        }
        self.position = self.position + n;
        Ok(taken)
    }
}

} // verus!
