use vstd::math::min;
use vstd::prelude::*;

verus! {

/// A sequential origin of bytes, read forward in chunks of any size.
pub trait ByteSource {
    /// The bytes that have not been read yet.
    spec fn remaining(&self) -> Seq<u8>;

    /// The source's internal consistency.
    spec fn wf(&self) -> bool;

    /// Copies as many of the next bytes as fit into `buf` and returns how many
    /// were copied; 0 once the source is exhausted.
    fn read(&mut self, buf: &mut [u8]) -> (n: usize)
        requires
            old(self).wf(),
        ensures
            final(self).wf(),
            n as int == min(old(buf)@.len() as int, old(self).remaining().len() as int),
            final(buf)@.len() == old(buf)@.len(),
            final(buf)@.take(n as int) == old(self).remaining().take(n as int),
            final(buf)@.skip(n as int) == old(buf)@.skip(n as int),
            final(self).remaining() == old(self).remaining().skip(n as int),
    ;
}

/// Reads a slice of bytes through [`ByteSource`].
pub struct BytesReader<'a> {
    bytes: &'a [u8],
    index: usize,
}

impl<'a> BytesReader<'a> {
    /// A reader positioned at the start of `bytes`.
    pub fn new(bytes: &'a [u8]) -> (r: Self)
        ensures
            r.wf(),
            r.remaining() == bytes@,
            r.remaining().len() <= usize::MAX,
    {
        assert(bytes@.len() == bytes.len());
        BytesReader { bytes, index: 0 }
    }
}

impl<'a> ByteSource for BytesReader<'a> {
    closed spec fn remaining(&self) -> Seq<u8> {
        self.bytes@.skip(self.index as int)
    }

    closed spec fn wf(&self) -> bool {
        self.index <= self.bytes@.len()
    }

    fn read(&mut self, buf: &mut [u8]) -> (n: usize) {
        let ghost start = self.index as int;
        let mut i: usize = 0;
        while i < buf.len() && self.index < self.bytes.len()
            invariant
                self.bytes == old(self).bytes,
                self.index <= self.bytes@.len(),
                self.index as int == start + i,
                i <= buf@.len(),
                buf@.len() == old(buf)@.len(),
                forall|j: int| 0 <= j < i ==> buf@[j] == old(self).bytes@[start + j],
                forall|j: int| i <= j < buf@.len() ==> buf@[j] == old(buf)@[j],
            decreases buf@.len() - i,
        {
            buf[i] = self.bytes[self.index];
            i += 1;
            self.index += 1;
        }
        assert(buf@.take(i as int) =~= old(self).remaining().take(i as int));
        assert(buf@.skip(i as int) =~= old(buf)@.skip(i as int));
        assert(self.bytes@.skip(self.index as int) =~= old(self).remaining().skip(i as int));
        i
    }
}

} // verus!
