use vstd::prelude::*;

verus! {

/// A first-in first-out queue of bytes: writes append, reads take from the
/// front.
#[derive(Debug)]
pub struct IOQueue {
    buf: Vec<u8>,
    pos: usize,
}

impl IOQueue {
    /// The read position lies within the buffer.
    pub closed spec fn wf(&self) -> bool {
        self.pos <= self.buf@.len()
    }

    /// The bytes in the queue, oldest first.
    pub closed spec fn contents(&self) -> Seq<u8> {
        self.buf@.subrange(self.pos as int, self.buf@.len() as int)
    }

    pub fn new() -> (r: Self)
        ensures
            r.wf(),
            r.contents() == Seq::<u8>::empty(),
    {
        let r = IOQueue { buf: Vec::with_capacity(8192), pos: 0 };
        assert(r.contents() =~= Seq::<u8>::empty());
        r
    }

    pub fn len(&self) -> (r: usize)
        requires
            self.wf(),
        ensures
            r == self.contents().len(),
    {
        self.buf.len() - self.pos
    }

    /// Moves up to `buf.len()` bytes from the front of the queue into `buf`;
    /// returns how many.
    pub fn read(&mut self, buf: &mut [u8]) -> (r: usize)
        requires
            old(self).wf(),
        ensures
            final(self).wf(),
            r == if old(self).contents().len() < old(buf)@.len() {
                old(self).contents().len()
            } else {
                old(buf)@.len() as nat
            },
            final(buf)@ == old(self).contents().take(r as int) + old(buf)@.skip(r as int),
            final(self).contents() == old(self).contents().skip(r as int),
    {
        let rlen = if self.len() < buf.len() {
            self.len()
        } else {
            buf.len()
        };
        let total = self.buf.len();
        let mut i: usize = 0;
        while i < rlen
            invariant
                total == self.buf@.len(),
                i <= rlen <= buf@.len(),
                self.pos + rlen <= self.buf@.len(),
                buf@.len() == old(buf)@.len(),
                *self == *old(self),
                forall|j: int| 0 <= j < i ==> buf@[j] == self.buf@[self.pos + j],
                forall|j: int| i <= j < buf@.len() ==> buf@[j] == old(buf)@[j],
            decreases rlen - i,
        {
            buf[i] = self.buf[self.pos + i];
            i = i + 1;
        }
        self.pos = self.pos + rlen;
        proof {
            assert(buf@ =~= old(self).contents().take(rlen as int) + old(buf)@.skip(rlen as int));
            assert(self.contents() =~= old(self).contents().skip(rlen as int));
        }
        rlen
    }

    /// Appends `buf` to the queue; returns how many bytes: all of them.
    pub fn write(&mut self, buf: &[u8]) -> (r: usize)
        requires
            old(self).wf(),
        ensures
            final(self).wf(),
            r == buf@.len(),
            final(self).contents() == old(self).contents() + buf@,
    {
        if self.pos > 0 && self.pos == self.buf.len() {
            self.buf.clear();
            self.pos = 0;
            assert(self.contents() =~= old(self).contents());
        }
        let mut i: usize = 0;
        while i < buf.len()
            invariant
                i <= buf@.len(),
                self.pos <= self.buf@.len(),
                self.contents() == old(self).contents() + buf@.take(i as int),
            decreases buf@.len() - i,
        {
            let ghost before = self.contents();
            self.buf.push(buf[i]);
            assert(self.contents() =~= before.push(buf@[i as int]));
            assert(buf@.take(i as int).push(buf@[i as int]) =~= buf@.take(i + 1));
            i = i + 1;
        }
        assert(buf@.take(buf@.len() as int) =~= buf@);
        buf.len()
    }

    /// Nothing is held back: a no-op.
    pub fn flush(&mut self)
        ensures
            *final(self) == *old(self),
            final(self).contents() == old(self).contents(),
    {
    }
}

} // verus!
