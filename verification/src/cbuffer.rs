use vstd::prelude::*;

verus! {

/// Where the entry that was pushed `i` pushes ago (0 being the last one)
/// lies in a ring of `cap` slots whose next free slot is `pos`.
pub open spec fn ring_index(pos: int, cap: int, i: int) -> int {
    if pos < i + 1 {
        pos + cap - i - 1
    } else {
        pos - i - 1
    }
}

/// The history after pushing `x` into a buffer of capacity `cap`: newest
/// first, the oldest entry dropped once the buffer is full.
pub open spec fn push_history<T>(hist: Seq<T>, x: T, cap: int) -> Seq<T> {
    let h = seq![x] + hist;
    if h.len() > cap {
        h.take(cap)
    } else {
        h
    }
}

/// The history after pushing the entries of `s` in order.
pub open spec fn push_all<T>(hist: Seq<T>, s: Seq<T>, cap: int) -> Seq<T>
    decreases s.len(),
{
    if s.len() == 0 {
        hist
    } else {
        push_history(push_all(hist, s.drop_last(), cap), s.last(), cap)
    }
}

/// A ring buffer that remembers the last `cap` pushed values.
#[derive(Clone, Debug)]
pub struct CircularBuffer<T> {
    data: Vec<T>,
    pos: usize,
    is_first: bool,
}

impl<T> CircularBuffer<T> {
    pub closed spec fn wf(&self) -> bool {
        &&& (self.data.len() == 0 ==> self.pos == 0)
        &&& (self.data.len() > 0 ==> self.pos < self.data.len())
        &&& (self.data.len() == 0 ==> self.is_first)
    }

    /// The number of slots.
    pub closed spec fn spec_cap(&self) -> nat {
        self.data.len() as nat
    }

    /// The number of values held.
    pub closed spec fn spec_len(&self) -> nat {
        if self.is_first {
            self.pos as nat
        } else {
            self.data.len() as nat
        }
    }

    /// The slots as they are laid out.
    pub closed spec fn spec_raw(&self) -> Seq<T> {
        self.data@
    }

    pub closed spec fn spec_pos(&self) -> usize {
        self.pos
    }

    /// The values held, the most recently pushed first.
    pub open spec fn history(&self) -> Seq<T> {
        Seq::new(
            self.spec_len(),
            |i: int| self.spec_raw()[ring_index(self.spec_pos() as int, self.spec_cap() as int, i)],
        )
    }
}

impl<T: Default + Clone> CircularBuffer<T> {
    /// An empty buffer with `cap` slots.
    pub fn new(cap: usize) -> (r: Self)
        ensures
            r.wf(),
            r.spec_cap() == cap,
            r.spec_len() == 0,
            r.spec_pos() == 0,
            r.spec_raw().len() == cap,
    {
        let mut data: Vec<T> = Vec::with_capacity(cap);
        let mut i: usize = 0;
        while i < cap
            invariant
                i <= cap,
                data.len() == i,
            decreases cap - i,
        {
            data.push(T::default());
            i += 1;
        }
        Self { data, pos: 0, is_first: true }
    }
}

impl<T> CircularBuffer<T> {
    /// Pushes the values of `data` in order.
    pub fn append(&mut self, data: &[T])
        where T: Copy,
        requires
            old(self).wf(),
            data.len() + old(self).spec_pos() <= 2 * old(self).spec_cap(),
        ensures
            final(self).wf(),
            final(self).spec_cap() == old(self).spec_cap(),
            final(self).history() == push_all(old(self).history(), data@, old(self).spec_cap() as int),
    {
        let mut i: usize = 0;
        while i < data.len()
            invariant
                i <= data.len(),
                self.wf(),
                self.spec_cap() == old(self).spec_cap(),
                data.len() + old(self).spec_pos() <= 2 * old(self).spec_cap(),
                self.history() == push_all(old(self).history(), data@.take(i as int), old(self).spec_cap() as int),
            decreases data.len() - i,
        {
            assert(data@.take(i + 1).drop_last() =~= data@.take(i as int));
            self.push(data[i]);
            i += 1;
        }
        assert(data@.take(data.len() as int) =~= data@);
    }

    /// The next free slot lies within the slots.
    pub proof fn lemma_pos_below_cap(&self)
        requires
            self.wf(),
            self.spec_cap() > 0,
        ensures
            self.spec_pos() < self.spec_cap(),
    {
    }

    /// A buffer never holds more values than it has slots.
    pub proof fn lemma_len_le_cap(&self)
        requires
            self.wf(),
        ensures
            self.history().len() <= self.spec_cap(),
    {
    }

    #[inline]
    pub fn len(&self) -> (r: usize)
        ensures
            r == self.spec_len(),
    {
        if self.is_first {
            self.pos
        } else {
            self.data.len()
        }
    }

    #[inline]
    pub fn cap(&self) -> (r: usize)
        ensures
            r == self.spec_cap(),
    {
        self.data.len()
    }

    /// Remembers `data` as the newest value.
    pub fn push(&mut self, data: T)
        requires
            old(self).wf(),
            old(self).spec_cap() > 0,
        ensures
            final(self).wf(),
            final(self).spec_cap() == old(self).spec_cap(),
            final(self).history() == push_history(old(self).history(), data, old(self).spec_cap() as int),
            final(self).spec_raw() == old(self).spec_raw().update(old(self).spec_pos() as int, data),
            final(self).spec_pos() == if old(self).spec_pos() + 1 == old(self).spec_cap() {
                0
            } else {
                old(self).spec_pos() + 1
            },
    {
        let ghost old_hist = self.history();
        let ghost cap = self.data.len() as int;
        let p = self.pos;
        self.data.set(p, data);
        self.pos = p + 1;
        if self.pos >= self.data.len() {
            self.pos = 0;
            self.is_first = false;
        }
        proof {
            let h = self.history();
            let e = push_history(old_hist, data, cap);
            assert(h.len() == e.len());
            assert forall|i: int| 0 <= i < h.len() implies h[i] == e[i] by {
                if i > 0 {
                    assert(ring_index(self.pos as int, cap, i) == ring_index(p as int, cap, i - 1));
                }
            }
            assert(h =~= e);
        }
    }

    /// The next free slot.
    #[inline]
    pub fn get_raw_pos(&self) -> (r: usize)
        ensures
            r == self.spec_pos(),
    {
        self.pos
    }

    /// The slots as they are laid out.
    #[inline]
    pub fn get_raw_ref(&self) -> (r: &[T])
        ensures
            r@ == self.spec_raw(),
            r@.len() == self.spec_cap(),
    {
        self.data.as_slice()
    }

    /// The slot that holds the value pushed `idx` pushes ago.
    #[inline]
    pub fn inner_idx(&self, idx: usize) -> (r: usize)
        requires
            self.wf(),
            idx < self.spec_len(),
        ensures
            r == ring_index(self.spec_pos() as int, self.spec_cap() as int, idx as int),
            r < self.spec_cap(),
    {
        if self.pos < idx + 1 {
            self.data.len() - (idx + 1 - self.pos)
        } else {
            self.pos - idx - 1
        }
    }

    /// The value pushed `idx` pushes ago.
    pub fn get(&self, idx: usize) -> (r: &T)
        requires
            self.wf(),
            idx < self.spec_len(),
        ensures
            *r == self.history()[idx as int],
    {
        let i = self.inner_idx(idx);
        &self.data[i]
    }

    /// Walks the values held, the most recently pushed first.
    pub fn into_iter(self) -> (r: Iterator<T>)
        requires
            self.wf(),
        ensures
            r.wf(),
            r.remaining() == self.history(),
    {
        Iterator::new(self)
    }
}

/// A walk over the values of a `CircularBuffer`, the newest first.
pub struct Iterator<T> {
    inner: CircularBuffer<T>,
    pos: usize,
    len: usize,
}

impl<T> Iterator<T> {
    pub closed spec fn wf(&self) -> bool {
        let consumed = self.inner.spec_len() - self.len;
        &&& self.inner.wf()
        &&& self.len <= self.inner.spec_len()
        &&& self.inner.spec_cap() > 0 ==> self.pos < self.inner.spec_cap()
        &&& self.pos as int == (if self.inner.spec_pos() >= consumed {
            self.inner.spec_pos() - consumed
        } else {
            self.inner.spec_pos() + self.inner.spec_cap() - consumed
        })
    }

    /// The values not yet returned.
    pub closed spec fn remaining(&self) -> Seq<T> {
        self.inner.history().skip(self.inner.spec_len() - self.len)
    }

    fn new(inner: CircularBuffer<T>) -> (r: Self)
        requires
            inner.wf(),
        ensures
            r.wf(),
            r.remaining() == inner.history(),
    {
        let r = Self { pos: inner.get_raw_pos(), len: inner.len(), inner };
        assert(r.remaining() =~= r.inner.history());
        r
    }

    /// Returns the next value, or `None` once every value has been returned.
    pub fn next(&mut self) -> (r: Option<T>)
        where T: Clone,
        requires
            old(self).wf(),
        ensures
            final(self).wf(),
            old(self).remaining().len() == 0 ==> r is None && final(self).remaining() == old(self).remaining(),
            old(self).remaining().len() > 0 ==> {
                &&& r matches Some(v) && cloned(old(self).remaining()[0], v)
                &&& final(self).remaining() == old(self).remaining().drop_first()
            },
    {
        if self.len > 0 {
            let ghost consumed = self.inner.spec_len() - self.len;
            self.len -= 1;
            self.pos = if self.pos > 0 {
                self.pos - 1
            } else {
                self.inner.cap() - 1
            };
            let raw = self.inner.get_raw_ref();
            let v = raw[self.pos].clone();
            assert(self.pos as int == ring_index(self.inner.spec_pos() as int, self.inner.spec_cap() as int, consumed));
            assert(self.remaining() =~= old(self).remaining().drop_first());
            Some(v)
        } else {
            None
        }
    }
}

} // verus!
