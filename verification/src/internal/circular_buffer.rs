use vstd::prelude::*;
use crate::cbuffer::ring_index;

verus! {

/// The slots after pushing `x`: newest first, the oldest slot dropped.
pub open spec fn rotate_in<T>(slots: Seq<T>, x: T) -> Seq<T> {
    (seq![x] + slots).take(slots.len() as int)
}

/// The slots after pushing the entries of `s` in order.
pub open spec fn rotate_in_all<T>(slots: Seq<T>, s: Seq<T>) -> Seq<T>
    decreases s.len(),
{
    if s.len() == 0 {
        slots
    } else {
        rotate_in(rotate_in_all(slots, s.drop_last()), s.last())
    }
}

/// A ring of `cap` slots, each of which always holds a value: at first the
/// default value, later the pushed ones.
#[derive(Clone, Eq, PartialEq, Hash)]
pub struct CircularBuffer<T> {
    data: Vec<T>,
    pos: usize,
}

impl<T> CircularBuffer<T> {
    pub closed spec fn wf(&self) -> bool {
        &&& (self.data.len() == 0 ==> self.pos == 0)
        &&& (self.data.len() > 0 ==> self.pos < self.data.len())
    }

    pub closed spec fn spec_raw(&self) -> Seq<T> {
        self.data@
    }

    pub closed spec fn spec_pos(&self) -> usize {
        self.pos
    }

    /// The slots, the most recently written first.
    pub open spec fn slots(&self) -> Seq<T> {
        Seq::new(
            self.spec_raw().len(),
            |i: int| self.spec_raw()[ring_index(self.spec_pos() as int, self.spec_raw().len() as int, i)],
        )
    }
}

impl<T: Default + Clone> CircularBuffer<T> {
    /// A ring of `cap` slots holding the default value.
    pub fn new(cap: usize) -> (r: Self)
        ensures
            r.wf(),
            r.spec_raw().len() == cap,
            r.spec_pos() == 0,
    {
        let mut data: Vec<T> = Vec::with_capacity(cap);
        let mut i: usize = 0;
        while i < cap
            invariant
                i <= cap,
                data.len() == i,
            decreases cap - i,
        {
            data.push(T::default());
            i += 1;
        }
        Self { data, pos: 0 }
    }

    /// Writes `data` into the oldest slot, which becomes the newest.
    pub fn push(&mut self, data: T)
        requires
            old(self).wf(),
            old(self).spec_raw().len() > 0,
        ensures
            final(self).wf(),
            final(self).spec_raw().len() == old(self).spec_raw().len(),
            final(self).slots() == rotate_in(old(self).slots(), data),
    {
        let ghost old_slots = self.slots();
        let ghost cap = self.data.len() as int;
        let p = self.pos;
        self.data.set(p, data);
        self.pos = p + 1;
        if self.pos >= self.data.len() {
            self.pos = 0;
        }
        proof {
            let h = self.slots();
            let e = rotate_in(old_slots, data);
            assert(h.len() == e.len());
            assert forall|i: int| 0 <= i < h.len() implies h[i] == e[i] by {
                if i > 0 {
                    assert(ring_index(self.pos as int, cap, i) == ring_index(p as int, cap, i - 1));
                }
            }
            assert(h =~= e);
        }
    }

    /// Pushes the values of `data` in order.
    pub fn append(&mut self, data: &[T])
        where T: Copy,
        requires
            old(self).wf(),
            data.len() + old(self).spec_pos() <= 2 * old(self).spec_raw().len(),
        ensures
            final(self).wf(),
            final(self).spec_raw().len() == old(self).spec_raw().len(),
            final(self).slots() == rotate_in_all(old(self).slots(), data@),
    {
        let mut i: usize = 0;
        while i < data.len()
            invariant
                i <= data.len(),
                self.wf(),
                self.spec_raw().len() == old(self).spec_raw().len(),
                data.len() + old(self).spec_pos() <= 2 * old(self).spec_raw().len(),
                self.slots() == rotate_in_all(old(self).slots(), data@.take(i as int)),
            decreases data.len() - i,
        {
            assert(data@.take(i + 1).drop_last() =~= data@.take(i as int));
            self.push(data[i]);
            i += 1;
        }
        assert(data@.take(data.len() as int) =~= data@);
    }

    /// The next slot to be written.
    #[inline]
    pub fn get_raw_pos(&self) -> (r: usize)
        ensures
            r == self.spec_pos(),
    {
        self.pos
    }

    /// The slots as they are laid out.
    #[inline]
    pub fn get_raw_ref(&self) -> (r: &[T])
        ensures
            r@ == self.spec_raw(),
    {
        self.data.as_slice()
    }
}

impl<T> CircularBuffer<T> {
    /// The slot written `idx` pushes ago.
    #[inline]
    fn inner_idx(&self, idx: usize) -> (r: usize)
        requires
            self.wf(),
            idx < self.spec_raw().len(),
        ensures
            r == ring_index(self.spec_pos() as int, self.spec_raw().len() as int, idx as int),
            r < self.spec_raw().len(),
    {
        if self.pos < idx + 1 {
            self.data.len() - (idx + 1 - self.pos)
        } else {
            self.pos - idx - 1
        }
    }

    /// The value written `idx` pushes ago.
    pub fn get(&self, idx: usize) -> (r: &T)
        requires
            self.wf(),
            idx < self.spec_raw().len(),
        ensures
            *r == self.slots()[idx as int],
    {
        let i = self.inner_idx(idx);
        &self.data[i]
    }
}

} // verus!
