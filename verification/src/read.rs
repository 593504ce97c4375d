use vstd::prelude::*;

verus! {

/// The most items one growth step of `read_to_end` asks for, counted in
/// bytes.
const DEFAULT_BUF_SIZE: usize = 8 * 1024;

/// Why a read failed.
#[derive(Clone, Copy, Debug, PartialEq, Eq, Structural)]
pub enum ReadError {
    /// The read was interrupted and may be retried.
    Interrupted,
    /// The items ran out before the buffer was full.
    UnexpectedEof,
    /// Any other failure.
    Other,
}

/// Whether a buffer handed to a reader has to be initialized first.
#[derive(Debug)]
pub struct Initializer(bool);

impl Initializer {
    pub closed spec fn initializes(&self) -> bool {
        self.0
    }

    /// Initialization is needed.
    pub fn zeroing() -> (r: Initializer)
        ensures
            r.initializes(),
    {
        Initializer(true)
    }

    /// Initialization is not needed.
    pub fn nop() -> (r: Initializer)
        ensures
            !r.initializes(),
    {
        Initializer(false)
    }

    pub fn should_initialize(&self) -> (r: bool)
        ensures
            r == self.initializes(),
    {
        self.0
    }

    /// Fills `buf` with default values, if initialization is needed.
    pub fn initialize<T: Default>(&self, buf: &mut [T])
        ensures
            final(buf)@.len() == old(buf)@.len(),
            !self.initializes() ==> final(buf)@ == old(buf)@,
    {
        if self.should_initialize() {
            let mut i: usize = 0;
            while i < buf.len()
                invariant
                    i <= buf@.len(),
                    buf@.len() == old(buf)@.len(),
                decreases buf@.len() - i,
            {
                buf[i] = T::default();
                i = i + 1;
            }
        }
    }
}

/// A source of items of type `T`.
pub trait Read<T: Default>: Sized {
    /// A bound on the number of further calls of `read` that deliver items
    /// or are interrupted; a reader that keeps this bound at 0 only ever
    /// reports the end of its items or a failure other than an interruption.
    open spec fn budget(&self) -> nat {
        0
    }

    /// Reads items into the front of `buf`; returns how many.
    fn read(&mut self, buf: &mut [T]) -> (r: Result<usize, ReadError>)
        ensures
            final(buf)@.len() == old(buf)@.len(),
            r is Ok ==> r->Ok_0 <= old(buf)@.len(),
            final(self).budget() <= old(self).budget(),
            (r is Ok && r->Ok_0 > 0) || r == Err::<usize, ReadError>(ReadError::Interrupted)
                ==> final(self).budget() < old(self).budget(),
    ;

    /// Whether buffers handed to `read` have to be initialized.
    fn initializer(&self) -> (r: Initializer)
        ensures
            r.initializes(),
    {
        Initializer::zeroing()
    }

    /// Reads until the source is exhausted, appending to `buf`; returns how
    /// many items were appended.
    fn read_to_end(&mut self, buf: &mut Vec<T>) -> (r: Result<usize, ReadError>)
        requires
            vstd::layout::size_of::<T>() > 0,
        ensures
            final(buf)@.len() >= old(buf)@.len(),
            final(buf)@.subrange(0, old(buf)@.len() as int) == old(buf)@,
            r is Ok ==> final(buf)@.len() == old(buf)@.len() + r->Ok_0,
            r is Err ==> r != Err::<usize, ReadError>(ReadError::Interrupted),
    {
        let start_len = buf.len();
        let mut spare: Vec<T> = Vec::new();
        let mut new_write_size: usize = 16;
        let unit = core::mem::size_of::<T>();
        let mut ret: Result<usize, ReadError> = Ok(0);
        loop
            invariant
                start_len == old(buf)@.len(),
                start_len <= buf@.len(),
                buf@.subrange(0, start_len as int) == old(buf)@,
                16 <= new_write_size <= 2 * DEFAULT_BUF_SIZE,
                unit > 0,
            ensures
                start_len <= buf@.len(),
                buf@.subrange(0, start_len as int) == old(buf)@,
                ret is Ok ==> buf@.len() == start_len + ret->Ok_0,
                ret is Err ==> ret != Err::<usize, ReadError>(ReadError::Interrupted),
            decreases self.budget(),
        {
            if spare.len() == 0 {
                if new_write_size < DEFAULT_BUF_SIZE / unit {
                    new_write_size = new_write_size * 2;
                }
                let mut k: usize = 0;
                while k < new_write_size
                    invariant
                        k <= new_write_size,
                    decreases new_write_size - k,
                {
                    spare.push(T::default());
                    k = k + 1;
                }
            }
            let got = self.read(spare.as_mut_slice());
            match got {
                Ok(0) => {
                    ret = Ok(buf.len() - start_len);
                    break;
                },
                Ok(n) => {
                    let ghost before = buf@;
                    let mut rest = spare.split_off(n);
                    buf.append(&mut spare);
                    spare = rest;
                    assert(buf@.subrange(0, start_len as int) =~= before.subrange(0, start_len as int));
                },
                Err(ReadError::Interrupted) => {},
                Err(e) => {
                    ret = Err(e);
                    break;
                },
            }
        }
        ret
    }

    /// Fills `buf` completely, or fails.
    fn read_exact(&mut self, buf: &mut [T]) -> (r: Result<(), ReadError>)
        ensures
            final(buf)@.len() == old(buf)@.len(),
            r is Err ==> r != Err::<(), ReadError>(ReadError::Interrupted),
    {
        let mut pos: usize = 0;
        loop
            invariant
                pos <= buf@.len(),
                buf@.len() == old(buf)@.len(),
            ensures
                pos <= buf@.len(),
                buf@.len() == old(buf)@.len(),
            decreases self.budget(),
        {
            if pos == buf.len() {
                break;
            }
            let (head, rest) = buf.split_at_mut(pos);
            match self.read(rest) {
                Ok(0) => {
                    break;
                },
                Ok(n) => {
                    pos = pos + n;
                },
                Err(ReadError::Interrupted) => {},
                Err(e) => {
                    return Err(e);
                },
            }
        }
        if pos < buf.len() {
            Err(ReadError::UnexpectedEof)
        } else {
            Ok(())
        }
    }

    /// The reader itself.
    fn by_ref(&mut self) -> (r: &mut Self)
        ensures
            *r == *old(self),
            *final(self) == *final(r),
    {
        self
    }

    /// This reader, then `next`.
    fn chain<R>(self, next: R) -> (r: Chain<Self, R>)
        ensures
            r.first_reader() == self,
            r.second_reader() == next,
            !r.first_done(),
    {
        Chain { first: self, second: next, done_first: false }
    }

    /// At most `limit` items of this reader.
    fn take(self, limit: u64) -> (r: Take<Self>)
        ensures
            r.inner_reader() == self,
            r.spec_limit() == limit,
    {
        Take { inner: self, limit }
    }
}

/// One reader after another.
pub struct Chain<T, U> {
    first: T,
    second: U,
    done_first: bool,
}

impl<T, U> Chain<T, U> {
    pub closed spec fn first_reader(&self) -> T {
        self.first
    }

    pub closed spec fn second_reader(&self) -> U {
        self.second
    }

    pub closed spec fn first_done(&self) -> bool {
        self.done_first
    }

    pub fn into_inner(self) -> (r: (T, U))
        ensures
            r == (self.first_reader(), self.second_reader()),
    {
        (self.first, self.second)
    }

    pub fn get_ref(&self) -> (r: (&T, &U))
        ensures
            *r.0 == self.first_reader(),
            *r.1 == self.second_reader(),
    {
        (&self.first, &self.second)
    }

    pub fn get_mut(&mut self) -> (r: (&mut T, &mut U))
        ensures
            *r.0 == old(self).first_reader(),
            *r.1 == old(self).second_reader(),
            final(self).first_reader() == *final(r.0),
            final(self).second_reader() == *final(r.1),
            final(self).first_done() == old(self).first_done(),
    {
        (&mut self.first, &mut self.second)
    }
}

impl<I: Default, T: Read<I>, U: Read<I>> Read<I> for Chain<T, U> {
    open spec fn budget(&self) -> nat {
        self.first_reader().budget() + self.second_reader().budget() + if self.first_done() {
            0nat
        } else {
            1nat
        }
    }

    fn read(&mut self, buf: &mut [I]) -> (r: Result<usize, ReadError>) {
        proof {
            assert(old(self).budget() == old(self).first.budget() + old(self).second.budget() + if old(
                self,
            ).done_first {
                0nat
            } else {
                1nat
            });
        }
        if !self.done_first {
            match self.first.read(buf) {
                Ok(0) => {
                    if buf.len() != 0 {
                        self.done_first = true;
                    } else {
                        proof {
                            assert(self.budget() == self.first.budget() + self.second.budget() + 1);
                        }
                        return Ok(0);
                    }
                },
                Ok(n) => {
                    proof {
                        assert(self.budget() == self.first.budget() + self.second.budget() + 1);
                    }
                    return Ok(n);
                },
                Err(e) => {
                    proof {
                        assert(self.budget() == self.first.budget() + self.second.budget() + 1);
                    }
                    return Err(e);
                },
            }
        }
        let r = self.second.read(buf);
        proof {
            assert(self.budget() == self.first.budget() + self.second.budget());
        }
        r
    }

    fn initializer(&self) -> (r: Initializer) {
        let initializer = self.first.initializer();
        if initializer.should_initialize() {
            initializer
        } else {
            self.second.initializer()
        }
    }
}

/// At most `limit` more items of a reader.
#[derive(Debug)]
pub struct Take<T> {
    inner: T,
    limit: u64,
}

impl<T> Take<T> {
    pub closed spec fn inner_reader(&self) -> T {
        self.inner
    }

    pub closed spec fn spec_limit(&self) -> u64 {
        self.limit
    }

    pub fn limit(&self) -> (r: u64)
        ensures
            r == self.spec_limit(),
    {
        self.limit
    }

    pub fn set_limit(&mut self, limit: u64)
        ensures
            final(self).spec_limit() == limit,
            final(self).inner_reader() == old(self).inner_reader(),
    {
        self.limit = limit;
    }

    pub fn into_inner(self) -> (r: T)
        ensures
            r == self.inner_reader(),
    {
        self.inner
    }

    pub fn get_ref(&self) -> (r: &T)
        ensures
            *r == self.inner_reader(),
    {
        &self.inner
    }

    pub fn get_mut(&mut self) -> (r: &mut T)
        ensures
            *r == old(self).inner_reader(),
            final(self).inner_reader() == *final(r),
            final(self).spec_limit() == old(self).spec_limit(),
    {
        &mut self.inner
    }
}

impl<I: Default, T: Read<I>> Read<I> for Take<T> {
    open spec fn budget(&self) -> nat {
        self.inner_reader().budget()
    }

    fn read(&mut self, buf: &mut [I]) -> (r: Result<usize, ReadError>)
        ensures
            old(self).spec_limit() == 0 ==> r == Ok::<usize, ReadError>(0),
            r is Ok ==> r->Ok_0 <= old(self).spec_limit() && final(self).spec_limit()
                == old(self).spec_limit() - r->Ok_0,
    {
        if self.limit == 0 {
            proof {
                assert(self.budget() == self.inner.budget());
            }
            return Ok(0);
        }
        let max: usize = if (buf.len() as u64) < self.limit {
            buf.len()
        } else {
            self.limit as usize
        };
        let (head, tail) = buf.split_at_mut(max);
        let r = self.inner.read(head);
        proof {
            assert(self.budget() == self.inner.budget());
            assert(old(self).budget() == old(self).inner.budget());
        }
        match r {
            Ok(n) => {
                self.limit = self.limit - n as u64;
                Ok(n)
            },
            Err(e) => Err(e),
        }
    }

    fn initializer(&self) -> (r: Initializer) {
        self.inner.initializer()
    }
}

impl<'a, T: Clone + Default> Read<T> for &'a [T] {
    open spec fn budget(&self) -> nat {
        (*self)@.len()
    }

    fn read(&mut self, buf: &mut [T]) -> (r: Result<usize, ReadError>)
        ensures
            ({
                let amt = if old(buf)@.len() < (*old(self))@.len() {
                    old(buf)@.len()
                } else {
                    (*old(self))@.len()
                };
                &&& r == Ok::<usize, ReadError>(amt as usize)
                &&& (*final(self))@ == (*old(self))@.skip(amt as int)
                &&& forall|i: int| 0 <= i < amt ==> cloned(#[trigger] (*old(self))@[i], final(buf)@[i])
                &&& forall|i: int| amt <= i < old(buf)@.len() ==> #[trigger] final(buf)@[i] == old(buf)@[i]
            }),
    {
        let amt = if buf.len() < self.len() {
            buf.len()
        } else {
            self.len()
        };
        let (a, b) = self.split_at(amt);
        let mut i: usize = 0;
        while i < amt
            invariant
                i <= amt,
                amt <= buf@.len(),
                buf@.len() == old(buf)@.len(),
                amt <= (*old(self))@.len(),
                a@.len() == amt,
                a@ == (*old(self))@.subrange(0, amt as int),
                forall|j: int| 0 <= j < i ==> cloned(#[trigger] a@[j], buf@[j]),
                forall|j: int| i <= j < buf@.len() ==> #[trigger] buf@[j] == old(buf)@[j],
            decreases amt - i,
        {
            buf[i] = a[i].clone();
            i = i + 1;
        }
        *self = b;
        proof {
            assert((*self)@ =~= (*old(self))@.skip(amt as int));
            assert forall|j: int| 0 <= j < amt implies cloned((*old(self))@[j], buf@[j]) by {
                assert(a@[j] == (*old(self))@[j]);
                assert(cloned(a@[j], buf@[j]));
            }
            assert(self.budget() == (*self)@.len());
            assert(old(self).budget() == (*old(self))@.len());
        }
        Ok(amt)
    }
}

impl<T: Clone + Default> Read<T> for Vec<T> {
    open spec fn budget(&self) -> nat {
        self@.len()
    }

    fn read(&mut self, buf: &mut [T]) -> (r: Result<usize, ReadError>)
        ensures
            ({
                let amt = if old(buf)@.len() < old(self)@.len() {
                    old(buf)@.len()
                } else {
                    old(self)@.len()
                };
                &&& r == Ok::<usize, ReadError>(amt as usize)
                &&& final(self)@ == old(self)@.skip(amt as int)
                &&& forall|i: int| 0 <= i < amt ==> cloned(#[trigger] old(self)@[i], final(buf)@[i])
                &&& forall|i: int| amt <= i < old(buf)@.len() ==> #[trigger] final(buf)@[i] == old(buf)@[i]
            }),
    {
        let amt = if buf.len() < self.len() {
            buf.len()
        } else {
            self.len()
        };
        let mut i: usize = 0;
        while i < amt
            invariant
                i <= amt,
                amt <= buf@.len(),
                amt <= self@.len(),
                buf@.len() == old(buf)@.len(),
                *self == *old(self),
                forall|j: int| 0 <= j < i ==> cloned(#[trigger] self@[j], buf@[j]),
                forall|j: int| i <= j < buf@.len() ==> #[trigger] buf@[j] == old(buf)@[j],
            decreases amt - i,
        {
            buf[i] = self[i].clone();
            i = i + 1;
        }
        let rest = self.split_off(amt);
        *self = rest;
        proof {
            assert(self.budget() == self@.len());
            assert(old(self).budget() == old(self)@.len());
        }
        Ok(amt)
    }
}

} // verus!
