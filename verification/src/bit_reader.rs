use vstd::prelude::*;
use crate::bit_vector::{bit32, bit8, bits_lsb, bits_msb, bytes_lsb, bytes_msb, fits, lemma_bytes_bits_first, BitVector};

verus! {

/// Why a bit reader refused a request.
#[derive(Clone, Copy, Debug, PartialEq, Eq, Structural)]
pub enum BitIoError {
    /// More bits were asked for than the 32-bit buffer can hold.
    LenTooLong,
    /// The bytes ran out before the bits asked for.
    UnexpectedEof,
}

/// An in-memory source of bytes, read front to back.
pub struct ByteSource {
    bytes: Vec<u8>,
    pos: usize,
}

impl ByteSource {
    #[verifier::type_invariant]
    spec fn inv(&self) -> bool {
        self.pos <= self.bytes@.len()
    }

    /// The bytes not read yet.
    pub closed spec fn remaining(&self) -> Seq<u8> {
        self.bytes@.subrange(self.pos as int, self.bytes@.len() as int)
    }

    /// Every byte of the source, read or not.
    pub closed spec fn spec_bytes(&self) -> Seq<u8> {
        self.bytes@
    }

    /// How many bytes have been read.
    pub closed spec fn spec_pos(&self) -> nat {
        self.pos as nat
    }

    /// How many bytes have been read.
    pub fn pos(&self) -> (r: usize)
        ensures
            r == self.spec_pos(),
            r <= self.spec_bytes().len(),
            self.remaining() == self.spec_bytes().subrange(r as int, self.spec_bytes().len() as int),
    {
        proof {
            use_type_invariant(self);
        }
        self.pos
    }

    /// Byte `i` of the source, read or not.
    pub fn byte_at(&self, i: usize) -> (r: u8)
        requires
            i < self.spec_bytes().len(),
        ensures
            r == self.spec_bytes()[i as int],
    {
        self.bytes[i]
    }

    pub fn new(bytes: Vec<u8>) -> (r: Self)
        ensures
            r.remaining() == bytes@,
            r.spec_bytes() == bytes@,
            r.spec_pos() == 0,
    {
        let r = ByteSource { bytes, pos: 0 };
        assert(r.remaining() =~= r.bytes@);
        r
    }

    /// Takes the next byte, if there is one.
    pub fn read_byte(&mut self) -> (r: Option<u8>)
        ensures
            old(self).remaining().len() == 0 ==> r is None && final(self).remaining() == old(self).remaining(),
            old(self).remaining().len() > 0 ==> r == Some(old(self).remaining()[0])
                && final(self).remaining() == old(self).remaining().skip(1),
            final(self).spec_bytes() == old(self).spec_bytes(),
    {
        proof {
            use_type_invariant(&*self);
        }
        if self.pos < self.bytes.len() {
            let b = self.bytes[self.pos];
            self.pos = self.pos + 1;
            assert(self.remaining() =~= old(self).remaining().skip(1));
            Some(b)
        } else {
            None
        }
    }

    /// How many bytes are left.
    pub fn remaining_len(&self) -> (r: usize)
        ensures
            r == self.remaining().len(),
    {
        proof {
            use_type_invariant(self);
        }
        self.bytes.len() - self.pos
    }

    /// The bytes not read yet, as a vector.
    pub fn to_vec(&self) -> (r: Vec<u8>)
        ensures
            r@ == self.remaining(),
    {
        proof {
            use_type_invariant(self);
        }
        let mut r: Vec<u8> = Vec::new();
        let mut i = self.pos;
        while i < self.bytes.len()
            invariant
                self.pos <= i <= self.bytes@.len(),
                r@ == self.bytes@.subrange(self.pos as int, i as int),
            decreases self.bytes@.len() - i,
        {
            r.push(self.bytes[i]);
            i = i + 1;
            assert(r@ =~= self.bytes@.subrange(self.pos as int, i as int));
        }
        r
    }
}

/// What filling the buffer of a reader that reads the most significant bit
/// of each byte first does for a request of `len` bits, with `c` bits
/// pending and `avail` bytes left: the number of bits pending afterwards,
/// and whether the request is refused as too long.
pub open spec fn left_fill(c: nat, avail: nat, len: nat) -> (nat, bool)
    decreases avail,
{
    if len <= c {
        (c, false)
    } else if c > 24 {
        (c, true)
    } else if avail == 0 {
        (c, false)
    } else {
        left_fill(c + 8, (avail - 1) as nat, len)
    }
}

/// The same for a reader that reads the least significant bit of each byte
/// first; it stops one byte earlier.
pub open spec fn right_fill(c: nat, avail: nat, len: nat) -> (nat, bool)
    decreases avail,
{
    if len <= c {
        (c, false)
    } else if c >= 24 {
        (c, true)
    } else if avail == 0 {
        (c, false)
    } else {
        right_fill(c + 8, (avail - 1) as nat, len)
    }
}

/// How many fresh bytes skipping `len` bits takes when `c` bits are pending.
pub open spec fn skip_bytes(c: nat, len: nat) -> nat {
    if len <= c {
        0
    } else {
        ((len - c + 7) / 8) as nat
    }
}

proof fn lemma_fill_bounds(c: nat, avail: nat, len: nat)
    ensures
        left_fill(c, avail, len).0 >= c,
        (left_fill(c, avail, len).0 - c) % 8 == 0,
        left_fill(c, avail, len).0 <= c + 8 * avail,
        c <= 32 ==> left_fill(c, avail, len).0 <= 32,
        right_fill(c, avail, len).0 >= c,
        (right_fill(c, avail, len).0 - c) % 8 == 0,
        right_fill(c, avail, len).0 <= c + 8 * avail,
        c <= 31 ==> right_fill(c, avail, len).0 <= 31,
    decreases avail,
{
    if avail > 0 {
        lemma_fill_bounds(c + 8, (avail - 1) as nat, len);
    }
}

/// What filling gives: unless refused, enough bits for the request or all
/// there are; and nothing only from an empty reader.
pub proof fn lemma_fill_result(c: nat, avail: nat, len: nat)
    ensures
        !left_fill(c, avail, len).1 ==> left_fill(c, avail, len).0 >= len || left_fill(c, avail, len).0
            == c + 8 * avail,
        !right_fill(c, avail, len).1 ==> right_fill(c, avail, len).0 >= len || right_fill(c, avail, len).0
            == c + 8 * avail,
        left_fill(c, avail, len).0 >= c,
        right_fill(c, avail, len).0 >= c,
        len > 0 && left_fill(c, avail, len).0 == 0 ==> c == 0 && avail == 0,
        len > 0 && right_fill(c, avail, len).0 == 0 ==> c == 0 && avail == 0,
        len <= 25 ==> !left_fill(c, avail, len).1,
        len <= 24 ==> !right_fill(c, avail, len).1,
        left_fill(c, avail, len).0 <= c + 8 * avail,
        right_fill(c, avail, len).0 <= c + 8 * avail,
    decreases avail,
{
    lemma_fill_bounds(c, avail, len);
    if avail > 0 {
        lemma_fill_result(c + 8, (avail - 1) as nat, len);
    }
}

/// Bit facts about the buffer of a reader that keeps its pending bits at
/// the top of a 32-bit word, the rest of the word clear.
proof fn lemma_left_word(buf: u32, c: u32, d: u32, b: u8, l: u32, i: u32)
    by (bit_vector)
    requires
        c <= 32,
        i < 32,
        ((buf as u64) << (c as u64)) & 0xFFFF_FFFFu64 == 0,
    ensures
        c <= d <= 32 ==> ((buf as u64) << (d as u64)) & 0xFFFF_FFFFu64 == 0,
        c <= 24 ==> (((buf | ((b as u32) << ((24 - c) as u32))) >> ((31 - i) as u32)) & 1 == 1) == (if i
            < c {
            (buf >> ((31 - i) as u32)) & 1 == 1
        } else if i < c + 8 {
            (b >> ((7 + c - i) as u8)) & 1 == 1
        } else {
            false
        }),
        c <= 24 ==> ((((buf | ((b as u32) << ((24 - c) as u32))) as u64) << ((c + 8) as u64))
            & 0xFFFF_FFFFu64) == 0,
        l <= c && l < 32 ==> (((buf << l) >> ((31 - i) as u32)) & 1 == 1) == (i + l < 32 && (buf >> ((31
            - i - l) as u32)) & 1 == 1),
        l <= c && l < 32 ==> ((((buf << l) as u64) << ((c - l) as u64)) & 0xFFFF_FFFFu64) == 0,
        1 <= l <= 32 && i < l ==> (((buf >> ((32 - l) as u32)) >> ((l - 1 - i) as u32)) & 1 == 1) == ((
        buf >> ((31 - i) as u32)) & 1 == 1),
        1 <= l <= 32 && l <= i ==> ((buf >> ((32 - l) as u32)) >> i) & 1 != 1,
        (0u32 | ((b as u32) << 24u32)) == ((b as u32) << 24u32),
{
}

/// The empty word has no bit set, in either layout.
pub(crate) proof fn lemma_zero_word(d: u32, i: u32)
    by (bit_vector)
    ensures
        d <= 32 ==> ((0u32 as u64) << (d as u64)) & 0xFFFF_FFFFu64 == 0,
        d <= 32 ==> (0u32 as u64) >> (d as u64) == 0,
        (0u32 >> i) & 1 != 1,
{
}

/// Bit facts about the buffer of a reader that keeps its pending bits at
/// the bottom of a 32-bit word, the rest of the word clear.
proof fn lemma_right_word(buf: u32, c: u32, d: u32, b: u8, l: u32, i: u32)
    by (bit_vector)
    requires
        c <= 32,
        i < 32,
        (buf as u64) >> (c as u64) == 0,
    ensures
        c <= d <= 32 ==> (buf as u64) >> (d as u64) == 0,
        c <= 24 ==> (((buf | ((b as u32) << c)) >> i) & 1 == 1) == (if i < c {
            (buf >> i) & 1 == 1
        } else if i < c + 8 {
            (b >> ((i - c) as u8)) & 1 == 1
        } else {
            false
        }),
        c <= 24 ==> ((buf | ((b as u32) << c)) as u64) >> ((c + 8) as u64) == 0,
        l <= c && l < 32 ==> (((buf >> l) >> i) & 1 == 1) == (i + l < 32 && (buf >> ((i + l) as u32))
            & 1 == 1),
        l <= c && l < 32 ==> ((buf >> l) as u64) >> ((c - l) as u64) == 0,
        l < 32 ==> (((buf & (((1u32 << l) - 1) as u32)) >> i) & 1 == 1) == (i < l && (buf >> i) & 1 == 1),
        l < 32 ==> (1u32 << l) >= 1,
        (0u32 | ((b as u32) << 0u32)) == (b as u32),
{
}

/// Reading bits from a reader.
pub trait BitReader: Sized {
    /// The bits still to be read: those in the buffer, then those of the
    /// bytes not taken from the source yet.
    spec fn stream(&self) -> Seq<bool>;

    /// The source is still attached.
    spec fn has_inner(&self) -> bool;

    /// `peek(len)` can run without a fault.
    spec fn peek_allowed(&self, len: usize) -> bool;

    /// `read(len)` can run without a fault.
    spec fn read_allowed(&self, len: usize) -> bool;

    /// `skip(len)` can run without a fault.
    spec fn skip_allowed(&self, len: usize) -> bool;

    /// Takes up to `len` bits.
    fn read(&mut self, len: usize) -> (r: Result<BitVector, BitIoError>)
        requires
            old(self).read_allowed(len),
        ensures
            r is Ok ==> final(self).stream() == old(self).stream().skip(r->Ok_0.spec_len() as int),
            r is Err ==> final(self).stream() == old(self).stream(),
            final(self).has_inner() == old(self).has_inner(),
    ;

    /// Looks at up to `len` bits without taking them.
    fn peek(&mut self, len: usize) -> (r: Result<BitVector, BitIoError>)
        requires
            old(self).peek_allowed(len),
        ensures
            final(self).stream() == old(self).stream(),
            final(self).has_inner() == old(self).has_inner(),
    ;

    /// Drops `len` bits.
    fn skip(&mut self, len: usize) -> (r: Result<usize, BitIoError>)
        requires
            old(self).skip_allowed(len),
        ensures
            r is Ok <==> len <= old(self).stream().len(),
            r is Ok ==> r == Ok::<usize, BitIoError>(len) && final(self).stream() == old(self).stream().skip(len as int),
            r is Err ==> r == Err::<usize, BitIoError>(BitIoError::UnexpectedEof) && final(self).stream().len() == 0,
            final(self).has_inner() == old(self).has_inner(),
    ;

    /// Drops the bits up to the next byte boundary of the source.
    fn skip_to_byte(&mut self) -> (r: Result<usize, BitIoError>)
        ensures
            r is Ok,
            final(self).stream() == old(self).stream().skip(r->Ok_0 as int),
            final(self).has_inner() == old(self).has_inner(),
    ;

    /// Detaches the source, after dropping the bits up to the next byte
    /// boundary.
    fn into_inner(&mut self) -> (r: Result<ByteSource, BitIoError>)
        requires
            old(self).has_inner(),
        ensures
            r is Ok,
            !final(self).has_inner(),
    ;
}

/// Up to 32 pending bits, kept at the top of a word, the rest of it clear.
struct LeftWindow {
    buf: u32,
    counter: usize,
}

impl LeftWindow {
    #[verifier::type_invariant]
    spec fn inv(&self) -> bool {
        &&& self.counter <= 32
        &&& ((self.buf as u64) << (self.counter as u64)) & 0xFFFF_FFFFu64 == 0
    }

    spec fn bits(&self) -> Seq<bool> {
        Seq::new(self.counter as nat, |i: int| bit32(self.buf, 31 - i))
    }

    fn empty() -> (r: Self)
        ensures
            r.bits() == Seq::<bool>::empty(),
    {
        proof {
            lemma_zero_word(0, 0);
        }
        let r = LeftWindow { buf: 0, counter: 0 };
        assert(r.bits() =~= Seq::<bool>::empty());
        r
    }

    fn len(&self) -> (r: usize)
        ensures
            r == self.bits().len(),
            r <= 32,
    {
        proof {
            use_type_invariant(self);
        }
        self.counter
    }

    /// Appends the bits of `b`, most significant first.
    fn push(&mut self, b: u8)
        requires
            old(self).bits().len() <= 24,
        ensures
            final(self).bits() == old(self).bits() + bytes_msb(seq![b]),
    {
        proof {
            use_type_invariant(&*self);
        }
        let c = self.counter;
        proof {
            lemma_left_word(self.buf, c as u32, 0, b, 0, 0);
        }
        let next = LeftWindow { buf: self.buf | ((b as u32) << ((24 - c) as u32)), counter: c + 8 };
        proof {
            let p = next.bits();
            let q = self.bits() + bytes_msb(seq![b]);
            assert forall|i: int| 0 <= i < p.len() implies p[i] == q[i] by {
                lemma_left_word(self.buf, c as u32, 0, b, 0, i as u32);
                if c <= i {
                    assert((i - c) / 8 == 0 && (i - c) % 8 == i - c);
                }
            }
            assert(p =~= q);
        }
        *self = next;
    }

    /// Drops the first `l` bits.
    fn drop_front(&mut self, l: usize)
        requires
            l <= old(self).bits().len(),
            l < 32,
        ensures
            final(self).bits() == old(self).bits().skip(l as int),
    {
        proof {
            use_type_invariant(&*self);
            lemma_left_word(self.buf, self.counter as u32, 0, 0, l as u32, 0);
        }
        let next = LeftWindow { buf: self.buf << (l as u32), counter: self.counter - l };
        proof {
            let p = next.bits();
            let q = self.bits().skip(l as int);
            assert forall|i: int| 0 <= i < p.len() implies p[i] == q[i] by {
                lemma_left_word(self.buf, self.counter as u32, 0, 0, l as u32, i as u32);
            }
            assert(p =~= q);
        }
        *self = next;
    }

    /// The value of the first `l` bits.
    fn front(&self, l: usize) -> (r: BitVector)
        requires
            1 <= l <= self.bits().len(),
        ensures
            r.spec_len() == l,
            bits_msb(r.spec_data(), l as nat) == self.bits().take(l as int),
            fits(r.spec_data(), l as nat),
    {
        proof {
            use_type_invariant(self);
        }
        let v = self.buf >> ((32 - l) as u32);
        proof {
            assert forall|i: int| 0 <= i < l implies bits_msb(v, l as nat)[i] == self.bits().take(
                l as int,
            )[i] by {
                lemma_left_word(self.buf, self.counter as u32, 0, 0, l as u32, i as u32);
            }
            assert(bits_msb(v, l as nat) =~= self.bits().take(l as int));
            assert forall|i: int| l <= i < 32 implies !#[trigger] bit32(v, i) by {
                lemma_left_word(self.buf, self.counter as u32, 0, 0, l as u32, i as u32);
            }
        }
        BitVector::new(v, l)
    }
}

/// The empty run of bits.
fn empty_bits() -> (r: BitVector)
    ensures
        r.spec_len() == 0,
        r.spec_data() == 0,
        fits(r.spec_data(), 0),
        bits_msb(r.spec_data(), 0) == Seq::<bool>::empty(),
        bits_lsb(r.spec_data(), 0) == Seq::<bool>::empty(),
{
    proof {
        assert forall|i: int| 0 <= i < 32 implies !#[trigger] bit32(0, i) by {
            lemma_zero_word(0, i as u32);
        }
        assert(bits_msb(0, 0) =~= Seq::<bool>::empty());
        assert(bits_lsb(0, 0) =~= Seq::<bool>::empty());
    }
    BitVector::new(0, 0)
}

/// Reads the bits of each byte from the most significant one down.
pub struct LeftBitReader {
    inner: ByteSource,
    attached: bool,
    window: LeftWindow,
}

impl LeftBitReader {
    /// The bits taken from the source but not read yet.
    pub closed spec fn pending(&self) -> Seq<bool> {
        self.window.bits()
    }

    /// The bytes not taken from the source yet.
    pub closed spec fn source(&self) -> Seq<u8> {
        self.inner.remaining()
    }

    pub closed spec fn attached(&self) -> bool {
        self.attached
    }

    /// The source itself.
    pub closed spec fn inner_source(&self) -> ByteSource {
        self.inner
    }

    pub open spec fn bits(&self) -> Seq<bool> {
        self.pending() + bytes_msb(self.source())
    }

    pub fn new(inner: ByteSource) -> (r: Self)
        ensures
            r.pending().len() == 0,
            r.source() == inner.remaining(),
            r.attached(),
            r.inner_source() == inner,
    {
        LeftBitReader { inner, attached: true, window: LeftWindow::empty() }
    }

    pub fn get_ref(&self) -> (r: &ByteSource)
        requires
            self.attached(),
        ensures
            *r == self.inner_source(),
    {
        &self.inner
    }

    pub fn get_mut(&mut self) -> (r: &mut ByteSource)
        requires
            old(self).attached(),
        ensures
            *r == old(self).inner_source(),
            final(self).inner_source() == *final(r),
            final(self).pending() == old(self).pending(),
            final(self).attached(),
    {
        &mut self.inner
    }
}

impl BitReader for LeftBitReader {
    open spec fn stream(&self) -> Seq<bool> {
        self.bits()
    }

    open spec fn has_inner(&self) -> bool {
        self.attached()
    }

    open spec fn peek_allowed(&self, len: usize) -> bool {
        &&& 0 < len
        &&& self.attached() || len <= self.pending().len() || self.pending().len() > 24
    }

    open spec fn read_allowed(&self, len: usize) -> bool {
        &&& self.peek_allowed(len)
        &&& !(len >= 32 && left_fill(self.pending().len(), self.source().len(), len as nat) == (
            32nat,
            false,
        ))
    }

    open spec fn skip_allowed(&self, len: usize) -> bool {
        &&& self.attached() || len <= self.pending().len()
        &&& !(len == 32 && self.pending().len() == 32)
    }

    fn read(&mut self, len: usize) -> (r: Result<BitVector, BitIoError>)
        ensures
            ({
                let f = left_fill(old(self).pending().len(), old(self).source().len(), len as nat);
                let l = if len <= f.0 { len as nat } else { f.0 };
                &&& f.1 ==> r == Err::<BitVector, BitIoError>(BitIoError::LenTooLong)
                    && final(self).pending().len() == f.0
                &&& !f.1 ==> r is Ok && r->Ok_0.spec_len() == l && bits_msb(r->Ok_0.spec_data(), l)
                    == old(self).bits().take(l as int) && fits(r->Ok_0.spec_data(), l)
                    && final(self).pending().len() == f.0 - l
                &&& final(self).source() == old(self).source().skip(
                    (f.0 - old(self).pending().len()) / 8,
                )
            }),
    {
        proof {
            use_type_invariant(&self.window);
            lemma_fill_bounds(old(self).pending().len(), old(self).source().len(), len as nat);
        }
        let r = self.peek(len);
        match &r {
            Ok(v) => {
                let ghost before = *self;
                self.window.drop_front(v.len());
                proof {
                    assert(self.bits() =~= before.bits().skip(v.spec_len() as int));
                }
            },
            Err(_) => {},
        }
        r
    }

    fn peek(&mut self, len: usize) -> (r: Result<BitVector, BitIoError>)
        ensures
            ({
                let f = left_fill(old(self).pending().len(), old(self).source().len(), len as nat);
                let l = if len <= f.0 { len as nat } else { f.0 };
                &&& final(self).pending().len() == f.0
                &&& final(self).source() == old(self).source().skip(
                    (f.0 - old(self).pending().len()) / 8,
                )
                &&& f.1 ==> r == Err::<BitVector, BitIoError>(BitIoError::LenTooLong)
                &&& !f.1 ==> r is Ok && r->Ok_0.spec_len() == l && bits_msb(r->Ok_0.spec_data(), l)
                    == old(self).bits().take(l as int) && fits(r->Ok_0.spec_data(), l)
            }),
    {
        let ghost c0 = self.pending().len();
        let ghost src0 = self.source();
        let ghost goal = left_fill(c0, src0.len(), len as nat);
        let ghost bits0 = self.bits();
        let mut eof = false;
        let ghost mut k: nat = 0;
        while len > self.window.len() && !eof
            invariant
                self.bits() == bits0,
                bits0 == old(self).bits(),
                src0 == old(self).source(),
                c0 == old(self).pending().len(),
                goal == left_fill(c0, src0.len(), len as nat),
                self.attached == old(self).attached,
                self.pending().len() == c0 + 8 * k,
                self.source() == src0.skip(k as int),
                k <= src0.len(),
                0 < len,
                eof ==> self.source().len() == 0 && 0 < self.pending().len() <= 24,
                left_fill(self.pending().len(), self.source().len(), len as nat) == goal,
            decreases self.source().len() + (if eof {
                0int
            } else {
                1int
            }),
        {
            if self.window.len() > 24 {
                return Err(BitIoError::LenTooLong);
            }
            let ghost before = *self;
            match self.inner.read_byte() {
                Some(b) => {
                    self.window.push(b);
                    proof {
                        lemma_bytes_bits_first(before.source());
                        assert(self.bits() =~= before.bits());
                        assert(src0.skip(k as int).skip(1) =~= src0.skip((k + 1) as int));
                        k = k + 1;
                    }
                },
                None => {
                    if self.window.len() == 0 {
                        let z = empty_bits();
                        proof {
                            assert(bits0.take(0) =~= Seq::<bool>::empty());
                        }
                        return Ok(z);
                    }
                    eof = true;
                },
            }
        }
        let n = self.window.len();
        let l = if len < n {
            len
        } else {
            n
        };
        let r = self.window.front(l);
        proof {
            assert(self.pending().take(l as int) =~= self.bits().take(l as int));
            assert((self.pending().len() - c0) / 8 == k as int);
        }
        Ok(r)
    }

    fn skip(&mut self, len: usize) -> (r: Result<usize, BitIoError>)
        ensures
            r is Ok ==> final(self).source() == old(self).source().skip(
                skip_bytes(old(self).pending().len(), len as nat) as int,
            ),
            len <= old(self).pending().len() ==> final(self).pending() == old(self).pending().skip(
                len as int,
            ),
    {
        let ghost bits0 = self.bits();
        let ghost src0 = self.source();
        let ghost c0 = self.pending().len();
        let ghost mut k: nat = 0;
        let mut rest = len;
        while rest > self.window.len()
            invariant
                self.attached == old(self).attached,
                rest <= len,
                len <= bits0.len() ==> self.bits().skip(rest as int) == bits0.skip(len as int),
                self.bits().len() + len == bits0.len() + rest,
                self.source() == src0.skip(k as int),
                k <= src0.len(),
                bits0 == old(self).bits(),
                src0 == old(self).source(),
                c0 == old(self).pending().len(),
                !(len == 32 && c0 == 32),
                k == 0 ==> rest == len && self.pending() == old(self).pending(),
                k > 0 ==> self.pending().len() == 8 && 0 < rest && rest + c0 + 8 * (k - 1) == len,
            decreases self.source().len(),
        {
            let ghost before = *self;
            let c = self.window.len();
            match self.inner.read_byte() {
                Some(b) => {
                    rest = rest - c;
                    let mut w = LeftWindow::empty();
                    w.push(b);
                    self.window = w;
                    proof {
                        assert(Seq::<bool>::empty() + bytes_msb(seq![b]) =~= bytes_msb(seq![b]));
                        lemma_bytes_bits_first(before.source());
                        assert(self.bits() =~= before.bits().skip(c as int));
                        if len <= bits0.len() {
                            assert(before.bits().skip(c as int).skip(rest as int) =~= before.bits().skip(
                                (rest + c) as int,
                            ));
                        }
                        assert(src0.skip(k as int).skip(1) =~= src0.skip((k + 1) as int));
                        k = k + 1;
                    }
                },
                None => {
                    self.window = LeftWindow::empty();
                    proof {
                        assert(self.bits() =~= Seq::<bool>::empty());
                    }
                    return Err(BitIoError::UnexpectedEof);
                },
            }
        }
        let ghost before = *self;
        self.window.drop_front(rest);
        proof {
            assert(self.bits() =~= before.bits().skip(rest as int));
            if k == 0 {
                assert(src0.skip(0) =~= src0);
            }
        }
        Ok(len)
    }

    fn skip_to_byte(&mut self) -> (r: Result<usize, BitIoError>)
        ensures
            r == Ok::<usize, BitIoError>((old(self).pending().len() % 8) as usize),
            final(self).source() == old(self).source(),
            final(self).pending() == old(self).pending().skip((old(self).pending().len() % 8) as int),
    {
        let s = self.window.len() % 8;
        proof {
            assert(self.source().skip(0) =~= self.source());
        }
        self.skip(s)
    }

    fn into_inner(&mut self) -> (r: Result<ByteSource, BitIoError>)
        ensures
            r->Ok_0.remaining() == old(self).source(),
            final(self).bits() == old(self).pending().skip((old(self).pending().len() % 8) as int),
    {
        let _ = self.skip_to_byte();
        let mut taken = ByteSource::new(Vec::new());
        std::mem::swap(&mut taken, &mut self.inner);
        self.attached = false;
        proof {
            assert(bytes_msb(self.source()) =~= Seq::<bool>::empty());
            assert(self.bits() =~= self.pending());
        }
        Ok(taken)
    }
}

/// Up to 31 pending bits, kept at the bottom of a word, the rest of it clear.
struct RightWindow {
    buf: u32,
    counter: usize,
}

impl RightWindow {
    #[verifier::type_invariant]
    spec fn inv(&self) -> bool {
        &&& self.counter <= 31
        &&& (self.buf as u64) >> (self.counter as u64) == 0
    }

    spec fn bits(&self) -> Seq<bool> {
        Seq::new(self.counter as nat, |i: int| bit32(self.buf, i))
    }

    fn empty() -> (r: Self)
        ensures
            r.bits() == Seq::<bool>::empty(),
    {
        proof {
            lemma_zero_word(0, 0);
        }
        let r = RightWindow { buf: 0, counter: 0 };
        assert(r.bits() =~= Seq::<bool>::empty());
        r
    }

    fn len(&self) -> (r: usize)
        ensures
            r == self.bits().len(),
            r <= 31,
    {
        proof {
            use_type_invariant(self);
        }
        self.counter
    }

    /// Appends the bits of `b`, least significant first.
    fn push(&mut self, b: u8)
        requires
            old(self).bits().len() < 24,
        ensures
            final(self).bits() == old(self).bits() + bytes_lsb(seq![b]),
    {
        proof {
            use_type_invariant(&*self);
        }
        let c = self.counter;
        proof {
            lemma_right_word(self.buf, c as u32, 0, b, 0, 0);
        }
        let next = RightWindow { buf: self.buf | ((b as u32) << (c as u32)), counter: c + 8 };
        proof {
            let p = next.bits();
            let q = self.bits() + bytes_lsb(seq![b]);
            assert forall|i: int| 0 <= i < p.len() implies p[i] == q[i] by {
                lemma_right_word(self.buf, c as u32, 0, b, 0, i as u32);
                if c <= i {
                    assert((i - c) / 8 == 0 && (i - c) % 8 == i - c);
                }
            }
            assert(p =~= q);
        }
        *self = next;
    }

    /// Drops the first `l` bits.
    fn drop_front(&mut self, l: usize)
        requires
            l <= old(self).bits().len(),
        ensures
            final(self).bits() == old(self).bits().skip(l as int),
    {
        proof {
            use_type_invariant(&*self);
            lemma_right_word(self.buf, self.counter as u32, 0, 0, l as u32, 0);
        }
        let next = RightWindow { buf: self.buf >> (l as u32), counter: self.counter - l };
        proof {
            let p = next.bits();
            let q = self.bits().skip(l as int);
            assert forall|i: int| 0 <= i < p.len() implies p[i] == q[i] by {
                lemma_right_word(self.buf, self.counter as u32, 0, 0, l as u32, i as u32);
            }
            assert(p =~= q);
        }
        *self = next;
    }

    /// The value of the first `l` bits.
    fn front(&self, l: usize) -> (r: BitVector)
        requires
            l <= self.bits().len(),
        ensures
            r.spec_len() == l,
            bits_lsb(r.spec_data(), l as nat) == self.bits().take(l as int),
            fits(r.spec_data(), l as nat),
    {
        proof {
            use_type_invariant(self);
            lemma_right_word(self.buf, self.counter as u32, 0, 0, l as u32, 0);
        }
        let v = self.buf & (((1u32 << (l as u32)) - 1) as u32);
        proof {
            assert forall|i: int| 0 <= i < l implies bits_lsb(v, l as nat)[i] == self.bits().take(
                l as int,
            )[i] by {
                lemma_right_word(self.buf, self.counter as u32, 0, 0, l as u32, i as u32);
            }
            assert(bits_lsb(v, l as nat) =~= self.bits().take(l as int));
            assert forall|i: int| l <= i < 32 implies !#[trigger] bit32(v, i) by {
                lemma_right_word(self.buf, self.counter as u32, 0, 0, l as u32, i as u32);
            }
        }
        BitVector::new(v, l)
    }
}

/// Reads the bits of each byte from the least significant one up.
pub struct RightBitReader {
    inner: ByteSource,
    attached: bool,
    window: RightWindow,
}

impl RightBitReader {
    /// The bits taken from the source but not read yet.
    pub closed spec fn pending(&self) -> Seq<bool> {
        self.window.bits()
    }

    /// The bytes not taken from the source yet.
    pub closed spec fn source(&self) -> Seq<u8> {
        self.inner.remaining()
    }

    pub closed spec fn attached(&self) -> bool {
        self.attached
    }

    /// The source itself.
    pub closed spec fn inner_source(&self) -> ByteSource {
        self.inner
    }

    pub open spec fn bits(&self) -> Seq<bool> {
        self.pending() + bytes_lsb(self.source())
    }

    pub fn new(inner: ByteSource) -> (r: Self)
        ensures
            r.pending().len() == 0,
            r.source() == inner.remaining(),
            r.attached(),
            r.inner_source() == inner,
    {
        RightBitReader { inner, attached: true, window: RightWindow::empty() }
    }

    pub fn get_ref(&self) -> (r: &ByteSource)
        requires
            self.attached(),
        ensures
            *r == self.inner_source(),
    {
        &self.inner
    }

    pub fn get_mut(&mut self) -> (r: &mut ByteSource)
        requires
            old(self).attached(),
        ensures
            *r == old(self).inner_source(),
            final(self).inner_source() == *final(r),
            final(self).pending() == old(self).pending(),
            final(self).attached(),
    {
        &mut self.inner
    }
}

impl BitReader for RightBitReader {
    open spec fn stream(&self) -> Seq<bool> {
        self.bits()
    }

    open spec fn has_inner(&self) -> bool {
        self.attached()
    }

    open spec fn peek_allowed(&self, len: usize) -> bool {
        self.attached() || len <= self.pending().len() || self.pending().len() >= 24
    }

    open spec fn read_allowed(&self, len: usize) -> bool {
        self.peek_allowed(len)
    }

    open spec fn skip_allowed(&self, len: usize) -> bool {
        self.attached() || len <= self.pending().len()
    }

    fn read(&mut self, len: usize) -> (r: Result<BitVector, BitIoError>)
        ensures
            ({
                let f = right_fill(old(self).pending().len(), old(self).source().len(), len as nat);
                let l = if len <= f.0 { len as nat } else { f.0 };
                &&& f.1 ==> r == Err::<BitVector, BitIoError>(BitIoError::LenTooLong)
                    && final(self).pending().len() == f.0
                &&& !f.1 && f.0 == 0 && len > 0 ==> r == Err::<BitVector, BitIoError>(
                    BitIoError::UnexpectedEof,
                ) && final(self).pending().len() == 0
                &&& !f.1 && (f.0 > 0 || len == 0) ==> r is Ok && r->Ok_0.spec_len() == l
                    && bits_lsb(r->Ok_0.spec_data(), l) == old(self).bits().take(l as int) && fits(
                    r->Ok_0.spec_data(),
                    l,
                ) && final(self).pending().len() == f.0 - l
                &&& final(self).source() == old(self).source().skip(
                    (f.0 - old(self).pending().len()) / 8,
                )
            }),
    {
        let r = self.peek(len);
        match &r {
            Ok(v) => {
                let ghost before = *self;
                self.window.drop_front(v.len());
                proof {
                    assert(self.bits() =~= before.bits().skip(v.spec_len() as int));
                }
            },
            Err(_) => {},
        }
        r
    }

    fn peek(&mut self, len: usize) -> (r: Result<BitVector, BitIoError>)
        ensures
            ({
                let f = right_fill(old(self).pending().len(), old(self).source().len(), len as nat);
                let l = if len <= f.0 { len as nat } else { f.0 };
                &&& final(self).pending().len() == f.0
                &&& final(self).source() == old(self).source().skip(
                    (f.0 - old(self).pending().len()) / 8,
                )
                &&& f.1 ==> r == Err::<BitVector, BitIoError>(BitIoError::LenTooLong)
                &&& !f.1 && f.0 == 0 && len > 0 ==> r == Err::<BitVector, BitIoError>(
                    BitIoError::UnexpectedEof,
                )
                &&& !f.1 && (f.0 > 0 || len == 0) ==> r is Ok && r->Ok_0.spec_len() == l
                    && bits_lsb(r->Ok_0.spec_data(), l) == old(self).bits().take(l as int) && fits(
                    r->Ok_0.spec_data(),
                    l,
                )
            }),
    {
        let ghost c0 = self.pending().len();
        let ghost src0 = self.source();
        let ghost goal = right_fill(c0, src0.len(), len as nat);
        let ghost bits0 = self.bits();
        let mut eof = false;
        let ghost mut k: nat = 0;
        while len > self.window.len() && !eof
            invariant
                self.bits() == bits0,
                bits0 == old(self).bits(),
                src0 == old(self).source(),
                c0 == old(self).pending().len(),
                goal == right_fill(c0, src0.len(), len as nat),
                self.attached == old(self).attached,
                self.pending().len() == c0 + 8 * k,
                self.source() == src0.skip(k as int),
                k <= src0.len(),
                eof ==> self.source().len() == 0 && 0 < self.pending().len() < 24,
                right_fill(self.pending().len(), self.source().len(), len as nat) == goal,
            decreases self.source().len() + (if eof {
                0int
            } else {
                1int
            }),
        {
            if self.window.len() >= 24 {
                return Err(BitIoError::LenTooLong);
            }
            let ghost before = *self;
            match self.inner.read_byte() {
                Some(b) => {
                    self.window.push(b);
                    proof {
                        lemma_bytes_bits_first(before.source());
                        assert(self.bits() =~= before.bits());
                        assert(src0.skip(k as int).skip(1) =~= src0.skip((k + 1) as int));
                        k = k + 1;
                    }
                },
                None => {
                    if self.window.len() == 0 {
                        return Err(BitIoError::UnexpectedEof);
                    }
                    eof = true;
                },
            }
        }
        let n = self.window.len();
        let l = if len < n {
            len
        } else {
            n
        };
        let r = self.window.front(l);
        proof {
            assert(self.pending().take(l as int) =~= self.bits().take(l as int));
            assert((self.pending().len() - c0) / 8 == k as int);
        }
        Ok(r)
    }

    fn skip(&mut self, len: usize) -> (r: Result<usize, BitIoError>)
        ensures
            r is Ok ==> final(self).source() == old(self).source().skip(
                skip_bytes(old(self).pending().len(), len as nat) as int,
            ),
            len <= old(self).pending().len() ==> final(self).pending() == old(self).pending().skip(
                len as int,
            ),
    {
        let ghost bits0 = self.bits();
        let ghost src0 = self.source();
        let ghost c0 = self.pending().len();
        let ghost mut k: nat = 0;
        let mut rest = len;
        while rest > self.window.len()
            invariant
                self.attached == old(self).attached,
                rest <= len,
                len <= bits0.len() ==> self.bits().skip(rest as int) == bits0.skip(len as int),
                self.bits().len() + len == bits0.len() + rest,
                self.source() == src0.skip(k as int),
                k <= src0.len(),
                bits0 == old(self).bits(),
                src0 == old(self).source(),
                c0 == old(self).pending().len(),
                k == 0 ==> rest == len && self.pending() == old(self).pending(),
                k > 0 ==> self.pending().len() == 8 && 0 < rest && rest + c0 + 8 * (k - 1) == len,
            decreases self.source().len(),
        {
            let ghost before = *self;
            let c = self.window.len();
            match self.inner.read_byte() {
                Some(b) => {
                    rest = rest - c;
                    let mut w = RightWindow::empty();
                    w.push(b);
                    self.window = w;
                    proof {
                        assert(Seq::<bool>::empty() + bytes_lsb(seq![b]) =~= bytes_lsb(seq![b]));
                        lemma_bytes_bits_first(before.source());
                        assert(self.bits() =~= before.bits().skip(c as int));
                        if len <= bits0.len() {
                            assert(before.bits().skip(c as int).skip(rest as int) =~= before.bits().skip(
                                (rest + c) as int,
                            ));
                        }
                        assert(src0.skip(k as int).skip(1) =~= src0.skip((k + 1) as int));
                        k = k + 1;
                    }
                },
                None => {
                    self.window = RightWindow::empty();
                    proof {
                        assert(self.bits() =~= Seq::<bool>::empty());
                    }
                    return Err(BitIoError::UnexpectedEof);
                },
            }
        }
        let ghost before = *self;
        self.window.drop_front(rest);
        proof {
            assert(self.bits() =~= before.bits().skip(rest as int));
            if k == 0 {
                assert(src0.skip(0) =~= src0);
            }
        }
        Ok(len)
    }

    fn skip_to_byte(&mut self) -> (r: Result<usize, BitIoError>)
        ensures
            r == Ok::<usize, BitIoError>((old(self).pending().len() % 8) as usize),
            final(self).source() == old(self).source(),
            final(self).pending() == old(self).pending().skip((old(self).pending().len() % 8) as int),
    {
        let s = self.window.len() % 8;
        proof {
            assert(self.source().skip(0) =~= self.source());
        }
        self.skip(s)
    }

    fn into_inner(&mut self) -> (r: Result<ByteSource, BitIoError>)
        ensures
            r->Ok_0.remaining() == old(self).source(),
            final(self).bits() == old(self).pending().skip((old(self).pending().len() % 8) as int),
    {
        let _ = self.skip_to_byte();
        let mut taken = ByteSource::new(Vec::new());
        std::mem::swap(&mut taken, &mut self.inner);
        self.attached = false;
        proof {
            assert(bytes_lsb(self.source()) =~= Seq::<bool>::empty());
            assert(self.bits() =~= self.pending());
        }
        Ok(taken)
    }
}

} // verus!
