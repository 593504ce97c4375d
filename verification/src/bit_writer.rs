use vstd::prelude::*;
use crate::bit_vector::{bit32, bit8, bits_lsb, bits_msb, bytes_lsb, bytes_msb, fits, lemma_bytes_bits_append, BitVector};
use crate::bit_reader::{lemma_zero_word, BitReader, LeftBitReader, RightBitReader};

verus! {

/// `n` clear bits.
pub open spec fn zeros(n: nat) -> Seq<bool> {
    Seq::new(n, |i: int| false)
}

/// The bits still owed to complete the last byte when `n` bits are pending.
pub open spec fn pad_len(n: nat) -> nat {
    ((8 - n % 8) % 8) as nat
}

/// Bit facts about emitting the bits of a word, most significant first,
/// behind the bits already held at the top of a byte.
proof fn lemma_left_out(buf: u8, c: u32, d: u32, len: u32, i: u32)
    by (bit_vector)
    requires
        1 <= c <= 8,
        len <= 32,
        i < 32,
    ensures
        i < 8 && (buf as u32) & (((1u32 << c) - 1) as u32) == 0 ==> (((buf | ((d >> ((32 - c) as u32))
            as u8)) >> ((7 - i) as u8)) & 1 == 1) == (if i < 8 - c {
            (buf >> ((7 - i) as u8)) & 1 == 1
        } else {
            (d >> ((39 - c - i) as u32)) & 1 == 1
        }),
        len < c && (buf as u32) & (((1u32 << c) - 1) as u32) == 0 && ((d as u64) << (len as u64))
            & 0xFFFF_FFFFu64 == 0 ==> ((buf | ((d >> ((32 - c) as u32)) as u8)) as u32) & (((1u32 << ((c
            - len) as u32)) - 1) as u32) == 0,
        c <= len && ((d as u64) << (len as u64)) & 0xFFFF_FFFFu64 == 0 ==> (((d << c) as u64) << ((len
            - c) as u64)) & 0xFFFF_FFFFu64 == 0,
        c <= len ==> ((((d << c) >> ((31 - i) as u32)) & 1 == 1) <==> (i + c < 32 && (d >> ((31 - i
            - c) as u32)) & 1 == 1)),
        1 <= len ==> (((d << ((32 - len) as u32)) as u64) << (len as u64)) & 0xFFFF_FFFFu64 == 0,
        1 <= len && i < len ==> ((((d << ((32 - len) as u32)) >> ((31 - i) as u32)) & 1 == 1) <==> ((d
            >> ((len - 1 - i) as u32)) & 1 == 1)),
        (0u8 as u32) & (((1u32 << 8u32) - 1) as u32) == 0,
{
}

/// Bit facts about emitting the bits of a word, least significant first,
/// above the bits already held at the bottom of a byte.
proof fn lemma_right_out(buf: u8, c: u32, d: u32, i: u32)
    by (bit_vector)
    requires
        1 <= c <= 8,
        i < 32,
    ensures
        i < 8 && i < 8 - c ==> (((buf | ((d << ((8 - c) as u32)) as u8)) >> (i as u8)) & 1 == 1) == ((
        buf >> (i as u8)) & 1 == 1),
        i < 8 && 8 - c <= i && (buf >> (i as u8)) & 1 != 1 ==> (((buf | ((d << ((8 - c) as u32))
            as u8)) >> (i as u8)) & 1 == 1) == ((d >> ((i + c - 8) as u32)) & 1 == 1),
        (((d >> c) >> i) & 1 == 1) <==> (i + c < 32 && (d >> ((i + c) as u32)) & 1 == 1),
        i < 8 ==> (0u8 >> (i as u8)) & 1 != 1,
{
}

/// Up to seven bits waiting for a byte, kept at the top of it; `counter`
/// is the number of free bits below them.
struct LeftOutWindow {
    buf: u8,
    counter: usize,
}

impl LeftOutWindow {
    #[verifier::type_invariant]
    spec fn inv(&self) -> bool {
        &&& 1 <= self.counter <= 8
        &&& (self.buf as u32) & (((1u32 << (self.counter as u32)) - 1) as u32) == 0
    }

    spec fn bits(&self) -> Seq<bool> {
        Seq::new((8 - self.counter) as nat, |i: int| bit8(self.buf, 7 - i))
    }

    fn empty() -> (r: Self)
        ensures
            r.bits() == Seq::<bool>::empty(),
    {
        proof {
            lemma_left_out(0, 8, 0, 32, 0);
        }
        let r = LeftOutWindow { buf: 0, counter: 8 };
        assert(r.bits() =~= Seq::<bool>::empty());
        r
    }

    fn len(&self) -> (r: usize)
        ensures
            r == self.bits().len(),
            r < 8,
    {
        proof {
            use_type_invariant(self);
        }
        8 - self.counter
    }

    /// Appends the `len` bits at the top of `d` (the rest of `d` clear),
    /// moving every completed byte to `out`; returns `len`.
    fn feed(&mut self, out: &mut Vec<u8>, d: u32, len: usize) -> (r: usize)
        requires
            len <= 32,
            ((d as u64) << (len as u64)) & 0xFFFF_FFFFu64 == 0,
        ensures
            r == len,
            bytes_msb(final(out)@) + final(self).bits() == bytes_msb(old(out)@) + old(self).bits()
                + Seq::new(len as nat, |k: int| bit32(d, 31 - k)),
            final(out)@.len() == old(out)@.len() + (old(self).bits().len() + len) / 8,
    {
        proof {
            use_type_invariant(&*self);
        }
        let ghost goal = bytes_msb(old(out)@) + old(self).bits() + Seq::new(
            len as nat,
            |k: int| bit32(d, 31 - k),
        );
        let ghost d_in = d;
        let mut rest = len;
        let mut d = d;
        let mut r: usize = 0;
        while rest >= self.counter
            invariant
                1 <= self.counter <= 8,
                (self.buf as u32) & (((1u32 << (self.counter as u32)) - 1) as u32) == 0,
                rest <= 32,
                r + rest == len,
                ((d as u64) << (rest as u64)) & 0xFFFF_FFFFu64 == 0,
                bytes_msb(out@) + self.bits() + Seq::new(rest as nat, |k: int| bit32(d, 31 - k))
                    == goal,
                goal == bytes_msb(old(out)@) + old(self).bits() + Seq::new(
                    len as nat,
                    |k: int| bit32(d_in, 31 - k),
                ),
                8 * out@.len() + self.bits().len() + rest == 8 * old(out)@.len() + old(self).bits().len()
                    + len,
            decreases rest,
        {
            let c = self.counter;
            let byte = self.buf | ((d >> ((32 - c) as u32)) as u8);
            let ghost out0 = out@;
            let ghost old_pending = self.bits();
            let ghost d0 = d;
            proof {
                let e = bytes_msb(seq![byte]);
                let f = old_pending + Seq::new(c as nat, |k: int| bit32(d0, 31 - k));
                assert forall|i: int| 0 <= i < 8 implies e[i] == f[i] by {
                    lemma_left_out(self.buf, c as u32, d0, rest as u32, i as u32);
                    assert(i / 8 == 0 && i % 8 == i);
                }
                assert(e =~= f);
                lemma_bytes_bits_append(out0, seq![byte]);
                lemma_left_out(self.buf, c as u32, d0, rest as u32, 0);
                let g = Seq::new((rest - c) as nat, |k: int| bit32(d0 << (c as u32), 31 - k));
                let h = Seq::new(rest as nat, |k: int| bit32(d0, 31 - k));
                assert forall|k: int| 0 <= k < g.len() implies g[k] == h.skip(c as int)[k] by {
                    lemma_left_out(self.buf, c as u32, d0, rest as u32, k as u32);
                }
                assert(g =~= h.skip(c as int));
                assert(h =~= h.take(c as int) + h.skip(c as int));
                assert(h.take(c as int) =~= Seq::new(c as nat, |k: int| bit32(d0, 31 - k)));
                assert(out0.push(byte) =~= out0 + seq![byte]);
                assert(bytes_msb(out0.push(byte)) =~= bytes_msb(out0) + old_pending + h.take(c as int));
            }
            out.push(byte);
            rest = rest - c;
            d = d << (c as u32);
            r = r + c;
            *self = LeftOutWindow::empty();
            proof {
                use_type_invariant(&*self);
                let h = Seq::new((rest + c) as nat, |k: int| bit32(d0, 31 - k));
                let g = Seq::new(rest as nat, |k: int| bit32(d, 31 - k));
                assert(g =~= h.skip(c as int));
                assert(self.bits() =~= Seq::<bool>::empty());
                assert(bytes_msb(out@) + self.bits() + g =~= bytes_msb(out0) + old_pending + h.take(
                    c as int,
                ) + h.skip(c as int));
                assert(bytes_msb(out0) + old_pending + h.take(c as int) + h.skip(c as int)
                    =~= bytes_msb(out0) + old_pending + h);
            }
        }
        let c = self.counter;
        let ghost old_pending = self.bits();
        proof {
            lemma_left_out(self.buf, c as u32, d, rest as u32, 0);
        }
        let next = LeftOutWindow { buf: self.buf | ((d >> ((32 - c) as u32)) as u8), counter: c - rest };
        proof {
            let p = next.bits();
            let q = old_pending + Seq::new(rest as nat, |k: int| bit32(d, 31 - k));
            assert forall|i: int| 0 <= i < p.len() implies p[i] == q[i] by {
                lemma_left_out(self.buf, c as u32, d, rest as u32, i as u32);
            }
            assert(p =~= q);
        }
        *self = next;
        r + rest
    }
}

/// Up to seven bits waiting for a byte, kept at the bottom of it; `counter`
/// is the number of free bits above them.
struct RightOutWindow {
    buf: u8,
    counter: usize,
}

impl RightOutWindow {
    #[verifier::type_invariant]
    spec fn inv(&self) -> bool {
        &&& 1 <= self.counter <= 8
        &&& forall|i: int| 8 - self.counter <= i < 8 ==> !#[trigger] bit8(self.buf, i)
    }

    spec fn bits(&self) -> Seq<bool> {
        Seq::new((8 - self.counter) as nat, |i: int| bit8(self.buf, i))
    }

    fn empty() -> (r: Self)
        ensures
            r.bits() == Seq::<bool>::empty(),
    {
        proof {
            assert forall|i: int| 0 <= i < 8 implies !#[trigger] bit8(0, i) by {
                lemma_right_out(0, 8, 0, i as u32);
            }
        }
        let r = RightOutWindow { buf: 0, counter: 8 };
        assert(r.bits() =~= Seq::<bool>::empty());
        r
    }

    fn len(&self) -> (r: usize)
        ensures
            r == self.bits().len(),
            r < 8,
    {
        proof {
            use_type_invariant(self);
        }
        8 - self.counter
    }

    /// Appends the low `len` bits of `d` (nothing set above them), moving
    /// every completed byte to `out`; returns `len`.
    fn feed(&mut self, out: &mut Vec<u8>, d: u32, len: usize) -> (r: usize)
        requires
            fits(d, len as nat),
        ensures
            r == len,
            bytes_lsb(final(out)@) + final(self).bits() == bytes_lsb(old(out)@) + old(self).bits()
                + bits_lsb(d, len as nat),
            final(out)@.len() == old(out)@.len() + (old(self).bits().len() + len) / 8,
    {
        proof {
            use_type_invariant(&*self);
        }
        let ghost goal = bytes_lsb(old(out)@) + old(self).bits() + bits_lsb(d, len as nat);
        let ghost d_in = d;
        let mut rest = len;
        let mut d = d;
        let mut r: usize = 0;
        while rest >= self.counter
            invariant
                1 <= self.counter <= 8,
                forall|i: int| 8 - self.counter <= i < 8 ==> !#[trigger] bit8(self.buf, i),
                r + rest == len,
                fits(d, rest as nat),
                bytes_lsb(out@) + self.bits() + bits_lsb(d, rest as nat) == goal,
                goal == bytes_lsb(old(out)@) + old(self).bits() + bits_lsb(d_in, len as nat),
                8 * out@.len() + self.bits().len() + rest == 8 * old(out)@.len() + old(self).bits().len()
                    + len,
            decreases rest,
        {
            let c = self.counter;
            let byte = self.buf | ((d << ((8 - c) as u32)) as u8);
            let ghost out0 = out@;
            let ghost old_pending = self.bits();
            let ghost d0 = d;
            proof {
                let e = bytes_lsb(seq![byte]);
                let f = old_pending + bits_lsb(d0, c as nat);
                assert forall|i: int| 0 <= i < 8 implies e[i] == f[i] by {
                    lemma_right_out(self.buf, c as u32, d0, i as u32);
                    assert(i / 8 == 0 && i % 8 == i);
                    if 8 - c <= i {
                        assert(!bit8(self.buf, i));
                    }
                }
                assert(e =~= f);
                lemma_bytes_bits_append(out0, seq![byte]);
                let g = bits_lsb(d0 >> (c as u32), (rest - c) as nat);
                let h = bits_lsb(d0, rest as nat);
                assert forall|k: int| 0 <= k < g.len() implies g[k] == h.skip(c as int)[k] by {
                    if k < 32 {
                        lemma_right_out(self.buf, c as u32, d0, k as u32);
                    }
                }
                assert(g =~= h.skip(c as int));
                assert(h =~= h.take(c as int) + h.skip(c as int));
                assert(h.take(c as int) =~= bits_lsb(d0, c as nat));
                assert(out0.push(byte) =~= out0 + seq![byte]);
                assert(bytes_lsb(out0.push(byte)) =~= bytes_lsb(out0) + old_pending + h.take(c as int));
                assert forall|i: int| (rest - c) <= i < 32 implies !#[trigger] bit32(d0 >> (c as u32), i) by {
                    lemma_right_out(self.buf, c as u32, d0, i as u32);
                    if i + c < 32 {
                        assert(!bit32(d0, i + c));
                    }
                }
            }
            out.push(byte);
            rest = rest - c;
            d = d >> (c as u32);
            r = r + c;
            *self = RightOutWindow::empty();
            proof {
                use_type_invariant(&*self);
                let h = bits_lsb(d0, (rest + c) as nat);
                let g = bits_lsb(d, rest as nat);
                assert(g =~= h.skip(c as int));
                assert(self.bits() =~= Seq::<bool>::empty());
                assert(bytes_lsb(out@) + self.bits() + g =~= bytes_lsb(out0) + old_pending + h.take(
                    c as int,
                ) + h.skip(c as int));
                assert(bytes_lsb(out0) + old_pending + h.take(c as int) + h.skip(c as int)
                    =~= bytes_lsb(out0) + old_pending + h);
            }
        }
        let c = self.counter;
        let ghost old_pending = self.bits();
        let merged = self.buf | ((d << ((8 - c) as u32)) as u8);
        proof {
            assert forall|i: int| 8 - (c - rest) <= i < 8 implies !#[trigger] bit8(merged, i) by {
                lemma_right_out(self.buf, c as u32, d, i as u32);
                assert(!bit8(self.buf, i));
                assert(!bit32(d, i + c - 8));
            }
        }
        let next = RightOutWindow { buf: merged, counter: c - rest };
        proof {
            let p = next.bits();
            let q = old_pending + bits_lsb(d, rest as nat);
            assert forall|i: int| 0 <= i < p.len() implies p[i] == q[i] by {
                lemma_right_out(self.buf, c as u32, d, i as u32);
                if 8 - c <= i {
                    assert(!bit8(self.buf, i));
                }
            }
            assert(p =~= q);
        }
        *self = next;
        r + rest
    }
}

/// The low `len` bits of `0` are all clear, in either order.
proof fn lemma_zero_bits(len: nat)
    ensures
        bits_msb(0, len) == zeros(len),
        bits_lsb(0, len) == zeros(len),
        fits(0, len),
{
    assert forall|i: int| 0 <= i < 32 implies !#[trigger] bit32(0, i) by {
        lemma_zero_word(0, i as u32);
    }
    assert(bits_msb(0, len) =~= zeros(len));
    assert(bits_lsb(0, len) =~= zeros(len));
}

/// Writes bits into bytes, filling each byte from its most significant bit
/// down.
pub struct LeftBitWriter {
    inner: Vec<u8>,
    attached: bool,
    window: LeftOutWindow,
}

impl LeftBitWriter {
    /// The completed bytes.
    pub closed spec fn written(&self) -> Seq<u8> {
        self.inner@
    }

    /// The bits of the byte not completed yet.
    pub closed spec fn pending(&self) -> Seq<bool> {
        self.window.bits()
    }

    pub closed spec fn attached(&self) -> bool {
        self.attached
    }

    /// Every bit written so far.
    pub open spec fn bits(&self) -> Seq<bool> {
        bytes_msb(self.written()) + self.pending()
    }

    pub fn new(inner: Vec<u8>) -> (r: Self)
        ensures
            r.written() == inner@,
            r.pending().len() == 0,
            r.attached(),
    {
        LeftBitWriter { inner, attached: true, window: LeftOutWindow::empty() }
    }

    pub fn get_ref(&self) -> (r: &Vec<u8>)
        requires
            self.attached(),
        ensures
            r@ == self.written(),
    {
        &self.inner
    }

    pub fn get_mut(&mut self) -> (r: &mut Vec<u8>)
        requires
            old(self).attached(),
        ensures
            r@ == old(self).written(),
            final(self).written() == final(r)@,
            final(self).pending() == old(self).pending(),
            final(self).attached(),
    {
        &mut self.inner
    }

    /// Appends the bits of `data`, most significant first; returns how many.
    pub fn write(&mut self, data: &BitVector) -> (r: usize)
        requires
            data.spec_len() <= 32,
            old(self).attached() || old(self).pending().len() + data.spec_len() < 8,
        ensures
            r == data.spec_len(),
            final(self).bits() == old(self).bits() + bits_msb(data.spec_data(), data.spec_len() as nat),
            final(self).written().len() == old(self).written().len() + (old(self).pending().len()
                + data.spec_len()) / 8,
            final(self).pending().len() == (old(self).pending().len() + data.spec_len()) % 8,
            final(self).attached() == old(self).attached(),
    {
        proof {
            use_type_invariant(&self.window);
        }
        if data.is_empty() {
            proof {
                assert(bits_msb(data.spec_data(), 0) =~= Seq::<bool>::empty());
                assert(old(self).bits() + Seq::<bool>::empty() =~= old(self).bits());
            }
            return 0;
        }
        let len = data.len();
        let v = data.data();
        let d = v << ((32 - len) as u32);
        proof {
            lemma_left_out(0, 1, v, len as u32, 0);
            let a = Seq::new(len as nat, |k: int| bit32(d, 31 - k));
            assert forall|k: int| 0 <= k < len implies a[k] == bits_msb(v, len as nat)[k] by {
                lemma_left_out(0, 1, v, len as u32, k as u32);
            }
            assert(a =~= bits_msb(v, len as nat));
        }
        let r = self.window.feed(&mut self.inner, d, len);
        proof {
            use_type_invariant(&self.window);
            assert(bytes_msb(self.written()).len() == 8 * self.written().len());
            assert(bytes_msb(old(self).written()).len() == 8 * old(self).written().len());
            let t = old(self).pending().len() + len;
            assert(t == 8 * (t / 8) + t % 8);
            assert(self.bits().len() == old(self).bits().len() + len);
            assert(8 * self.written().len() + self.pending().len() == 8 * old(self).written().len() + t);
        }
        r
    }

    /// Completes the pending byte with clear bits.
    pub fn flush(&mut self)
        requires
            old(self).attached(),
        ensures
            final(self).pending().len() == 0,
            final(self).bits() == old(self).bits() + zeros(pad_len(old(self).pending().len())),
            final(self).attached(),
    {
        let n = self.window.len();
        if n != 0 {
            proof {
                lemma_zero_bits((8 - n) as nat);
            }
            self.write(&BitVector::new(0, 8 - n));
        } else {
            proof {
                assert(old(self).bits() + zeros(0) =~= old(self).bits());
            }
        }
    }

    /// Completes the pending byte and hands the bytes over.
    pub fn into_inner(&mut self) -> (r: Vec<u8>)
        requires
            old(self).attached(),
        ensures
            bytes_msb(r@) == old(self).bits() + zeros(pad_len(old(self).pending().len())),
            !final(self).attached(),
            final(self).bits().len() == 0,
    {
        self.flush();
        let mut taken: Vec<u8> = Vec::new();
        std::mem::swap(&mut taken, &mut self.inner);
        self.attached = false;
        proof {
            assert(self.pending().len() == 0);
            assert(bytes_msb(taken@) =~= bytes_msb(taken@) + self.pending());
        }
        taken
    }
}

/// Writes bits into bytes, filling each byte from its least significant bit
/// up.
pub struct RightBitWriter {
    inner: Vec<u8>,
    attached: bool,
    window: RightOutWindow,
}

impl RightBitWriter {
    /// The completed bytes.
    pub closed spec fn written(&self) -> Seq<u8> {
        self.inner@
    }

    /// The bits of the byte not completed yet.
    pub closed spec fn pending(&self) -> Seq<bool> {
        self.window.bits()
    }

    pub closed spec fn attached(&self) -> bool {
        self.attached
    }

    /// Every bit written so far.
    pub open spec fn bits(&self) -> Seq<bool> {
        bytes_lsb(self.written()) + self.pending()
    }

    pub fn new(inner: Vec<u8>) -> (r: Self)
        ensures
            r.written() == inner@,
            r.pending().len() == 0,
            r.attached(),
    {
        RightBitWriter { inner, attached: true, window: RightOutWindow::empty() }
    }

    pub fn get_ref(&self) -> (r: &Vec<u8>)
        requires
            self.attached(),
        ensures
            r@ == self.written(),
    {
        &self.inner
    }

    pub fn get_mut(&mut self) -> (r: &mut Vec<u8>)
        requires
            old(self).attached(),
        ensures
            r@ == old(self).written(),
            final(self).written() == final(r)@,
            final(self).pending() == old(self).pending(),
            final(self).attached(),
    {
        &mut self.inner
    }

    /// Appends the low `len` bits of `data`, least significant first;
    /// returns how many. Bits of `data` above `len` must be clear: this
    /// writer merges the whole word into its pending byte.
    pub fn write(&mut self, data: &BitVector) -> (r: usize)
        requires
            fits(data.spec_data(), data.spec_len() as nat),
            old(self).attached() || old(self).pending().len() + data.spec_len() < 8,
        ensures
            r == data.spec_len(),
            final(self).bits() == old(self).bits() + bits_lsb(data.spec_data(), data.spec_len() as nat),
            final(self).written().len() == old(self).written().len() + (old(self).pending().len()
                + data.spec_len()) / 8,
            final(self).pending().len() == (old(self).pending().len() + data.spec_len()) % 8,
            final(self).attached() == old(self).attached(),
    {
        let len = data.len();
        let d = data.data();
        let r = self.window.feed(&mut self.inner, d, len);
        proof {
            use_type_invariant(&self.window);
            assert(bytes_lsb(self.written()).len() == 8 * self.written().len());
            assert(bytes_lsb(old(self).written()).len() == 8 * old(self).written().len());
            let t = old(self).pending().len() + len;
            assert(t == 8 * (t / 8) + t % 8);
            assert(self.bits().len() == old(self).bits().len() + len);
            assert(8 * self.written().len() + self.pending().len() == 8 * old(self).written().len() + t);
        }
        r
    }

    /// Completes the pending byte with clear bits.
    pub fn flush(&mut self)
        requires
            old(self).attached(),
        ensures
            final(self).pending().len() == 0,
            final(self).bits() == old(self).bits() + zeros(pad_len(old(self).pending().len())),
            final(self).attached(),
    {
        let n = self.window.len();
        if n != 0 {
            proof {
                lemma_zero_bits((8 - n) as nat);
            }
            self.write(&BitVector::new(0, 8 - n));
        } else {
            proof {
                assert(old(self).bits() + zeros(0) =~= old(self).bits());
            }
        }
    }

    /// Completes the pending byte and hands the bytes over.
    pub fn into_inner(&mut self) -> (r: Vec<u8>)
        requires
            old(self).attached(),
        ensures
            bytes_lsb(r@) == old(self).bits() + zeros(pad_len(old(self).pending().len())),
            !final(self).attached(),
            final(self).bits().len() == 0,
    {
        self.flush();
        let mut taken: Vec<u8> = Vec::new();
        std::mem::swap(&mut taken, &mut self.inner);
        self.attached = false;
        proof {
            assert(self.pending().len() == 0);
            assert(bytes_lsb(taken@) =~= bytes_lsb(taken@) + self.pending());
        }
        taken
    }
}

/// What a `LeftBitWriter` hands over, read by a fresh `LeftBitReader`,
/// gives back every bit written, in order, followed by fewer than eight
/// clear bits.
pub proof fn lemma_left_round_trip(w: LeftBitWriter, out: Seq<u8>, r: LeftBitReader)
    requires
        bytes_msb(out) == w.bits() + zeros(pad_len(w.pending().len())),
        r.pending().len() == 0,
        r.source() == out,
    ensures
        r.stream().take(w.bits().len() as int) == w.bits(),
        r.stream().skip(w.bits().len() as int) == zeros(pad_len(w.pending().len())),
        r.stream().len() - w.bits().len() < 8,
{
    let s = r.stream();
    assert(s =~= w.bits() + zeros(pad_len(w.pending().len())));
    assert(s.take(w.bits().len() as int) =~= w.bits());
    assert(s.skip(w.bits().len() as int) =~= zeros(pad_len(w.pending().len())));
}

/// What a `RightBitWriter` hands over, read by a fresh `RightBitReader`,
/// gives back every bit written, in order, followed by fewer than eight
/// clear bits.
pub proof fn lemma_right_round_trip(w: RightBitWriter, out: Seq<u8>, r: RightBitReader)
    requires
        bytes_lsb(out) == w.bits() + zeros(pad_len(w.pending().len())),
        r.pending().len() == 0,
        r.source() == out,
    ensures
        r.stream().take(w.bits().len() as int) == w.bits(),
        r.stream().skip(w.bits().len() as int) == zeros(pad_len(w.pending().len())),
        r.stream().len() - w.bits().len() < 8,
{
    let s = r.stream();
    assert(s =~= w.bits() + zeros(pad_len(w.pending().len())));
    assert(s.take(w.bits().len() as int) =~= w.bits());
    assert(s.skip(w.bits().len() as int) =~= zeros(pad_len(w.pending().len())));
}

} // verus!
