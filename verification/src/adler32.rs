use vstd::prelude::*;

verus! {

/// The modulus of the Adler-32 sums.
pub open spec fn adler_mod() -> int {
    65521
}

/// One byte fed into the pair of Adler-32 sums `(a, b)`.
pub open spec fn adler_step(st: (int, int), x: u8) -> (int, int) {
    ((st.0 + x) % adler_mod(), (st.1 + st.0 + x) % adler_mod())
}

/// The sums after feeding the bytes of `s`, in order, from `st`.
pub open spec fn adler_fold(st: (int, int), s: Seq<u8>) -> (int, int)
    decreases s.len(),
{
    if s.len() == 0 {
        st
    } else {
        adler_step(adler_fold(st, s.drop_last()), s.last())
    }
}

/// The Adler-32 checksum of `s`: `b` in the high and `a` in the low 16 bits.
pub open spec fn adler32_of(s: Seq<u8>) -> u64 {
    let st = adler_fold((1, 0), s);
    (st.1 * 65536 + st.0) as u64
}

/// The Adler-32 checksum of zlib, with the modulo reduction deferred to
/// every 5550 bytes.
#[derive(Debug)]
pub struct Adler32 {
    a: u32,
    b: u32,
    t: u16,
}

impl View for Adler32 {
    type V = (int, int);

    /// The two sums, reduced.
    closed spec fn view(&self) -> (int, int) {
        (self.a as int % adler_mod(), self.b as int % adler_mod())
    }
}

proof fn lemma_step_bounds(a: int, b: int, k: int, x: int)
    requires
        0 <= k,
        0 <= x <= 255,
        0 <= a <= 65520 + 255 * k,
        0 <= b,
        2 * b <= 2 * 65520 * (k + 1) + 255 * k * (k + 1),
    ensures
        a + x <= 65520 + 255 * (k + 1),
        2 * (b + a + x) <= 2 * 65520 * (k + 2) + 255 * (k + 1) * (k + 2),
{
    assert(2 * (b + a + x) <= 2 * 65520 * (k + 2) + 255 * (k + 1) * (k + 2)) by (nonlinear_arith)
        requires
            0 <= k,
            0 <= x <= 255,
            0 <= a <= 65520 + 255 * k,
            2 * b <= 2 * 65520 * (k + 1) + 255 * k * (k + 1),
    ;
}

proof fn lemma_bound_fits(k: int)
    requires
        0 <= k <= 5550,
    ensures
        2 * 65520 * (k + 1) + 255 * k * (k + 1) < 2 * 4294967296,
        65520 + 255 * k < 4294967296,
{
    assert(2 * 65520 * (k + 1) + 255 * k * (k + 1) < 2 * 4294967296) by (nonlinear_arith)
        requires
            0 <= k <= 5550,
    ;
}

impl Adler32 {
    const LOOP_SIZE: u16 = 5549;
    const MOD_ADLER: u32 = 0xFFF1;

    /// The sums stay small enough that the next 5550 - (5549 - t) bytes
    /// cannot overflow them.
    pub closed spec fn wf(&self) -> bool {
        let k = 5549 - self.t as int;
        &&& self.t <= 5549
        &&& self.a as int <= 65520 + 255 * k
        &&& 2 * (self.b as int) <= 2 * 65520 * (k + 1) + 255 * k * (k + 1)
    }

    pub fn new() -> (r: Adler32)
        ensures
            r.wf(),
            r@ == (1int, 0int),
    {
        Self { a: 1, b: 0, t: Self::LOOP_SIZE }
    }

    pub fn write_u8(&mut self, byte: u8)
        requires
            old(self).wf(),
        ensures
            final(self).wf(),
            final(self)@ == adler_step(old(self)@, byte),
    {
        let ghost k = 5549 - self.t as int;
        proof {
            lemma_step_bounds(self.a as int, self.b as int, k, byte as int);
            lemma_bound_fits(k + 1);
            vstd::arithmetic::div_mod::lemma_add_mod_noop(self.a as int, byte as int, adler_mod());
            vstd::arithmetic::div_mod::lemma_add_mod_noop(self.b as int, self.a as int + byte as int, adler_mod());
            vstd::arithmetic::div_mod::lemma_add_mod_noop(self.a as int % adler_mod(), byte as int, adler_mod());
            vstd::arithmetic::div_mod::lemma_mod_twice(self.a as int, adler_mod());
            vstd::arithmetic::div_mod::lemma_add_mod_noop(self.b as int, self.a as int % adler_mod() + byte as int, adler_mod());
            vstd::arithmetic::div_mod::lemma_add_mod_noop(self.a as int, byte as int, adler_mod());
        }
        let byte = byte as u32;
        self.a += byte;
        self.b += self.a;
        if self.t == 0 {
            self.t = Self::LOOP_SIZE;
            proof {
                vstd::arithmetic::div_mod::lemma_mod_twice(self.a as int, adler_mod());
                vstd::arithmetic::div_mod::lemma_mod_twice(self.b as int, adler_mod());
            }
            self.a %= Self::MOD_ADLER;
            self.b %= Self::MOD_ADLER;
        } else {
            self.t -= 1;
        }
    }

    pub fn write(&mut self, bytes: &[u8])
        requires
            old(self).wf(),
        ensures
            final(self).wf(),
            final(self)@ == adler_fold(old(self)@, bytes@),
    {
        let mut i: usize = 0;
        while i < bytes.len()
            invariant
                i <= bytes.len(),
                self.wf(),
                self@ == adler_fold(old(self)@, bytes@.subrange(0, i as int)),
            decreases bytes.len() - i,
        {
            assert(bytes@.subrange(0, i + 1).drop_last() =~= bytes@.subrange(0, i as int));
            self.write_u8(bytes[i]);
            i += 1;
        }
        assert(bytes@.subrange(0, bytes.len() as int) =~= bytes@);
    }

    /// The checksum: `b` in the high and `a` in the low 16 bits.
    pub fn finish(&self) -> (r: u64)
        ensures
            r == (self@.1 * 65536 + self@.0) as u64,
    {
        let hi = self.b % Self::MOD_ADLER;
        let lo = self.a % Self::MOD_ADLER;
        assert((hi << 16u32) | lo == hi * 65536 + lo) by (bit_vector)
            requires
                hi < 65521,
                lo < 65521,
        ;
        ((hi << 16u32) | lo) as u64
    }
}

/// Feeding bytes one at a time gives the sums that feeding them all at once
/// gives: the sums of `s` followed by `x` are those of `s`, advanced by `x`.
pub proof fn lemma_adler_fold_push(st: (int, int), s: Seq<u8>, x: u8)
    ensures
        adler_fold(st, s.push(x)) == adler_step(adler_fold(st, s), x),
{
    assert(s.push(x).drop_last() =~= s);
}

/// Feeding `s` and then `t` gives the sums of feeding `s + t` at once.
pub proof fn lemma_adler_fold_append(st: (int, int), s: Seq<u8>, t: Seq<u8>)
    ensures
        adler_fold(adler_fold(st, s), t) == adler_fold(st, s + t),
    decreases t.len(),
{
    if t.len() == 0 {
        assert(s + t =~= s);
    } else {
        lemma_adler_fold_append(st, s, t.drop_last());
        assert((s + t).drop_last() =~= s + t.drop_last());
        assert((s + t).last() == t.last());
    }
}

} // verus!
