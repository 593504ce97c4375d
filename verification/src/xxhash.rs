use vstd::prelude::*;

verus! {

pub open spec fn prime1() -> u32 {
    2654435761
}

pub open spec fn prime2() -> u32 {
    2246822519
}

pub open spec fn prime3() -> u32 {
    3266489917
}

pub open spec fn prime4() -> u32 {
    668265263
}

pub open spec fn prime5() -> u32 {
    374761393
}

/// Rotation of `x` to the left by `r` bits.
pub open spec fn rotl(x: u32, r: u32) -> u32 {
    (x << r) | (x >> ((32 - r) as u32))
}

/// One round of an xxHash32 accumulator lane.
pub open spec fn xxh_round(acc: u32, input: u32) -> u32 {
    rotl(acc.wrapping_add(input.wrapping_mul(prime2())), 13).wrapping_mul(prime1())
}

/// The little-endian 32-bit word at `i` in `s`.
pub open spec fn le32(s: Seq<u8>, i: int) -> u32 {
    ((s[i] as u32) | ((s[i + 1] as u32) << 8u32) | ((s[i + 2] as u32) << 16u32) | ((s[i + 3] as u32)
        << 24u32)) as u32
}

/// The four accumulator lanes before any stripe.
pub open spec fn lanes_init(seed: u32) -> (u32, u32, u32, u32) {
    (
        seed.wrapping_add(prime1()).wrapping_add(prime2()),
        seed.wrapping_add(prime2()),
        seed,
        seed.wrapping_sub(prime1()),
    )
}

/// The lanes after the stripe of 16 bytes at `off` in `s`.
pub open spec fn lanes_stripe(v: (u32, u32, u32, u32), s: Seq<u8>, off: int) -> (u32, u32, u32, u32) {
    (
        xxh_round(v.0, le32(s, off)),
        xxh_round(v.1, le32(s, off + 4)),
        xxh_round(v.2, le32(s, off + 8)),
        xxh_round(v.3, le32(s, off + 12)),
    )
}

/// The lanes after the first `n` stripes of `s`.
pub open spec fn lanes_n(seed: u32, s: Seq<u8>, n: nat) -> (u32, u32, u32, u32)
    decreases n,
{
    if n == 0 {
        lanes_init(seed)
    } else {
        lanes_stripe(lanes_n(seed, s, (n - 1) as nat), s, 16 * (n - 1))
    }
}

/// The hash before the trailing bytes and the length are mixed in.
pub open spec fn xxh32_base(seed: u32, s: Seq<u8>) -> u32 {
    if s.len() >= 16 {
        let v = lanes_n(seed, s, s.len() / 16);
        rotl(v.0, 1).wrapping_add(rotl(v.1, 7)).wrapping_add(rotl(v.2, 12)).wrapping_add(rotl(v.3, 18))
    } else {
        seed.wrapping_add(prime5())
    }
}

/// The first `k` trailing words of `t` mixed into `h`.
pub open spec fn tail_words(h: u32, t: Seq<u8>, k: nat) -> u32
    decreases k,
{
    if k == 0 {
        h
    } else {
        rotl(tail_words(h, t, (k - 1) as nat).wrapping_add(le32(t, 4 * (k - 1)).wrapping_mul(prime3())), 17).wrapping_mul(
            prime4(),
        )
    }
}

/// The `k` trailing bytes of `t` from `start` on mixed into `h`.
pub open spec fn tail_bytes(h: u32, t: Seq<u8>, start: int, k: nat) -> u32
    decreases k,
{
    if k == 0 {
        h
    } else {
        rotl(tail_bytes(h, t, start, (k - 1) as nat).wrapping_add((t[start + k - 1] as u32).wrapping_mul(prime5())), 11).wrapping_mul(
            prime1(),
        )
    }
}

/// The final avalanche of xxHash32.
pub open spec fn avalanche(h: u32) -> u32 {
    let h1 = h ^ (h >> 15u32);
    let h2 = h1.wrapping_mul(prime2());
    let h3 = h2 ^ (h2 >> 13u32);
    let h4 = h3.wrapping_mul(prime3());
    h4 ^ (h4 >> 16u32)
}

/// The bytes after the last full stripe.
pub open spec fn xxh32_tail(s: Seq<u8>) -> Seq<u8> {
    s.subrange((16 * (s.len() / 16)) as int, s.len() as int)
}

/// The base plus the length (modulo 2^32), where the tail starts from.
pub open spec fn xxh32_start(seed: u32, s: Seq<u8>) -> u32 {
    let sum = xxh32_base(seed, s) + (s.len() as u32);
    if sum > u32::MAX {
        (sum - 0x1_0000_0000) as u32
    } else {
        sum as u32
    }
}

/// xxHash32 of `s` with `seed`.
pub open spec fn xxh32_of(seed: u32, s: Seq<u8>) -> u32 {
    let t = xxh32_tail(s);
    let h = xxh32_start(seed, s);
    let m = t.len();
    avalanche(tail_bytes(tail_words(h, t, m / 4), t, (4 * (m / 4)) as int, m % 4))
}

proof fn lemma_lanes_prefix(seed: u32, s: Seq<u8>, t: Seq<u8>, n: nat)
    requires
        16 * n <= s.len(),
        16 * n <= t.len(),
        s.subrange(0, (16 * n) as int) == t.subrange(0, (16 * n) as int),
    ensures
        lanes_n(seed, s, n) == lanes_n(seed, t, n),
    decreases n,
{
    if n > 0 {
        let m = (n - 1) as nat;
        assert(s.subrange(0, (16 * m) as int) =~= s.subrange(0, (16 * n) as int).subrange(0, (16 * m) as int));
        assert(t.subrange(0, (16 * m) as int) =~= t.subrange(0, (16 * n) as int).subrange(0, (16 * m) as int));
        lemma_lanes_prefix(seed, s, t, m);
        let off = (16 * m) as int;
        assert forall|j: int| off <= j < off + 16 implies s[j] == t[j] by {
            assert(s[j] == s.subrange(0, (16 * n) as int)[j]);
            assert(t[j] == t.subrange(0, (16 * n) as int)[j]);
        }
    }
}

proof fn lemma_div16(n: int)
    requires
        0 <= n,
    ensures
        16 * (n / 16) + n % 16 == n,
        0 <= n % 16 < 16,
        n % 16 == 15 ==> (n + 1) / 16 == n / 16 + 1 && (n + 1) % 16 == 0,
        n % 16 < 15 ==> (n + 1) / 16 == n / 16 && (n + 1) % 16 == n % 16 + 1,
{
}

proof fn lemma_div16_add(q: int, r: int)
    requires
        0 <= q,
        0 <= r < 16,
    ensures
        (16 * q + r) / 16 == q,
        (16 * q + r) % 16 == r,
{
}

proof fn lemma_stripe_from_mem(v: (u32, u32, u32, u32), mem: Seq<u8>, w: Seq<u8>, off: int, seed: u32, q: nat)
    requires
        mem.len() == 16,
        off == 16 * q,
        0 <= off,
        off + 16 <= w.len(),
        forall|j: int| 0 <= j < 16 ==> mem[j] == w[off + j],
        v == lanes_n(seed, w, q),
    ensures
        lanes_stripe(v, mem, 0) == lanes_n(seed, w, q + 1),
{
    assert(mem[0] == w[off] && mem[1] == w[off + 1] && mem[2] == w[off + 2] && mem[3] == w[off + 3]);
    assert(mem[4] == w[off + 4] && mem[5] == w[off + 5] && mem[6] == w[off + 6] && mem[7] == w[off + 7]);
    assert(mem[8] == w[off + 8] && mem[9] == w[off + 9] && mem[10] == w[off + 10] && mem[11] == w[off + 11]);
    assert(mem[12] == w[off + 12] && mem[13] == w[off + 13] && mem[14] == w[off + 14] && mem[15] == w[off + 15]);
    assert(le32(mem, 0) == le32(w, off));
    assert(le32(mem, 4) == le32(w, off + 4));
    assert(le32(mem, 8) == le32(w, off + 8));
    assert(le32(mem, 12) == le32(w, off + 12));
}

/// xxHash32, the checksum of the LZ4 frame format, fed incrementally.
pub struct XXH32 {
    total_len: u64,
    v1: u32,
    v2: u32,
    v3: u32,
    v4: u32,
    mem: [u8; 16],
    memsize: usize,
    seed: u32,
    written: Ghost<Seq<u8>>,
}

impl XXH32 {
    const PRIME32_1: u32 = 2654435761;
    const PRIME32_2: u32 = 2246822519;
    const PRIME32_3: u32 = 3266489917;
    const PRIME32_4: u32 = 668265263;
    const PRIME32_5: u32 = 374761393;

    /// The bytes fed so far.
    pub closed spec fn spec_written(&self) -> Seq<u8> {
        self.written@
    }

    pub closed spec fn spec_seed(&self) -> u32 {
        self.seed
    }

    #[verifier::opaque]
    pub closed spec fn wf(&self) -> bool {
        let w = self.written@;
        &&& self.total_len == w.len()
        &&& self.memsize == w.len() % 16
        &&& forall|j: int| 0 <= j < self.memsize ==> self.mem@[j] == w[16 * (w.len() / 16) + j]
        &&& (self.v1, self.v2, self.v3, self.v4) == lanes_n(self.seed, w, w.len() / 16)
    }

    pub fn new(seed: u32) -> (r: XXH32)
        ensures
            r.wf(),
            r.spec_seed() == seed,
            r.spec_written() == Seq::<u8>::empty(),
    {
        let r = Self {
            v1: seed.wrapping_add(Self::PRIME32_1).wrapping_add(Self::PRIME32_2),
            v2: seed.wrapping_add(Self::PRIME32_2),
            v3: seed,
            v4: seed.wrapping_sub(Self::PRIME32_1),
            total_len: 0,
            mem: [0;16],
            memsize: 0,
            seed,
            written: Ghost(Seq::empty()),
        };
        proof {
            reveal(XXH32::wf);
        }
        r
    }

    /// `XXH32::new(0)`.
    pub fn default() -> (r: XXH32)
        ensures
            r.wf(),
            r.spec_seed() == 0,
            r.spec_written() == Seq::<u8>::empty(),
    {
        Self::new(0)
    }

    #[inline]
    fn xxh_rotl32(x: u32, r: u32) -> (res: u32)
        requires
            0 < r < 32,
        ensures
            res == rotl(x, r),
    {
        (x << r) | (x >> (32 - r))
    }

    #[inline]
    fn xxh32_round(seed: u32, input: u32) -> (res: u32)
        ensures
            res == xxh_round(seed, input),
    {
        Self::xxh_rotl32(seed.wrapping_add(input.wrapping_mul(Self::PRIME32_2)), 13).wrapping_mul(
            Self::PRIME32_1,
        )
    }

    /// The little-endian word at `i` in `mem`.
    #[inline]
    fn xxh_get32bits(mem: &[u8; 16], i: usize) -> (res: u32)
        requires
            i + 4 <= 16,
        ensures
            res == le32(mem@, i as int),
    {
        (mem[i] as u32) | ((mem[i + 1] as u32) << 8u32) | ((mem[i + 2] as u32) << 16u32) | ((mem[i
            + 3] as u32) << 24u32)
    }

    /// Mixes the stripe held in `mem` into the lanes.
    #[inline]
    fn round(&mut self)
        ensures
            (final(self).v1, final(self).v2, final(self).v3, final(self).v4) == lanes_stripe(
                (old(self).v1, old(self).v2, old(self).v3, old(self).v4),
                old(self).mem@,
                0,
            ),
            final(self).mem == old(self).mem,
            final(self).memsize == old(self).memsize,
            final(self).total_len == old(self).total_len,
            final(self).seed == old(self).seed,
            final(self).written == old(self).written,
    {
        self.v1 = Self::xxh32_round(self.v1, Self::xxh_get32bits(&self.mem, 0));
        self.v2 = Self::xxh32_round(self.v2, Self::xxh_get32bits(&self.mem, 4));
        self.v3 = Self::xxh32_round(self.v3, Self::xxh_get32bits(&self.mem, 8));
        self.v4 = Self::xxh32_round(self.v4, Self::xxh_get32bits(&self.mem, 12));
    }

    /// Copies `count` bytes of `bytes` from `from` on into `mem` at `to`.
    fn copy_to_mem(&mut self, bytes: &[u8], from: usize, to: usize, count: usize)
        requires
            from + count <= bytes.len(),
            to + count <= 16,
        ensures
            forall|j: int| to <= j < to + count ==> #[trigger] final(self).mem@[j] == bytes@[from + j - to],
            forall|j: int| 0 <= j < 16 && !(to <= j < to + count) ==> final(self).mem@[j] == old(self).mem@[j],
            final(self).v1 == old(self).v1,
            final(self).v2 == old(self).v2,
            final(self).v3 == old(self).v3,
            final(self).v4 == old(self).v4,
            final(self).memsize == old(self).memsize,
            final(self).total_len == old(self).total_len,
            final(self).seed == old(self).seed,
            final(self).written == old(self).written,
    {
        let mut i: usize = 0;
        while i < count
            invariant
                i <= count,
                from + count <= bytes.len(),
                to + count <= 16,
                forall|j: int| to <= j < to + i ==> #[trigger] self.mem@[j] == bytes@[from + j - to],
                forall|j: int| 0 <= j < 16 && !(to <= j < to + i) ==> self.mem@[j] == old(self).mem@[j],
                self.v1 == old(self).v1,
                self.v2 == old(self).v2,
                self.v3 == old(self).v3,
                self.v4 == old(self).v4,
                self.memsize == old(self).memsize,
                self.total_len == old(self).total_len,
                self.seed == old(self).seed,
                self.written == old(self).written,
            decreases count - i,
        {
            self.mem[to + i] = bytes[from + i];
            i += 1;
        }
    }

    /// Feeds the bytes of `bytes`, in order.
    pub fn write(&mut self, bytes: &[u8])
        requires
            old(self).wf(),
            old(self).spec_written().len() + bytes@.len() <= u64::MAX,
            bytes@.len() + 16 <= usize::MAX,
        ensures
            final(self).wf(),
            final(self).spec_seed() == old(self).spec_seed(),
            final(self).spec_written() == old(self).spec_written() + bytes@,
    {
        let ghost w0 = self.written@;
        let ghost w = w0 + bytes@;
        let ghost q0 = w0.len() / 16;
        proof {
            assert(self.total_len == w0.len() && self.memsize == w0.len() % 16 && (forall|j: int|
                0 <= j < self.memsize ==> self.mem@[j] == w0[16 * q0 + j]) && (self.v1, self.v2, self.v3, self.v4)
                == lanes_n(self.seed, w0, q0)) by {
                reveal(XXH32::wf);
            }
            lemma_div16(w0.len() as int);
            assert(w0.subrange(0, (16 * q0) as int) =~= w.subrange(0, (16 * q0) as int));
            lemma_lanes_prefix(self.seed, w0, w, q0);
        }
        let srclen = bytes.len();
        self.total_len += srclen as u64;
        let ms = self.memsize;
        if ms + srclen < 16 {
            self.copy_to_mem(bytes, 0, ms, srclen);
            self.memsize = ms + srclen;
            self.written = Ghost(w);
            proof {
                lemma_div16_add(q0 as int, (ms + srclen) as int);
                assert forall|j: int| 0 <= j < self.memsize implies self.mem@[j] == w[16 * (w.len() / 16) + j] by {
                    if j < ms {
                        assert(w[16 * q0 + j] == w0[16 * q0 + j]);
                    } else {
                        assert(w[16 * q0 + j] == bytes@[j - ms]);
                        assert(self.mem@[j] == bytes@[0 + j - ms]);
                    }
                }
                reveal(XXH32::wf);
            }
            return;
        }
        self.write_stripes(bytes, Ghost(w0));
    }

    /// Completes the partly filled stripe from the front of `bytes` and
    /// mixes it in; returns the number of bytes taken.
    fn fill_first_stripe(&mut self, bytes: &[u8], Ghost(w0): Ghost<Seq<u8>>) -> (pos: usize)
        requires
            0 < old(self).memsize < 16,
            old(self).memsize + bytes.len() >= 16,
            old(self).memsize == w0.len() % 16,
            forall|j: int| 0 <= j < old(self).memsize ==> old(self).mem@[j] == w0[16 * (w0.len() / 16) + j],
            (old(self).v1, old(self).v2, old(self).v3, old(self).v4) == lanes_n(old(self).seed, w0 + bytes@, w0.len() / 16),
        ensures
            pos == 16 - old(self).memsize,
            (final(self).v1, final(self).v2, final(self).v3, final(self).v4) == lanes_n(old(self).seed, w0 + bytes@, w0.len() / 16 + 1),
            final(self).seed == old(self).seed,
            final(self).total_len == old(self).total_len,
            final(self).memsize == old(self).memsize,
    {
        let ghost w = w0 + bytes@;
        let ghost q0 = w0.len() / 16;
        proof {
            lemma_div16(w0.len() as int);
        }
        let ms = self.memsize;
        let wlen = 16 - ms;
        self.copy_to_mem(bytes, 0, ms, wlen);
        proof {
            assert forall|j: int| 0 <= j < 16 implies self.mem@[j] == w[16 * q0 + j] by {
                if j < ms {
                    assert(w[16 * q0 + j] == w0[16 * q0 + j]);
                } else {
                    assert(w[16 * q0 + j] == bytes@[j - ms]);
                    assert(self.mem@[j] == bytes@[0 + j - ms]);
                }
            }
            lemma_stripe_from_mem((self.v1, self.v2, self.v3, self.v4), self.mem@, w, (16 * q0) as int, self.seed, q0);
        }
        self.round();
        wlen
    }

    /// Feeds the bytes of `bytes` once they fill at least the current stripe.
    fn write_stripes(&mut self, bytes: &[u8], Ghost(w0): Ghost<Seq<u8>>)
        requires
            old(self).memsize + bytes.len() >= 16,
            old(self).memsize == w0.len() % 16,
            old(self).total_len == w0.len() + bytes.len(),
            forall|j: int| 0 <= j < old(self).memsize ==> old(self).mem@[j] == w0[16 * (w0.len() / 16) + j],
            (old(self).v1, old(self).v2, old(self).v3, old(self).v4) == lanes_n(old(self).seed, w0 + bytes@, w0.len() / 16),
        ensures
            final(self).wf(),
            final(self).seed == old(self).seed,
            final(self).written@ == w0 + bytes@,
    {
        let ghost w = w0 + bytes@;
        let ghost q0 = w0.len() / 16;
        proof {
            lemma_div16(w0.len() as int);
        }
        let srclen = bytes.len();
        let ms = self.memsize;
        let mut pos: usize = 0;
        let ghost mut q: int = q0 as int;
        if ms > 0 {
            pos = self.fill_first_stripe(bytes, Ghost(w0));
            proof {
                q = q + 1;
            }
        }
        while srclen - pos >= 16
            invariant
                pos <= srclen,
                srclen == bytes.len(),
                w == w0 + bytes@,
                0 <= q,
                16 * q == w0.len() + pos,
                (self.v1, self.v2, self.v3, self.v4) == lanes_n(self.seed, w, q as nat),
                self.seed == old(self).seed,
                self.total_len == w0.len() + bytes.len(),
            decreases srclen - pos,
        {
            self.copy_to_mem(bytes, pos, 0, 16);
            proof {
                assert forall|j: int| 0 <= j < 16 implies self.mem@[j] == w[16 * q + j] by {
                    assert(w[16 * q + j] == bytes@[pos + j]);
                    assert(self.mem@[j] == bytes@[pos + j - 0]);
                }
                lemma_stripe_from_mem((self.v1, self.v2, self.v3, self.v4), self.mem@, w, 16 * q, self.seed, q as nat);
            }
            self.round();
            pos += 16;
            proof {
                q = q + 1;
            }
        }
        self.store_tail(bytes, pos, Ghost(w0), Ghost(q));
    }

    /// Keeps the bytes after the last full stripe in `mem`.
    fn store_tail(&mut self, bytes: &[u8], pos: usize, Ghost(w0): Ghost<Seq<u8>>, Ghost(q): Ghost<int>)
        requires
            pos <= bytes.len(),
            bytes.len() - pos < 16,
            0 <= q,
            16 * q == w0.len() + pos,
            old(self).total_len == w0.len() + bytes.len(),
            (old(self).v1, old(self).v2, old(self).v3, old(self).v4) == lanes_n(old(self).seed, w0 + bytes@, q as nat),
        ensures
            final(self).wf(),
            final(self).seed == old(self).seed,
            final(self).written@ == w0 + bytes@,
    {
        let ghost w = w0 + bytes@;
        let rest = bytes.len() - pos;
        self.copy_to_mem(bytes, pos, 0, rest);
        self.memsize = rest;
        self.written = Ghost(w);
        proof {
            lemma_div16_add(q, rest as int);
            assert(w.len() == 16 * q + rest);
            assert(w.len() / 16 == q);
            assert(w.len() % 16 == rest);
            assert forall|j: int| 0 <= j < self.memsize implies self.mem@[j] == w[16 * (w.len() / 16) + j] by {
                assert(w[16 * q + j] == bytes@[pos + j]);
                assert(self.mem@[j] == bytes@[pos + j - 0]);
            }
            reveal(XXH32::wf);
        }
    }

    /// Feeds one byte.
    pub fn write_u8(&mut self, value: u8)
        requires
            old(self).wf(),
            old(self).spec_written().len() < u64::MAX,
        ensures
            final(self).wf(),
            final(self).spec_seed() == old(self).spec_seed(),
            final(self).spec_written() == old(self).spec_written().push(value),
    {
        let ghost w0 = self.written@;
        let ghost w = w0.push(value);
        let ghost q0 = w0.len() / 16;
        proof {
            reveal(XXH32::wf);
            lemma_div16(w0.len() as int);
        }
        self.total_len += 1;
        self.mem[self.memsize] = value;
        proof {
            assert(w0.subrange(0, (16 * q0) as int) =~= w.subrange(0, (16 * q0) as int));
            lemma_lanes_prefix(self.seed, w0, w, q0);
        }
        if self.memsize == 15 {
            proof {
                assert forall|j: int| 0 <= j < 16 implies self.mem@[j] == w[16 * q0 + j] by {
                    if j < 15 {
                        assert(w[16 * q0 + j] == w0[16 * q0 + j]);
                    }
                }
                lemma_stripe_from_mem((self.v1, self.v2, self.v3, self.v4), self.mem@, w, (16 * q0) as int, self.seed, q0);
            }
            self.round();
            self.memsize = 0;
        } else {
            self.memsize += 1;
        }
        self.written = Ghost(w);
        proof {
            assert forall|j: int| 0 <= j < self.memsize implies self.mem@[j] == w[16 * (w.len() / 16) + j] by {
                if j + 1 < self.memsize {
                    assert(w[16 * q0 + j] == w0[16 * q0 + j]);
                }
            }
            reveal(XXH32::wf);
        }
    }

    /// The hash of the bytes fed so far.
    pub fn finish(&self) -> (r: u64)
        requires
            self.wf(),
        ensures
            r == xxh32_of(self.spec_seed(), self.spec_written()) as u64,
    {
        let ghost w = self.written@;
        let ghost t = xxh32_tail(w);
        proof {
            reveal(XXH32::wf);
        }
        let base = if self.total_len >= 16 {
            Self::xxh_rotl32(self.v1, 1).wrapping_add(Self::xxh_rotl32(self.v2, 7)).wrapping_add(
                Self::xxh_rotl32(self.v3, 12),
            ).wrapping_add(Self::xxh_rotl32(self.v4, 18))
        } else {
            self.seed.wrapping_add(Self::PRIME32_5)
        };
        let len32 = self.total_len as u32;
        let mut h32 = base.wrapping_add(len32);
        assert(base == xxh32_base(self.spec_seed(), w));
        assert(len32 == (w.len() as u32));
        assert(h32 == xxh32_start(self.spec_seed(), w));
        assert(t.len() == self.memsize);
        assert forall|j: int| 0 <= j < self.memsize implies self.mem@[j] == t[j] by {
            assert(t[j] == w[16 * (w.len() / 16) + j]);
        }
        let ms = self.memsize;
        let words = ms >> 2;
        let bytes = ms & 3;
        assert(words == ms / 4 && bytes == ms % 4) by (bit_vector)
            requires
                words == ms >> 2,
                bytes == ms & 3,
        ;
        let mut i: usize = 0;
        while i < words
            invariant
                i <= words,
                words == t.len() / 4,
                t.len() < 16,
                forall|j: int| 0 <= j < t.len() ==> self.mem@[j] == t[j],
                h32 == tail_words(xxh32_start(self.spec_seed(), w), t, i as nat),
            decreases words - i,
        {
            let word = Self::xxh_get32bits(&self.mem, 4 * i);
            assert(le32(self.mem@, 4 * i) == le32(t, 4 * i));
            h32 = Self::xxh_rotl32(h32.wrapping_add(word.wrapping_mul(Self::PRIME32_3)), 17).wrapping_mul(
                Self::PRIME32_4,
            );
            i += 1;
        }
        let start = 4 * words;
        let ghost hw = h32;
        let mut k: usize = 0;
        while k < bytes
            invariant
                k <= bytes,
                start + bytes == t.len(),
                t.len() < 16,
                forall|j: int| 0 <= j < t.len() ==> self.mem@[j] == t[j],
                h32 == tail_bytes(hw, t, start as int, k as nat),
            decreases bytes - k,
        {
            let b = self.mem[start + k];
            h32 = Self::xxh_rotl32(h32.wrapping_add((b as u32).wrapping_mul(Self::PRIME32_5)), 11).wrapping_mul(
                Self::PRIME32_1,
            );
            k += 1;
        }
        h32 ^= h32 >> 15u32;
        h32 = h32.wrapping_mul(Self::PRIME32_2);
        h32 ^= h32 >> 13u32;
        h32 = h32.wrapping_mul(Self::PRIME32_3);
        h32 ^= h32 >> 16u32;
        h32 as u64
    }
}

/// The hash depends only on the seed and the bytes fed, however they were
/// split into calls: feeding `s` and then `t` leaves the state that feeding
/// `s + t` at once leaves.
pub proof fn lemma_split_writes(s: Seq<u8>, t: Seq<u8>, u: Seq<u8>)
    ensures
        (s + t) + u == s + (t + u),
{
    assert((s + t) + u =~= s + (t + u));
}

} // verus!
