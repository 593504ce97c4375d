use vstd::prelude::*;

verus! {

/// One bit of CRC polynomial division, least significant bit first.
pub open spec fn crc_rev_step(v: u32, poly: u32) -> u32 {
    if v & 1 == 1 {
        (v >> 1u32) ^ poly
    } else {
        v >> 1u32
    }
}

/// One bit of CRC polynomial division, most significant bit first.
pub open spec fn crc_norm_step(v: u32, poly: u32) -> u32 {
    if v & 0x8000_0000 == 0x8000_0000 {
        (v << 1u32) ^ poly
    } else {
        v << 1u32
    }
}

/// `n` bits of least-significant-bit-first division.
pub open spec fn crc_rev_n(v: u32, poly: u32, n: nat) -> u32
    decreases n,
{
    if n == 0 {
        v
    } else {
        crc_rev_step(crc_rev_n(v, poly, (n - 1) as nat), poly)
    }
}

/// `n` bits of most-significant-bit-first division.
pub open spec fn crc_norm_n(v: u32, poly: u32, n: nat) -> u32
    decreases n,
{
    if n == 0 {
        v
    } else {
        crc_norm_step(crc_norm_n(v, poly, (n - 1) as nat), poly)
    }
}

/// The bit-serial CRC register after one more byte, in the bit order of the
/// polynomial representation.
pub open spec fn crc_byte(repr: PolynomialRepresentation, v: u32, poly: u32, byte: u8) -> u32 {
    match repr {
        PolynomialRepresentation::Reverse => crc_rev_n(v ^ (byte as u32), poly, 8),
        PolynomialRepresentation::Normal => crc_norm_n(v ^ ((byte as u32) << 24u32), poly, 8),
    }
}

/// The CRC register after the bytes of `s`, in order.
pub open spec fn crc_fold(repr: PolynomialRepresentation, v: u32, poly: u32, s: Seq<u8>) -> u32
    decreases s.len(),
{
    if s.len() == 0 {
        v
    } else {
        crc_byte(repr, crc_fold(repr, v, poly, s.drop_last()), poly, s.last())
    }
}

/// `table` holds, for each byte, the division of that byte by `poly` in the
/// given bit order.
pub open spec fn is_crc_table(table: Seq<u32>, repr: PolynomialRepresentation, poly: u32) -> bool {
    &&& table.len() == 256
    &&& forall|i: int|
        0 <= i < 256 ==> #[trigger] table[i] == match repr {
            PolynomialRepresentation::Reverse => crc_rev_n(i as u32, poly, 8),
            PolynomialRepresentation::Normal => crc_norm_n(((i as u32) << 24u32) as u32, poly, 8),
        }
}

/// The table of least-significant-bit-first CRC division by `poly`.
pub fn make_table_reverse(poly: u32) -> (table: [u32; 256])
    ensures
        is_crc_table(table@, PolynomialRepresentation::Reverse, poly),
{
    let mut table = [0u32; 256];
    let mut i: usize = 0;
    while i < 256
        invariant
            i <= 256,
            forall|k: int| 0 <= k < i ==> #[trigger] table@[k] == crc_rev_n(k as u32, poly, 8),
        decreases 256 - i,
    {
        let mut value = i as u32;
        let mut j: usize = 0;
        while j < 8
            invariant
                j <= 8,
                i < 256,
                value == crc_rev_n(i as u32, poly, j as nat),
            decreases 8 - j,
        {
            value = if (value & 1) == 1 {
                (value >> 1u32) ^ poly
            } else {
                value >> 1u32
            };
            j += 1;
        }
        table[i] = value;
        i += 1;
    }
    table
}

/// The table of most-significant-bit-first CRC division by `poly`.
pub fn make_table_normal(poly: u32) -> (table: [u32; 256])
    ensures
        is_crc_table(table@, PolynomialRepresentation::Normal, poly),
{
    let mut table = [0u32; 256];
    let mut i: usize = 0;
    while i < 256
        invariant
            i <= 256,
            forall|k: int| 0 <= k < i ==> #[trigger] table@[k] == crc_norm_n(((k as u32) << 24u32) as u32, poly, 8),
        decreases 256 - i,
    {
        let mut value = (i as u32) << 24u32;
        let mut j: usize = 0;
        while j < 8
            invariant
                j <= 8,
                i < 256,
                value == crc_norm_n(((i as u32) << 24u32) as u32, poly, j as nat),
            decreases 8 - j,
        {
            assert(1u32 << 31u32 == 0x8000_0000) by (bit_vector);
            value = if value & (1u32 << 31u32) == (1u32 << 31u32) {
                (value << 1u32) ^ poly
            } else {
                value << 1u32
            };
            j += 1;
        }
        table[i] = value;
        i += 1;
    }
    table
}

proof fn lemma_rev_step_linear(u: u32, w: u32, poly: u32)
    requires
        w & 1 == 0,
    ensures
        crc_rev_step(u ^ w, poly) == crc_rev_step(u, poly) ^ (w >> 1u32),
{
    assert(((u ^ w) & 1 == 1) == (u & 1 == 1) && ((u ^ w) >> 1u32) ^ poly == ((u >> 1u32) ^ poly) ^ (
    w >> 1u32) && (u ^ w) >> 1u32 == (u >> 1u32) ^ (w >> 1u32)) by (bit_vector)
        requires
            w & 1 == 0,
    ;
}

proof fn lemma_norm_step_linear(u: u32, w: u32, poly: u32)
    requires
        w & 0x8000_0000 == 0,
    ensures
        crc_norm_step(u ^ w, poly) == crc_norm_step(u, poly) ^ (w << 1u32),
{
    assert(((u ^ w) & 0x8000_0000 == 0x8000_0000) == (u & 0x8000_0000 == 0x8000_0000) && ((u ^ w)
        << 1u32) ^ poly == ((u << 1u32) ^ poly) ^ (w << 1u32) && (u ^ w) << 1u32 == (u << 1u32) ^ (w
        << 1u32)) by (bit_vector)
        requires
            w & 0x8000_0000 == 0,
    ;
}

proof fn lemma_rev_prefix(x: u32, poly: u32, k: u32)
    requires
        k <= 8,
    ensures
        crc_rev_n(x, poly, k as nat) == crc_rev_n(x & 0xff, poly, k as nat) ^ ((x & 0xffff_ff00) >> k),
    decreases k,
{
    let h = x & 0xffff_ff00;
    if k == 0 {
        assert(x == (x & 0xff) ^ h && h >> 0u32 == h) by (bit_vector)
            requires
                h == x & 0xffff_ff00,
        ;
    } else {
        let j = (k - 1) as u32;
        lemma_rev_prefix(x, poly, j);
        let w = h >> j;
        assert(w & 1 == 0 && w >> 1u32 == h >> k) by (bit_vector)
            requires
                j < 8,
                k == j + 1,
                w == h >> j,
                h == x & 0xffff_ff00,
        ;
        lemma_rev_step_linear(crc_rev_n(x & 0xff, poly, j as nat), w, poly);
    }
}

proof fn lemma_norm_prefix(x: u32, poly: u32, k: u32)
    requires
        k <= 8,
    ensures
        crc_norm_n(x, poly, k as nat) == crc_norm_n(x & 0xff00_0000, poly, k as nat) ^ ((x & 0x00ff_ffff) << k),
    decreases k,
{
    let h = x & 0x00ff_ffff;
    if k == 0 {
        assert(x == (x & 0xff00_0000) ^ h && h << 0u32 == h) by (bit_vector)
            requires
                h == x & 0x00ff_ffff,
        ;
    } else {
        let j = (k - 1) as u32;
        lemma_norm_prefix(x, poly, j);
        let w = h << j;
        assert(w & 0x8000_0000 == 0 && w << 1u32 == h << k) by (bit_vector)
            requires
                j < 8,
                k == j + 1,
                w == h << j,
                h == x & 0x00ff_ffff,
        ;
        lemma_norm_step_linear(crc_norm_n(x & 0xff00_0000, poly, j as nat), w, poly);
    }
}

/// Masking off the byte that a shift by eight drops changes nothing.
proof fn lemma_byte_masks(x: u32)
    by (bit_vector)
    ensures
        (x & 0xffff_ff00) >> 8u32 == x >> 8u32,
        (x & 0x00ff_ffff) << 8u32 == x << 8u32,
{
}

/// Least-significant-bit-first division by eight bits is linear in the
/// register: the bits above the low byte only shift down.
pub proof fn lemma_rev_n_split(x: u32, poly: u32)
    ensures
        crc_rev_n(x, poly, 8) == crc_rev_n(x & 0xff, poly, 8) ^ (x >> 8u32),
{
    lemma_rev_prefix(x, poly, 8);
    lemma_byte_masks(x);
}

/// Most-significant-bit-first division by eight bits is linear in the
/// register: the bits below the high byte only shift up.
pub proof fn lemma_norm_n_split(x: u32, poly: u32)
    ensures
        crc_norm_n(x, poly, 8) == crc_norm_n(x & 0xff00_0000, poly, 8) ^ (x << 8u32),
{
    lemma_norm_prefix(x, poly, 8);
    lemma_byte_masks(x);
}

/// The table-driven step of a least-significant-bit-first CRC.
pub fn update_reverse(value: u32, table: &[u32; 256], byte: u8) -> (r: u32)
    requires
        exists|poly: u32| is_crc_table(table@, PolynomialRepresentation::Reverse, poly),
    ensures
        forall|poly: u32|
            is_crc_table(table@, PolynomialRepresentation::Reverse, poly) ==> r == crc_byte(
                PolynomialRepresentation::Reverse,
                value,
                poly,
                byte,
            ),
{
    let idx = ((value as u8) ^ byte) as usize;
    let r = table[idx] ^ (value >> 8u32);
    assert forall|poly: u32|
        is_crc_table(table@, PolynomialRepresentation::Reverse, poly) implies r == crc_byte(
            PolynomialRepresentation::Reverse,
            value,
            poly,
            byte,
        ) by {
        let x = value ^ (byte as u32);
        lemma_rev_n_split(x, poly);
        assert(idx as u32 == x & 0xff && x >> 8u32 == value >> 8u32) by (bit_vector)
            requires
                idx == ((value as u8) ^ byte) as usize,
                x == value ^ (byte as u32),
        ;
        assert(table@[idx as int] == crc_rev_n(idx as u32, poly, 8));
    }
    r
}

/// The table-driven step of a most-significant-bit-first CRC.
pub fn update_normal(value: u32, table: &[u32; 256], byte: u8) -> (r: u32)
    requires
        exists|poly: u32| is_crc_table(table@, PolynomialRepresentation::Normal, poly),
    ensures
        forall|poly: u32|
            is_crc_table(table@, PolynomialRepresentation::Normal, poly) ==> r == crc_byte(
                PolynomialRepresentation::Normal,
                value,
                poly,
                byte,
            ),
{
    let idx = (((value >> 24u32) as u8) ^ byte) as usize;
    let r = table[idx] ^ (value << 8u32);
    assert forall|poly: u32|
        is_crc_table(table@, PolynomialRepresentation::Normal, poly) implies r == crc_byte(
            PolynomialRepresentation::Normal,
            value,
            poly,
            byte,
        ) by {
        let x = value ^ ((byte as u32) << 24u32);
        lemma_norm_n_split(x, poly);
        assert(((idx as u32) << 24u32) == x & 0xff00_0000 && x << 8u32 == value << 8u32) by (bit_vector)
            requires
                idx == (((value >> 24u32) as u8) ^ byte) as usize,
                x == value ^ ((byte as u32) << 24u32),
        ;
        assert(table@[idx as int] == crc_norm_n(((idx as u32) << 24u32) as u32, poly, 8));
    }
    r
}

/// The bit order of a CRC polynomial.
#[derive(Clone, Copy, Debug, PartialEq, Eq)]
pub enum PolynomialRepresentation {
    Normal,
    Reverse,
}

/// The parameters of a CRC: its table, initial register and bit order.
pub struct DigestBuilder {
    table: [u32; 256],
    initial: u32,
    poly_repr: PolynomialRepresentation,
    poly: Ghost<u32>,
}

impl DigestBuilder {
    pub closed spec fn wf(&self) -> bool {
        is_crc_table(self.table@, self.poly_repr, self.poly@)
    }

    pub closed spec fn spec_initial(&self) -> u32 {
        self.initial
    }

    pub closed spec fn spec_poly(&self) -> u32 {
        self.poly@
    }

    pub closed spec fn spec_repr(&self) -> PolynomialRepresentation {
        self.poly_repr
    }

    /// A fresh digest whose register holds the initial value.
    pub fn build_hasher(&self) -> (r: Digest)
        requires
            self.wf(),
        ensures
            r.wf(),
            r.spec_value() == self.spec_initial(),
            r.spec_poly() == self.spec_poly(),
            r.spec_repr() == self.spec_repr(),
    {
        Digest { table: self.table, value: self.initial, poly_repr: self.poly_repr, poly: Ghost(self.poly@) }
    }
}

/// The CRC-32 of IEEE 802.3 (gzip), least significant bit first.
pub fn ieee_reverse() -> (r: DigestBuilder)
    ensures
        r.wf(),
        r.spec_initial() == 0xFFFF_FFFF,
        r.spec_poly() == 0xEDB8_8320,
        r.spec_repr() == PolynomialRepresentation::Reverse,
{
    DigestBuilder {
        table: make_table_reverse(0xEDB8_8320),
        initial: 0xFFFF_FFFF,
        poly_repr: PolynomialRepresentation::Reverse,
        poly: Ghost(0xEDB8_8320),
    }
}

/// The CRC-32 of bzip2, most significant bit first.
pub fn ieee_normal() -> (r: DigestBuilder)
    ensures
        r.wf(),
        r.spec_initial() == 0xFFFF_FFFF,
        r.spec_poly() == 0x04C1_1DB7,
        r.spec_repr() == PolynomialRepresentation::Normal,
{
    DigestBuilder {
        table: make_table_normal(0x04C1_1DB7),
        initial: 0xFFFF_FFFF,
        poly_repr: PolynomialRepresentation::Normal,
        poly: Ghost(0x04C1_1DB7),
    }
}

/// A running CRC-32.
pub struct Digest {
    table: [u32; 256],
    value: u32,
    poly_repr: PolynomialRepresentation,
    poly: Ghost<u32>,
}

impl Digest {
    pub closed spec fn wf(&self) -> bool {
        is_crc_table(self.table@, self.poly_repr, self.poly@)
    }

    /// The CRC register.
    pub closed spec fn spec_value(&self) -> u32 {
        self.value
    }

    pub closed spec fn spec_poly(&self) -> u32 {
        self.poly@
    }

    pub closed spec fn spec_repr(&self) -> PolynomialRepresentation {
        self.poly_repr
    }

    /// The checksum: the complement of the register.
    pub fn finish(&self) -> (r: u64)
        ensures
            r == (!self.spec_value()) as u64,
    {
        (!self.value) as u64
    }

    pub fn write_u8(&mut self, i: u8)
        requires
            old(self).wf(),
        ensures
            final(self).wf(),
            final(self).spec_poly() == old(self).spec_poly(),
            final(self).spec_repr() == old(self).spec_repr(),
            final(self).spec_value() == crc_byte(old(self).spec_repr(), old(self).spec_value(), old(self).spec_poly(), i),
    {
        self.value = match self.poly_repr {
            PolynomialRepresentation::Normal => update_normal(self.value, &self.table, i),
            PolynomialRepresentation::Reverse => update_reverse(self.value, &self.table, i),
        };
    }

    pub fn write(&mut self, bytes: &[u8])
        requires
            old(self).wf(),
        ensures
            final(self).wf(),
            final(self).spec_poly() == old(self).spec_poly(),
            final(self).spec_repr() == old(self).spec_repr(),
            final(self).spec_value() == crc_fold(old(self).spec_repr(), old(self).spec_value(), old(self).spec_poly(), bytes@),
    {
        let mut i: usize = 0;
        while i < bytes.len()
            invariant
                i <= bytes.len(),
                self.wf(),
                self.spec_poly() == old(self).spec_poly(),
                self.spec_repr() == old(self).spec_repr(),
                self.spec_value() == crc_fold(old(self).spec_repr(), old(self).spec_value(), old(self).spec_poly(), bytes@.subrange(0, i as int)),
            decreases bytes.len() - i,
        {
            assert(bytes@.subrange(0, i + 1).drop_last() =~= bytes@.subrange(0, i as int));
            self.write_u8(bytes[i]);
            i += 1;
        }
        assert(bytes@.subrange(0, bytes.len() as int) =~= bytes@);
    }
}

} // verus!
