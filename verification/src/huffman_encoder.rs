use vstd::prelude::*;
use crate::bit_vector::{bit32, bits_lsb, bits_msb, fits, is_reversed32, BitVector};
use crate::bit_writer::{LeftBitWriter, RightBitWriter};
use crate::internal::{canonical_code, codes_fit, creat_huffman_table, last_coded, table_entry};

verus! {

/// Why a symbol could not be encoded.
#[derive(Clone, Copy, Debug, PartialEq, Eq, Structural)]
pub enum HuffmanEncodeError {
    /// The symbol has no code.
    OutOfValue,
}

/// The bits of the canonical code of `s`, first bit first.
pub open spec fn code_bits(lens: Seq<u8>, s: int) -> Seq<bool> {
    bits_msb(canonical_code(lens, s) as u32, lens[s] as nat)
}

/// Symbol `s` has a code.
pub open spec fn has_code(lens: Seq<u8>, s: int) -> bool {
    0 <= s < lens.len() && lens[s] != 0
}

/// A code read backwards from its low bits is the code read forwards.
pub proof fn lemma_reversed_bits(x: u32, r: u32, len: nat)
    requires
        0 < len <= 32,
        is_reversed32(x, r, len as int),
    ensures
        bits_lsb(r, len) == bits_msb(x, len),
        fits(r, len),
{
    let a = bits_lsb(r, len);
    let b = bits_msb(x, len);
    assert forall|i: int| 0 <= i < len implies a[i] == b[i] by {
        assert(bit32(r, i) == bit32(x, len - 1 - i));
    }
    assert(a =~= b);
}

/// The canonical codes of a set of code lengths.
struct CodeTable<const REVERSE: bool> {
    tab: Vec<Option<BitVector>>,
    lens: Ghost<Seq<u8>>,
}

impl<const REVERSE: bool> CodeTable<REVERSE> {
    #[verifier::type_invariant]
    spec fn inv(&self) -> bool {
        &&& codes_fit(self.lens@)
        &&& self.tab@.len() == last_coded(self.lens@, self.lens@.len() as int) + 1
        &&& forall|t: int|
            0 <= t < self.tab@.len() ==> #[trigger] table_entry(self.lens@, REVERSE, t, self.tab@[t])
    }

    fn new(symb_len: &[u8]) -> (r: Self)
        requires
            codes_fit(symb_len@),
        ensures
            r.lens@ == symb_len@,
    {
        let tab = creat_huffman_table(symb_len, REVERSE);
        CodeTable { tab, lens: Ghost(symb_len@) }
    }

    /// The code of symbol `s`, if it has one.
    fn lookup(&self, s: usize) -> (r: Option<BitVector>)
        ensures
            has_code(self.lens@, s as int) ==> r is Some && r->0.spec_len() == self.lens@[s as int]
                && 0 < r->0.spec_len() <= 32 && (if REVERSE {
                is_reversed32(
                    canonical_code(self.lens@, s as int) as u32,
                    r->0.spec_data(),
                    self.lens@[s as int] as int,
                )
            } else {
                r->0.spec_data() == canonical_code(self.lens@, s as int)
            }),
            !has_code(self.lens@, s as int) ==> r is None,
    {
        proof {
            use_type_invariant(self);
            crate::internal::lemma_last_coded(self.lens@, self.lens@.len() as int);
        }
        if s < self.tab.len() {
            proof {
                assert(table_entry(self.lens@, REVERSE, s as int, self.tab@[s as int]));
            }
            self.tab[s]
        } else {
            None
        }
    }
}

/// Encodes symbols with canonical Huffman codes, first bit of each code
/// into the most significant free bit of the output.
pub struct LeftHuffmanEncoder {
    inner: LeftBitWriter,
    attached: bool,
    table: CodeTable<false>,
}

impl LeftHuffmanEncoder {
    /// The code lengths the encoder was made with.
    pub closed spec fn lengths(&self) -> Seq<u8> {
        self.table.lens@
    }

    /// The writer.
    pub closed spec fn writer(&self) -> LeftBitWriter {
        self.inner
    }

    pub closed spec fn attached(&self) -> bool {
        self.attached
    }

    pub fn new(inner: LeftBitWriter, symb_len: &[u8]) -> (r: Self)
        requires
            codes_fit(symb_len@),
        ensures
            r.lengths() == symb_len@,
            r.writer() == inner,
            r.attached(),
    {
        LeftHuffmanEncoder { inner, attached: true, table: CodeTable::new(symb_len) }
    }

    /// Writes the code of symbol `data`; returns its length.
    pub fn enc(&mut self, data: usize) -> (r: Result<usize, HuffmanEncodeError>)
        requires
            has_code(old(self).lengths(), data as int) ==> old(self).attached() && old(
                self,
            ).writer().attached(),
        ensures
            has_code(old(self).lengths(), data as int) ==> r == Ok::<usize, HuffmanEncodeError>(
                old(self).lengths()[data as int] as usize,
            ) && final(self).writer().bits() == old(self).writer().bits() + code_bits(
                old(self).lengths(),
                data as int,
            ) && final(self).writer().attached(),
            !has_code(old(self).lengths(), data as int) ==> r == Err::<usize, HuffmanEncodeError>(
                HuffmanEncodeError::OutOfValue,
            ) && final(self).writer() == old(self).writer(),
            final(self).lengths() == old(self).lengths(),
            final(self).attached() == old(self).attached(),
    {
        match self.table.lookup(data) {
            Some(bv) => Ok(self.inner.write(&bv)),
            None => Err(HuffmanEncodeError::OutOfValue),
        }
    }

    /// The code of every symbol up to the last one with a code.
    pub fn get_enc_tab(&self) -> (r: &[Option<BitVector>])
        ensures
            r@.len() == last_coded(self.lengths(), self.lengths().len() as int) + 1,
            forall|t: int| 0 <= t < r@.len() ==> #[trigger] table_entry(self.lengths(), false, t, r@[t]),
    {
        proof {
            use_type_invariant(&self.table);
        }
        self.table.tab.as_slice()
    }

    pub fn get_ref(&self) -> (r: &LeftBitWriter)
        requires
            self.attached(),
        ensures
            *r == self.writer(),
    {
        &self.inner
    }

    pub fn get_mut(&mut self) -> (r: &mut LeftBitWriter)
        requires
            old(self).attached(),
        ensures
            *r == old(self).writer(),
            final(self).writer() == *final(r),
            final(self).lengths() == old(self).lengths(),
            final(self).attached(),
    {
        &mut self.inner
    }

    /// Hands the writer over; the encoder keeps no writer.
    pub fn into_inner(&mut self) -> (r: LeftBitWriter)
        requires
            old(self).attached(),
        ensures
            r == old(self).writer(),
            !final(self).attached(),
            final(self).lengths() == old(self).lengths(),
    {
        let mut taken = LeftBitWriter::new(Vec::new());
        std::mem::swap(&mut taken, &mut self.inner);
        self.attached = false;
        taken
    }
}

/// Encodes symbols with canonical Huffman codes, first bit of each code
/// into the least significant free bit of the output.
pub struct RightHuffmanEncoder {
    inner: RightBitWriter,
    attached: bool,
    table: CodeTable<true>,
}

impl RightHuffmanEncoder {
    /// The code lengths the encoder was made with.
    pub closed spec fn lengths(&self) -> Seq<u8> {
        self.table.lens@
    }

    /// The writer.
    pub closed spec fn writer(&self) -> RightBitWriter {
        self.inner
    }

    pub closed spec fn attached(&self) -> bool {
        self.attached
    }

    pub fn new(inner: RightBitWriter, symb_len: &[u8]) -> (r: Self)
        requires
            codes_fit(symb_len@),
        ensures
            r.lengths() == symb_len@,
            r.writer() == inner,
            r.attached(),
    {
        RightHuffmanEncoder { inner, attached: true, table: CodeTable::new(symb_len) }
    }

    /// Writes the code of symbol `data`; returns its length.
    pub fn enc(&mut self, data: usize) -> (r: Result<usize, HuffmanEncodeError>)
        requires
            has_code(old(self).lengths(), data as int) ==> old(self).attached() && old(
                self,
            ).writer().attached(),
        ensures
            has_code(old(self).lengths(), data as int) ==> r == Ok::<usize, HuffmanEncodeError>(
                old(self).lengths()[data as int] as usize,
            ) && final(self).writer().bits() == old(self).writer().bits() + code_bits(
                old(self).lengths(),
                data as int,
            ) && final(self).writer().attached(),
            !has_code(old(self).lengths(), data as int) ==> r == Err::<usize, HuffmanEncodeError>(
                HuffmanEncodeError::OutOfValue,
            ) && final(self).writer() == old(self).writer(),
            final(self).lengths() == old(self).lengths(),
            final(self).attached() == old(self).attached(),
    {
        match self.table.lookup(data) {
            Some(bv) => {
                proof {
                    lemma_reversed_bits(
                        canonical_code(self.table.lens@, data as int) as u32,
                        bv.spec_data(),
                        bv.spec_len() as nat,
                    );
                }
                Ok(self.inner.write(&bv))
            },
            None => Err(HuffmanEncodeError::OutOfValue),
        }
    }

    /// The bit-reversed code of every symbol up to the last one with a code.
    pub fn get_enc_tab(&self) -> (r: &[Option<BitVector>])
        ensures
            r@.len() == last_coded(self.lengths(), self.lengths().len() as int) + 1,
            forall|t: int| 0 <= t < r@.len() ==> #[trigger] table_entry(self.lengths(), true, t, r@[t]),
    {
        proof {
            use_type_invariant(&self.table);
        }
        self.table.tab.as_slice()
    }

    pub fn get_ref(&self) -> (r: &RightBitWriter)
        requires
            self.attached(),
        ensures
            *r == self.writer(),
    {
        &self.inner
    }

    pub fn get_mut(&mut self) -> (r: &mut RightBitWriter)
        requires
            old(self).attached(),
        ensures
            *r == old(self).writer(),
            final(self).writer() == *final(r),
            final(self).lengths() == old(self).lengths(),
            final(self).attached(),
    {
        &mut self.inner
    }

    /// Hands the writer over; the encoder keeps no writer.
    pub fn into_inner(&mut self) -> (r: RightBitWriter)
        requires
            old(self).attached(),
        ensures
            r == old(self).writer(),
            !final(self).attached(),
            final(self).lengths() == old(self).lengths(),
    {
        let mut taken = RightBitWriter::new(Vec::new());
        std::mem::swap(&mut taken, &mut self.inner);
        self.attached = false;
        taken
    }
}

} // verus!
