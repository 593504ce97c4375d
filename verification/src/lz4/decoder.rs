use vstd::prelude::*;
use crate::bit_reader::ByteSource;
use crate::error::CompressionError;
use crate::xxhash::{xxh32_of, XXH32};

verus! {

/// The magic number that opens an LZ4 frame.
pub const MAGIC: u32 = 0x184d2204;

/// An LZ4 length continued past 15: from `cur`, bytes are added to `acc`
/// for as long as they are 255, the first other byte included. The length
/// and where the bytes after it start; `None` when the input ends first.
pub open spec fn lz4_len(input: Seq<u8>, cur: int, acc: nat) -> Option<(nat, int)>
    decreases input.len() - cur,
{
    if cur < 0 || cur >= input.len() {
        None
    } else if input[cur] == 255 {
        lz4_len(input, cur + 1, acc + 255)
    } else {
        Some(((acc + input[cur]) as nat, cur + 1))
    }
}

/// A length whose four-bit start is `code`: read further only when it is
/// 15.
pub open spec fn lz4_length(input: Seq<u8>, cur: int, code: u8) -> Option<(nat, int)> {
    if code == 15 {
        lz4_len(input, cur, 15)
    } else {
        Some((code as nat, cur))
    }
}

/// `out` after `n` bytes copied one by one from `back` bytes before the
/// end (so a copy may overlap what it writes).
pub open spec fn copy_match(out: Seq<u8>, back: nat, n: nat) -> Seq<u8>
    decreases n,
{
    if n == 0 {
        out
    } else {
        let o = copy_match(out, back, (n - 1) as nat);
        o.push(o[o.len() - back])
    }
}

proof fn lemma_lz4_len(input: Seq<u8>, cur: int, acc: nat)
    ensures
        lz4_len(input, cur, acc) matches Some((v, c)) ==> acc <= v && cur < c <= input.len(),
    decreases input.len() - cur,
{
    if 0 <= cur < input.len() && input[cur] == 255 {
        lemma_lz4_len(input, cur + 1, acc + 255);
    }
}

proof fn lemma_lz4_length(input: Seq<u8>, cur: int, code: u8)
    requires
        0 <= cur <= input.len(),
    ensures
        lz4_length(input, cur, code) matches Some((v, c)) ==> code <= v && cur <= c <= input.len(),
{
    if code == 15 {
        lemma_lz4_len(input, cur, 15);
    }
}

pub proof fn lemma_copy_match_len(out: Seq<u8>, back: nat, n: nat)
    ensures
        copy_match(out, back, n).len() == out.len() + n,
        out.is_prefix_of(copy_match(out, back, n)),
    decreases n,
{
    if n > 0 {
        lemma_copy_match_len(out, back, (n - 1) as nat);
    }
}

/// The output of the LZ4 block `input` from `cur` on, `out` having been
/// written already: sequences of a token (literal count above, match
/// length less 4 below), the literal count's continuation, the literals,
/// then, unless the input ends there, a two-byte little-endian distance
/// back into the output (at least 1, at most what has been written) and
/// the match length's continuation. `None` for a malformed block.
pub open spec fn lz4_block_from(input: Seq<u8>, cur: int, out: Seq<u8>) -> Option<Seq<u8>>
    decreases input.len() - cur,
{
    if cur < 0 || cur >= input.len() {
        Some(out)
    } else {
        let code = input[cur];
        match lz4_length(input, cur + 1, code / 16) {
            None => None,
            Some((lit, c1)) => {
                if c1 < cur + 1 || c1 + lit > input.len() {
                    None
                } else {
                    let out1 = out + input.subrange(c1, c1 + lit);
                    let c2 = c1 + lit;
                    if c2 == input.len() {
                        Some(out1)
                    } else if c2 + 2 > input.len() {
                        None
                    } else {
                        let back = input[c2] + 256 * input[c2 + 1];
                        if back == 0 || back > out1.len() {
                            None
                        } else {
                            match lz4_length(input, c2 + 2, code % 16) {
                                None => None,
                                Some((ml, c3)) => {
                                    if c3 < c2 + 2 || c3 > input.len() {
                                        None
                                    } else {
                                        lz4_block_from(input, c3, copy_match(out1, back as nat, ml + 4))
                                    }
                                },
                            }
                        }
                    }
                }
            },
        }
    }
}

/// What the block decodes from only grows the output.
proof fn lemma_block_grows(input: Seq<u8>, cur: int, out: Seq<u8>)
    ensures
        lz4_block_from(input, cur, out) matches Some(o) ==> out.len() <= o.len(),
    decreases input.len() - cur,
{
    if 0 <= cur < input.len() {
        let code = input[cur];
        if let Some((lit, c1)) = lz4_length(input, cur + 1, code / 16) {
            if c1 >= cur + 1 && c1 + lit <= input.len() {
                let out1 = out + input.subrange(c1, c1 + lit);
                let c2 = c1 + lit;
                if c2 != input.len() && c2 + 2 <= input.len() {
                    let back = input[c2] + 256 * input[c2 + 1];
                    if back != 0 && back <= out1.len() {
                        if let Some((ml, c3)) = lz4_length(input, c2 + 2, code % 16) {
                            if c3 >= c2 + 2 && c3 <= input.len() {
                                lemma_copy_match_len(out1, back as nat, ml + 4);
                                lemma_block_grows(input, c3, copy_match(out1, back as nat, ml + 4));
                            }
                        }
                    }
                }
            }
        }
    }
}

/// Reads a length whose four-bit start is `code`, continuing past 15.
fn read_len(input: &[u8], cur: &mut usize, code: u8) -> (r: Result<usize, CompressionError>)
    requires
        *old(cur) <= input@.len(),
        code < 16,
    ensures
        r matches Ok(v) ==> lz4_length(input@, *old(cur) as int, code) == Some((v as nat, *final(cur) as int)),
        lz4_length(input@, *old(cur) as int, code) is None ==> r is Err,
        lz4_length(input@, *old(cur) as int, code) matches Some((v, c)) && v <= usize::MAX ==> r is Ok,
        r is Err ==> r == Err::<usize, CompressionError>(CompressionError::DataError),
{
    let mut ret = code as usize;
    if code == 15 {
        proof {
            lemma_lz4_len(input@, *cur as int, 15);
        }
        loop
            invariant_except_break
                *cur <= input@.len(),
                lz4_len(input@, *cur as int, ret as nat) == lz4_length(input@, *old(cur) as int, code),
            invariant
                code == 15,
            ensures
                lz4_length(input@, *old(cur) as int, code) == Some((ret as nat, *cur as int)),
            decreases input@.len() - *cur,
        {
            proof {
                lemma_lz4_len(input@, *cur as int, ret as nat);
            }
            if *cur >= input.len() {
                return Err(CompressionError::DataError);
            }
            let tmp = input[*cur];
            *cur = *cur + 1;
            if ret > usize::MAX - tmp as usize {
                proof {
                    lemma_lz4_len(input@, *cur as int, (ret + tmp) as nat);
                }
                return Err(CompressionError::DataError);
            }
            ret = ret + tmp as usize;
            if tmp != 255 {
                break;
            }
        }
    }
    Ok(ret)
}

/// Decodes an LZ4 block, as `lz4_block_from` says.
fn decode_block_data(input: &[u8]) -> (r: Result<Vec<u8>, CompressionError>)
    ensures
        r matches Ok(v) ==> lz4_block_from(input@, 0, Seq::empty()) == Some(v@),
        lz4_block_from(input@, 0, Seq::empty()) is None ==> r is Err,
        lz4_block_from(input@, 0, Seq::empty()) matches Some(o) && o.len() <= usize::MAX ==> r is Ok,
        r is Err ==> r == Err::<Vec<u8>, CompressionError>(CompressionError::DataError),
{
    let ghost goal = lz4_block_from(input@, 0, Seq::empty());
    let mut out: Vec<u8> = Vec::new();
    let mut cur: usize = 0;
    while cur < input.len()
        invariant
            cur <= input@.len(),
            lz4_block_from(input@, cur as int, out@) == goal,
            goal == lz4_block_from(input@, 0, Seq::empty()),
        decreases input@.len() - cur,
    {
        proof {
            lemma_block_grows(input@, cur as int, out@);
        }
        let ghost cur0 = cur as int;
        let ghost out0 = out@;
        let code = input[cur];
        cur = cur + 1;
        proof {
            lemma_lz4_length(input@, cur as int, code / 16);
        }
        let lit = match read_len(input, &mut cur, code / 16) {
            Ok(v) => v,
            Err(e) => {
                return Err(e);
            },
        };
        if lit > input.len() - cur {
            return Err(CompressionError::DataError);
        }
        let c1 = cur;
        let mut i: usize = 0;
        while i < lit
            invariant
                i <= lit,
                c1 + lit <= input.len(),
                out@ == out0 + input@.subrange(c1 as int, c1 + i),
            decreases lit - i,
        {
            out.push(input[c1 + i]);
            i = i + 1;
            assert(out@ =~= out0 + input@.subrange(c1 as int, c1 + i));
        }
        cur = c1 + lit;
        if cur == input.len() {
            return Ok(out);
        }
        if input.len() - cur < 2 {
            return Err(CompressionError::DataError);
        }
        let lo = input[cur];
        let hi = input[cur + 1];
        let back = lo as usize + (hi as usize) * 256;
        cur = cur + 2;
        if back == 0 || back > out.len() {
            return Err(CompressionError::DataError);
        }
        let ghost out1 = out@;
        proof {
            lemma_lz4_length(input@, cur as int, code % 16);
            assert(out1 == out0 + input@.subrange(c1 as int, c1 + lit));
            if goal is Some {
                if let Some((mlv, c3)) = lz4_length(input@, cur as int, code % 16) {
                    assert(lz4_block_from(input@, cur0, out0) == lz4_block_from(
                        input@,
                        c3,
                        copy_match(out1, back as nat, mlv + 4),
                    ));
                    lemma_block_grows(input@, c3, copy_match(out1, back as nat, mlv + 4));
                    lemma_copy_match_len(out1, back as nat, mlv + 4);
                }
            }
        }
        let ml = match read_len(input, &mut cur, code % 16) {
            Ok(v) => v,
            Err(e) => {
                return Err(e);
            },
        };
        proof {
            lemma_copy_match_len(out1, back as nat, (ml + 4) as nat);
            if goal matches Some(o) {
                lemma_block_grows(input@, cur as int, copy_match(out1, back as nat, (ml + 4) as nat));
            }
        }
        if out.len() > usize::MAX - 4 || ml > usize::MAX - 4 - out.len() {
            return Err(CompressionError::DataError);
        }
        let total = ml + 4;
        let mut k: usize = 0;
        while k < total
            invariant
                k <= total,
                0 < back <= out1.len(),
                out1.len() + total <= usize::MAX,
                out@ == copy_match(out1, back as nat, k as nat),
            decreases total - k,
        {
            proof {
                lemma_copy_match_len(out1, back as nat, k as nat);
            }
            let b = out[out.len() - back];
            out.push(b);
            k = k + 1;
        }
    }
    Ok(out)
}


/// The little-endian number in the first four bytes of `s`.
pub open spec fn le_u32(s: Seq<u8>) -> nat {
    (s[0] + 256 * s[1] + 65536 * s[2] + 16777216 * s[3]) as nat
}

/// The little-endian number in the first eight bytes of `s`.
pub open spec fn le_u64(s: Seq<u8>) -> nat {
    (le_u32(s) + 4294967296 * le_u32(s.skip(4))) as nat
}

/// The eight bytes of `v`, least significant first.
pub open spec fn le_bytes64(v: u64) -> Seq<u8> {
    Seq::new(8, |k: int| ((v >> (8 * k) as u64) % 256) as u8)
}

/// Whether the flag byte `flg` announces a checksum after each block.
pub open spec fn block_checksum_flag(flg: u8) -> bool {
    flg / 16 % 2 == 1
}

/// How long a frame header with flag byte `flg` is: magic, flags, block
/// descriptor, the content size when flagged, and the check byte.
pub open spec fn header_len(flg: u8) -> int {
    if flg / 8 % 2 == 1 {
        15
    } else {
        7
    }
}

/// What the frame descriptor hashes: flags, block descriptor and, when
/// flagged, the content size.
pub open spec fn descriptor(s: Seq<u8>) -> Seq<u8> {
    if s[4] / 8 % 2 == 1 {
        seq![s[4], s[5]] + le_bytes64(le_u64(s.skip(6)) as u64)
    } else {
        seq![s[4], s[5]]
    }
}

/// The header check byte: the second byte of the xxHash32 of the
/// descriptor.
pub open spec fn header_check(s: Seq<u8>) -> u8 {
    (((crate::xxhash::xxh32_of(0, descriptor(s)) as u64) >> 8u64) % 256) as u8
}


/// Reads a little-endian 32-bit word.
fn read_u32(src: &mut ByteSource) -> (r: Result<u32, CompressionError>)
    ensures
        r is Ok <==> old(src).remaining().len() >= 4,
        r is Ok ==> r->Ok_0 == le_u32(old(src).remaining()) && final(src).remaining() == old(src).remaining().skip(4),
        r is Err ==> r == Err::<u32, CompressionError>(CompressionError::UnexpectedEof),
        final(src).remaining().len() <= old(src).remaining().len(),
{
    let ghost s = src.remaining();
    let b0 = match src.read_byte() {
        Some(b) => b,
        None => {
            return Err(CompressionError::UnexpectedEof);
        },
    };
    let b1 = match src.read_byte() {
        Some(b) => b,
        None => {
            return Err(CompressionError::UnexpectedEof);
        },
    };
    let b2 = match src.read_byte() {
        Some(b) => b,
        None => {
            return Err(CompressionError::UnexpectedEof);
        },
    };
    let b3 = match src.read_byte() {
        Some(b) => b,
        None => {
            return Err(CompressionError::UnexpectedEof);
        },
    };
    proof {
        assert(s.skip(1).skip(1).skip(1).skip(1) =~= s.skip(4));
    }
    Ok(b0 as u32 + (b1 as u32) * 256 + (b2 as u32) * 65536 + (b3 as u32) * 16777216)
}

/// Reads a little-endian 64-bit word.
fn read_u64(src: &mut ByteSource) -> (r: Result<u64, CompressionError>)
    ensures
        r is Ok <==> old(src).remaining().len() >= 8,
        r is Ok ==> r->Ok_0 == le_u64(old(src).remaining()) && final(src).remaining() == old(src).remaining().skip(8),
        r is Err ==> r == Err::<u64, CompressionError>(CompressionError::UnexpectedEof),
        final(src).remaining().len() <= old(src).remaining().len(),
{
    let ghost s = src.remaining();
    let lo = read_u32(src)?;
    let hi = match read_u32(src) {
        Ok(v) => v,
        Err(e) => {
            return Err(e);
        },
    };
    proof {
        assert(s.skip(4).skip(4) =~= s.skip(8));
    }
    Ok(lo as u64 + (hi as u64) * 4294967296)
}

/// Reads `n` bytes, all or none.
fn read_bytes(src: &mut ByteSource, n: usize) -> (r: Result<Vec<u8>, CompressionError>)
    ensures
        r is Ok <==> old(src).remaining().len() >= n,
        r is Ok ==> r->Ok_0@ == old(src).remaining().take(n as int) && final(src).remaining() == old(
            src,
        ).remaining().skip(n as int),
        r is Err ==> r == Err::<Vec<u8>, CompressionError>(CompressionError::UnexpectedEof),
        final(src).remaining().len() <= old(src).remaining().len(),
{
    let ghost s = src.remaining();
    if src.remaining_len() < n {
        return Err(CompressionError::UnexpectedEof);
    }
    let mut v: Vec<u8> = Vec::new();
    let mut i: usize = 0;
    while i < n
        invariant
            i <= n,
            n <= s.len(),
            src.remaining() == s.skip(i as int),
            v@ == s.take(i as int),
        decreases n - i,
    {
        let b = match src.read_byte() {
            Some(b) => b,
            None => {
                return Err(CompressionError::UnexpectedEof);
            },
        };
        v.push(b);
        i = i + 1;
        assert(v@ =~= s.take(i as int));
        assert(src.remaining() =~= s.skip(i as int));
    }
    Ok(v)
}

/// The data block that the first bytes of `src` hold, and what follows
/// it: a little-endian size (not zero), whose top bit marks the block as
/// stored as is; the block; with `checksum`, the xxHash32 of the decoded
/// block after it.
pub open spec fn block_read(src: Seq<u8>, rest: Seq<u8>, out: Seq<u8>, checksum: bool) -> bool {
    &&& src.len() >= 4
    &&& le_u32(src) != 0
    &&& {
        let n = le_u32(src);
        let stored = n >= 0x8000_0000;
        let len: int = if stored { n - 0x8000_0000 } else { n as int };
        let body = src.subrange(4, 4 + len);
        let after = src.skip(4 + len);
        &&& 4 + len <= src.len()
        &&& stored ==> out == body
        &&& !stored ==> lz4_block_from(body, 0, Seq::empty()) == Some(out)
        &&& !checksum ==> rest == after
        &&& checksum ==> after.len() >= 4 && le_u32(after) == xxh32_of(0, out) && rest == after.skip(4)
    }
}

/// The block reader's result is determined by its input: one block, one
/// remainder.
pub proof fn lemma_block_read_unique(src: Seq<u8>, r1: Seq<u8>, o1: Seq<u8>, r2: Seq<u8>, o2: Seq<u8>, checksum: bool)
    requires
        block_read(src, r1, o1, checksum),
        block_read(src, r2, o2, checksum),
    ensures
        r1 == r2,
        o1 == o2,
{
}

/// A decoder of the LZ4 frame format, byte by byte.
pub struct Lz4Decoder {
    output: Vec<u8>,
    start: usize,
    end: usize,
    eof: bool,
    header: bool,
    blk_checksum: bool,
    stream_checksum: bool,
    max_block_size: usize,
}

impl Lz4Decoder {
    pub closed spec fn wf(&self) -> bool {
        &&& self.start <= self.end
        &&& self.end == self.output@.len()
        &&& self.eof ==> self.header
    }

    /// The bytes of the current block not handed out yet.
    pub closed spec fn spec_pending(&self) -> Seq<u8> {
        self.output@.subrange(self.start as int, self.end as int)
    }

    /// The current block.
    pub closed spec fn spec_block(&self) -> Seq<u8> {
        self.output@
    }

    /// The end mark has been read.
    pub closed spec fn spec_eof(&self) -> bool {
        self.eof
    }

    /// The frame header has been read.
    pub closed spec fn spec_header(&self) -> bool {
        self.header
    }

    /// Each block carries a checksum.
    pub closed spec fn spec_block_checksum(&self) -> bool {
        self.blk_checksum
    }

    pub fn new() -> (r: Self)
        ensures
            r.wf(),
            r.spec_pending().len() == 0,
            !r.spec_eof(),
            !r.spec_header(),
    {
        Lz4Decoder {
            output: Vec::new(),
            header: false,
            blk_checksum: false,
            stream_checksum: false,
            start: 0,
            end: 0,
            eof: false,
            max_block_size: 0,
        }
    }

    /// Reads the frame header: the magic number, the flags (version 1),
    /// the block size, the content size where the flags announce one, and
    /// the header checksum (the second byte of the xxHash32 of the
    /// descriptor). Preset dictionaries are refused.
    #[verifier::rlimit(50)]
    fn read_header(&mut self, src: &mut ByteSource) -> (r: Result<(), CompressionError>)
        requires
            old(self).wf(),
        ensures
            final(self).wf(),
            final(self).spec_pending() == old(self).spec_pending(),
            final(self).eof == old(self).eof,
            final(src).remaining().len() <= old(src).remaining().len(),
            r is Err ==> r == Err::<(), CompressionError>(CompressionError::DataError) || r == Err::<
                (),
                CompressionError,
            >(CompressionError::UnexpectedEof),
            r is Ok ==> {
                let s = old(src).remaining();
                &&& s.len() >= 7
                &&& le_u32(s) == MAGIC
                &&& s[4] / 64 == 1
                &&& s[4] % 2 == 0
                &&& final(self).blk_checksum == block_checksum_flag(s[4])
                &&& s.len() >= header_len(s[4])
                &&& s[header_len(s[4]) - 1] == header_check(s)
                &&& final(src).remaining() == s.skip(header_len(s[4]))
            },
            old(src).remaining().len() < 4 ==> r == Err::<(), CompressionError>(CompressionError::UnexpectedEof),
            old(src).remaining().len() >= 4 && le_u32(old(src).remaining()) != MAGIC ==> r == Err::<
                (),
                CompressionError,
            >(CompressionError::DataError),
            ({
                let s = old(src).remaining();
                s.len() >= header_len(s[4]) && le_u32(s) == MAGIC && s[4] / 64 == 1 && s[4] % 2 == 0 ==> (r is Ok
                    <==> s[header_len(s[4]) - 1] == header_check(s))
            }),
    {
        let ghost s = src.remaining();
        let magic = match read_u32(src) {
            Ok(m) => m,
            Err(e) => {
                return Err(e);
            },
        };
        if magic != MAGIC {
            return Err(CompressionError::DataError);
        }
        let mut digest = XXH32::default();
        let flg = match src.read_byte() {
            Some(b) => b,
            None => {
                return Err(CompressionError::UnexpectedEof);
            },
        };
        assert(flg == s[4]);
        assert(src.remaining() =~= s.skip(5));
        digest.write_u8(flg);
        let bd = match src.read_byte() {
            Some(b) => b,
            None => {
                return Err(CompressionError::UnexpectedEof);
            },
        };
        assert(bd == s[5]);
        assert(src.remaining() =~= s.skip(6));
        digest.write_u8(bd);
        assert(digest.spec_written() =~= seq![flg, bd]);
        if flg / 64 != 1 {
            return Err(CompressionError::DataError);
        }
        self.blk_checksum = flg / 16 % 2 == 1;
        let stream_size = flg / 8 % 2 == 1;
        self.stream_checksum = flg / 4 % 2 == 1;
        let preset_dictionary = flg % 2 == 1;
        let code = bd / 16 % 8;
        let max_block_size: usize = if code == 4 {
            0x1_0000
        } else if code == 5 {
            0x4_0000
        } else if code == 6 {
            0x10_0000
        } else if code == 7 {
            0x40_0000
        } else {
            0
        };
        if stream_size {
            let size = match read_u64(src) {
                Ok(v) => v,
                Err(e) => {
                    return Err(e);
                },
            };
            let mut k: u64 = 0;
            while k < 8
                invariant
                    k <= 8,
                    digest.wf(),
                    digest.spec_seed() == 0,
                    digest.spec_written().len() == 2 + k,
                    digest.spec_written() == seq![flg, bd] + le_bytes64(size).take(k as int),
                decreases 8 - k,
            {
                digest.write_u8(((size >> (8 * k)) % 256) as u8);
                proof {
                    assert(seq![flg, bd] + le_bytes64(size).take(k + 1) =~= (seq![flg, bd] + le_bytes64(size).take(
                        k as int,
                    )).push(((size >> (8 * k)) % 256) as u8));
                }
                k = k + 1;
            }
        }
        if preset_dictionary {
            return Err(CompressionError::DataError);
        }
        self.max_block_size = max_block_size;
        proof {
            if stream_size {
                assert(src.remaining() =~= s.skip(14));
                assert(le_bytes64(le_u64(s.skip(6)) as u64).take(8) =~= le_bytes64(le_u64(s.skip(6)) as u64));
                assert(digest.spec_written() =~= descriptor(s));
            } else {
                assert(digest.spec_written() =~= descriptor(s));
            }
        }
        let cksum = match src.read_byte() {
            Some(b) => b,
            None => {
                return Err(CompressionError::UnexpectedEof);
            },
        };
        assert(cksum == s[header_len(s[4]) - 1]);
        assert(src.remaining() =~= s.skip(header_len(s[4])));
        proof {
            assert(crate::xxhash::xxh32_base(0, digest.spec_written()) == 374761393u32);
        }
        if ((digest.finish() >> 8u64) % 256) as u8 != cksum {
            return Err(CompressionError::DataError);
        }
        Ok(())
    }
}


impl Lz4Decoder {
    /// Reads the next data block into the output; `false` at the end mark
    /// (a size of zero).
    #[verifier::rlimit(40)]
    fn decode_block(&mut self, src: &mut ByteSource) -> (r: Result<bool, CompressionError>)
        requires
            old(self).wf(),
        ensures
            final(self).wf(),
            final(self).eof == old(self).eof,
            final(self).header == old(self).header,
            final(self).blk_checksum == old(self).blk_checksum,
            final(src).remaining().len() <= old(src).remaining().len(),
            final(src).remaining().len() < old(src).remaining().len() || r is Err,
            r == Ok::<bool, CompressionError>(false) ==> old(src).remaining().len() >= 4 && le_u32(old(src).remaining())
                == 0 && final(src).remaining() == old(src).remaining().skip(4),
            r == Ok::<bool, CompressionError>(true) ==> final(self).start == 0 && block_read(
                old(src).remaining(),
                final(src).remaining(),
                final(self).output@,
                old(self).blk_checksum,
            ),
            r is Err ==> r == Err::<bool, CompressionError>(CompressionError::DataError) || r == Err::<
                bool,
                CompressionError,
            >(CompressionError::UnexpectedEof) || r == Err::<bool, CompressionError>(CompressionError::Unexpected),
            forall|rest: Seq<u8>, out: Seq<u8>|
                #[trigger] block_read(old(src).remaining(), rest, out, old(self).blk_checksum) && out.len() + 16
                    <= usize::MAX ==> r == Ok::<bool, CompressionError>(true),
            old(src).remaining().len() >= 4 && le_u32(old(src).remaining()) == 0 ==> r == Ok::<bool, CompressionError>(
                false,
            ),
    {
        let ghost s = src.remaining();
        let n = read_u32(src)?;
        if n == 0 {
            return Ok(false);
        }
        let ghost s4 = src.remaining();
        let out = if n >= 0x8000_0000 {
            let amt = (n - 0x8000_0000) as usize;
            read_bytes(src, amt)?
        } else {
            let body = read_bytes(src, n as usize)?;
            proof {
                assert(body@ =~= s.subrange(4, 4 + n as int));
            }
            decode_block_data(body.as_slice())?
        };
        proof {
            let len: int = if n >= 0x8000_0000 { n - 0x8000_0000 } else { n as int };
            assert(s.skip(4).take(len) =~= s.subrange(4, 4 + len));
            assert(s.skip(4).skip(len) =~= s.skip(4 + len));
        }
        if self.blk_checksum {
            let cksum = read_u32(src)?;
            let mut digest = XXH32::default();
            if out.len() > usize::MAX - 16 {
                return Err(CompressionError::Unexpected);
            }
            digest.write(out.as_slice());
            if digest.finish() != cksum as u64 {
                return Err(CompressionError::DataError);
            }
        }
        self.end = out.len();
        self.output = out;
        self.start = 0;
        Ok(true)
    }

    /// Reads blocks until one holds bytes (`true`, none of them handed out
    /// yet) or the end mark is read (`false`).
    fn fill(&mut self, src: &mut ByteSource) -> (r: Result<bool, CompressionError>)
        requires
            old(self).wf(),
            old(self).header,
            !old(self).eof,
            old(self).start == old(self).end,
        ensures
            final(self).wf(),
            final(self).header,
            final(self).blk_checksum == old(self).blk_checksum,
            final(src).remaining().len() <= old(src).remaining().len(),
            r == Ok::<bool, CompressionError>(true) ==> !final(self).eof && final(self).start == 0 && final(self).start
                < final(self).end,
            r == Ok::<bool, CompressionError>(false) ==> final(self).eof,
            r is Err ==> r == Err::<bool, CompressionError>(CompressionError::DataError) || r == Err::<
                bool,
                CompressionError,
            >(CompressionError::UnexpectedEof) || r == Err::<bool, CompressionError>(CompressionError::Unexpected),
            forall|rest: Seq<u8>, out: Seq<u8>|
                #[trigger] block_read(old(src).remaining(), rest, out, old(self).blk_checksum) && 0 < out.len()
                    && out.len() + 16 <= usize::MAX ==> r == Ok::<bool, CompressionError>(true) && final(self).output@
                    == out && final(src).remaining() == rest,
            old(src).remaining().len() >= 4 && le_u32(old(src).remaining()) == 0 ==> r == Ok::<bool, CompressionError>(
                false,
            ),
    {
        let ghost s0 = src.remaining();
        let ghost c = self.blk_checksum;
        let ghost good = exists|rest: Seq<u8>, out: Seq<u8>|
            #[trigger] block_read(s0, rest, out, c) && 0 < out.len() && out.len() + 16 <= usize::MAX;
        let ghost mut first = true;
        while self.start == self.end
            invariant
                self.wf(),
                self.header,
                !self.eof,
                self.blk_checksum == c,
                c == old(self).blk_checksum,
                s0 == old(src).remaining(),
                first ==> src.remaining() == s0 && self.start == self.end,
                !first ==> self.start == 0 && !(s0.len() >= 4 && le_u32(s0) == 0),
                good == exists|rest: Seq<u8>, out: Seq<u8>|
                    #[trigger] block_read(s0, rest, out, c) && 0 < out.len() && out.len() + 16 <= usize::MAX,
                !first && good ==> block_read(s0, src.remaining(), self.output@, c) && self.output@.len() > 0
                    && self.start == 0,
                src.remaining().len() <= old(src).remaining().len(),
            decreases src.remaining().len(),
        {
            let ghost before = src.remaining();
            proof {
                if first && good {
                    let (rw, ow) = choose|rest: Seq<u8>, out: Seq<u8>|
                        #[trigger] block_read(s0, rest, out, c) && 0 < out.len() && out.len() + 16 <= usize::MAX;
                    assert(block_read(before, rw, ow, c));
                }
            }
            let keep_going = match self.decode_block(src) {
                Ok(k) => k,
                Err(e) => {
                    return Err(e);
                },
            };
            if !keep_going {
                self.eof = true;
                return Ok(false);
            }
            proof {
                if first && good {
                    let (rw, ow) = choose|rest: Seq<u8>, out: Seq<u8>|
                        #[trigger] block_read(s0, rest, out, c) && 0 < out.len() && out.len() + 16 <= usize::MAX;
                    lemma_block_read_unique(s0, rw, ow, src.remaining(), self.output@, c);
                }
                first = false;
            }
        }
        proof {
            if good {
                assert forall|rest: Seq<u8>, out: Seq<u8>|
                    #[trigger] block_read(s0, rest, out, c) && 0 < out.len() && out.len() + 16 <= usize::MAX implies rest
                    == src.remaining() && out == self.output@ by {
                    lemma_block_read_unique(s0, rest, out, src.remaining(), self.output@, c);
                }
            }
        }
        Ok(true)
    }

    /// The next decoded byte; `None` after the end mark. The header is
    /// read first; blocks are read as the bytes of the one before run out.
    #[verifier::rlimit(30)]
    pub fn next(&mut self, src: &mut ByteSource) -> (r: Result<Option<u8>, CompressionError>)
        requires
            old(self).wf(),
        ensures
            final(self).wf(),
            final(src).remaining().len() <= old(src).remaining().len(),
            old(self).spec_eof() ==> r == Ok::<Option<u8>, CompressionError>(None) && final(src).remaining() == old(
                src,
            ).remaining(),
            !old(self).spec_eof() && old(self).spec_header() && old(self).spec_pending().len() > 0 ==> {
                &&& r == Ok::<Option<u8>, CompressionError>(Some(old(self).spec_pending()[0]))
                &&& final(self).spec_pending() == old(self).spec_pending().drop_first()
                &&& final(src).remaining() == old(src).remaining()
            },
            r is Ok ==> final(self).spec_header(),
            !old(self).spec_eof() && !old(self).spec_header() && old(src).remaining().len() < 4 ==> r == Err::<
                Option<u8>,
                CompressionError,
            >(CompressionError::UnexpectedEof),
            !old(self).spec_eof() && !old(self).spec_header() && old(src).remaining().len() >= 4 && le_u32(
                old(src).remaining(),
            ) != MAGIC ==> r == Err::<Option<u8>, CompressionError>(CompressionError::DataError),
            r == Ok::<Option<u8>, CompressionError>(None) ==> final(self).spec_eof(),
            !old(self).spec_eof() && old(self).spec_header() && old(self).spec_pending().len() == 0 ==> {
                &&& forall|rest: Seq<u8>, out: Seq<u8>|
                    #[trigger] block_read(old(src).remaining(), rest, out, old(self).spec_block_checksum()) && 0
                        < out.len() && out.len() + 16 <= usize::MAX ==> {
                        &&& r == Ok::<Option<u8>, CompressionError>(Some(out[0]))
                        &&& final(self).spec_block() == out
                        &&& final(self).spec_pending() == out.drop_first()
                        &&& final(src).remaining() == rest
                    }
                &&& old(src).remaining().len() >= 4 && le_u32(old(src).remaining()) == 0 ==> r == Ok::<
                    Option<u8>,
                    CompressionError,
                >(None) && final(self).spec_eof()
            },
            !old(self).spec_eof() && !old(self).spec_header() && old(self).spec_pending().len() == 0 ==> ({
                let s = old(src).remaining();
                s.len() >= 7 && le_u32(s) == MAGIC && s[4] / 64 == 1 && s[4] % 2 == 0 && s.len() >= header_len(s[4])
                    && s[header_len(s[4]) - 1] == header_check(s) ==> forall|rest: Seq<u8>, out: Seq<u8>|
                    #[trigger] block_read(s.skip(header_len(s[4])), rest, out, block_checksum_flag(s[4])) && 0 < out.len()
                        && out.len() + 16 <= usize::MAX ==> {
                        &&& r == Ok::<Option<u8>, CompressionError>(Some(out[0]))
                        &&& final(self).spec_block() == out
                        &&& final(self).spec_pending() == out.drop_first()
                        &&& final(src).remaining() == rest
                    }
            }),
            r matches Ok(Some(b)) ==> final(self).spec_block().len() > 0 && exists|i: int|
                0 <= i < final(self).spec_block().len() && #[trigger] final(self).spec_block()[i] == b
                    && final(self).spec_pending() == final(self).spec_block().skip(i + 1),
            r is Err ==> r == Err::<Option<u8>, CompressionError>(CompressionError::DataError) || r == Err::<
                Option<u8>,
                CompressionError,
            >(CompressionError::UnexpectedEof) || r == Err::<Option<u8>, CompressionError>(
                CompressionError::Unexpected,
            ),
    {
        if self.eof {
            return Ok(None);
        }
        if !self.header {
            match self.read_header(src) {
                Ok(()) => {},
                Err(e) => {
                    return Err(e);
                },
            }
            self.header = true;
        }
        if self.start < self.end {
            let ret = self.output[self.start];
            self.start = self.start + 1;
            proof {
                assert(self.spec_pending() =~= self.spec_block().skip(self.start as int));
                assert(self.spec_pending() =~= old(self).spec_pending().drop_first());
            }
            return Ok(Some(ret));
        }
        let filled = match self.fill(src) {
            Ok(f) => f,
            Err(e) => {
                return Err(e);
            },
        };
        if !filled {
            return Ok(None);
        }
        let ret = self.output[self.start];
        self.start = self.start + 1;
        proof {
            assert(self.spec_pending() =~= self.spec_block().skip(self.start as int));
        }
        Ok(Some(ret))
    }
}

} // verus!
