pub mod decoder;
pub mod encoder;

use vstd::prelude::*;
use crate::lz4::decoder::{block_checksum_flag, block_read, descriptor, header_check, le_u32, header_len, MAGIC};
use crate::lz4::encoder::{lz4_header, stored_block, stored_blocks, lz4_trailer};
use crate::xxhash::{avalanche, prime1, prime5, rotl, tail_bytes, tail_words, xxh32_of, xxh32_tail};

verus! {

/// The length word of a stored block: the length with the high bit set,
/// read back little-endian.
proof fn lemma_len_word(x: u32)
    by (bit_vector)
    requires
        x < 0x8000_0000u32,
    ensures
        ((x | 0x8000_0000u32) as u8) + 256 * (((x | 0x8000_0000u32) >> 8u32) as u8) + 65536 * (((x
            | 0x8000_0000u32) >> 16u32) as u8) + 16777216 * (((x | 0x8000_0000u32) >> 24u32) as u8) == x
            + 0x8000_0000,
{
}

/// The xxHash32 steps for the two descriptor bytes 0x60 and 0x50 (seed 0),
/// whose second byte is the check byte 0xFB.
proof fn lemma_check_value()
    by (bit_vector)
    ensures
        (((avalanche(
            rotl(
                rotl((374761395u32).wrapping_add((96u32).wrapping_mul(prime5())), 11).wrapping_mul(prime1()).wrapping_add(
                    (80u32).wrapping_mul(prime5()),
                ),
                11,
            ).wrapping_mul(prime1()),
        ) as u64) >> 8u64) % 256) as u8 == 0xFBu8,
{
}

/// The check byte of the header that the encoder writes.
proof fn lemma_header_check(f: Seq<u8>)
    requires
        f.len() >= 7,
        f[4] == 0x60u8,
        f[5] == 0x50u8,
    ensures
        header_check(f) == 0xFBu8,
{
    let d = descriptor(f);
    assert(d =~= seq![0x60u8, 0x50u8]);
    assert(xxh32_tail(d) =~= d);
    let h = crate::xxhash::xxh32_start(0, d);
    assert(crate::xxhash::xxh32_base(0, d) == 374761393u32);
    assert(h == 374761395u32);
    assert(tail_words(h, d, 0) == h);
    reveal_with_fuel(tail_bytes, 3);
    assert(d[0] as u32 == 96u32 && d[1] as u32 == 80u32);
    lemma_check_value();
}

/// Stored blocks, read from the front: the first block, then the others.
proof fn lemma_stored_blocks_front(blocks: Seq<Seq<u8>>)
    requires
        blocks.len() > 0,
    ensures
        stored_blocks(blocks) == stored_block(blocks[0]) + stored_blocks(blocks.drop_first()),
    decreases blocks.len(),
{
    if blocks.len() == 1 {
        assert(blocks.drop_last() =~= Seq::<Seq<u8>>::empty());
        assert(blocks.drop_first() =~= Seq::<Seq<u8>>::empty());
        assert(stored_blocks(blocks) =~= stored_block(blocks[0]) + stored_blocks(blocks.drop_first()));
    } else {
        let d = blocks.drop_last();
        lemma_stored_blocks_front(d);
        assert(d.drop_first() =~= blocks.drop_first().drop_last());
        assert(blocks.drop_first().last() == blocks.last());
        assert(d[0] == blocks[0]);
        assert(stored_blocks(blocks) =~= stored_block(blocks[0]) + stored_blocks(blocks.drop_first()));
    }
}

/// What the block reader finds in a stored block of `b` followed by `rest`:
/// exactly `b`, with `rest` left over.
proof fn lemma_stored_block_read(b: Seq<u8>, rest: Seq<u8>)
    requires
        0 < b.len() <= 256 * 1024,
    ensures
        forall|out: Seq<u8>, r: Seq<u8>|
            #[trigger] block_read(stored_block(b) + rest, r, out, false) <==> (out == b && r == rest),
{
    let src = stored_block(b) + rest;
    let x = b.len() as u32;
    lemma_len_word(x);
    assert(src[0] == (x | 0x8000_0000u32) as u8);
    assert(src[1] == ((x | 0x8000_0000u32) >> 8u32) as u8);
    assert(src[2] == ((x | 0x8000_0000u32) >> 16u32) as u8);
    assert(src[3] == ((x | 0x8000_0000u32) >> 24u32) as u8);
    assert(le_u32(src) == b.len() + 0x8000_0000);
    assert(src.subrange(4, 4 + b.len() as int) =~= b);
    assert(src.skip(4 + b.len() as int) =~= rest);
}

/// Round trip of the LZ4 frame. The frame that `Lz4Encoder` writes for
/// `blocks` (the header, each block stored, then the end mark and the
/// content checksum) is read back by `Lz4Decoder`: the header passes every
/// check of the header reader (magic number, version 1, no preset
/// dictionary, and the check byte it computes from the descriptor),
/// announces no block checksums, and is seven bytes long; after it, the
/// block reader finds the blocks again, one by one and in order, each as
/// the bytes it was written from, and then the end mark.
pub proof fn lemma_lz4_frame_round_trip(blocks: Seq<Seq<u8>>)
    requires
        forall|k: int| 0 <= k < blocks.len() ==> 0 < #[trigger] blocks[k].len() <= 256 * 1024,
    ensures
        ({
            let f = lz4_header() + stored_blocks(blocks) + lz4_trailer();
            &&& f.len() >= 7
            &&& le_u32(f) == MAGIC
            &&& f[4] / 64 == 1
            &&& f[4] % 2 == 0
            &&& !block_checksum_flag(f[4])
            &&& header_len(f[4]) == 7
            &&& f[6] == header_check(f)
            &&& f.skip(7) == stored_blocks(blocks) + lz4_trailer()
        }),
        forall|k: int, out: Seq<u8>, r: Seq<u8>|
            0 <= k < blocks.len() ==> (#[trigger] block_read(
                stored_blocks(blocks.skip(k)) + lz4_trailer(),
                r,
                out,
                false,
            ) <==> (out == blocks[k] && r == stored_blocks(blocks.skip(k + 1)) + lz4_trailer())),
        stored_blocks(blocks.skip(blocks.len() as int)) + lz4_trailer() == lz4_trailer(),
        lz4_trailer().len() >= 4 && le_u32(lz4_trailer()) == 0,
{
    let f = lz4_header() + stored_blocks(blocks) + lz4_trailer();
    assert(f[0] == 0x04u8 && f[1] == 0x22u8 && f[2] == 0x4Du8 && f[3] == 0x18u8);
    assert(f[4] == 0x60u8 && f[5] == 0x50u8 && f[6] == 0xFBu8);
    lemma_header_check(f);
    assert(f.skip(7) =~= stored_blocks(blocks) + lz4_trailer());
    assert forall|k: int, out: Seq<u8>, r: Seq<u8>| 0 <= k < blocks.len() implies (#[trigger] block_read(
        stored_blocks(blocks.skip(k)) + lz4_trailer(),
        r,
        out,
        false,
    ) <==> (out == blocks[k] && r == stored_blocks(blocks.skip(k + 1)) + lz4_trailer())) by {
        let s = blocks.skip(k);
        lemma_stored_blocks_front(s);
        assert(s.drop_first() =~= blocks.skip(k + 1));
        assert(s[0] == blocks[k]);
        lemma_stored_block_read(blocks[k], stored_blocks(blocks.skip(k + 1)) + lz4_trailer());
        assert(stored_blocks(s) + lz4_trailer() =~= stored_block(blocks[k]) + (stored_blocks(blocks.skip(k + 1))
            + lz4_trailer()));
    }
    assert(blocks.skip(blocks.len() as int) =~= Seq::<Seq<u8>>::empty());
    assert(stored_blocks(blocks.skip(blocks.len() as int)) + lz4_trailer() =~= lz4_trailer());
}

} // verus!
