use vstd::prelude::*;
use std::collections::VecDeque;
use crate::bit_reader::ByteSource;
use crate::compress::Action;
use crate::error::CompressionError;

verus! {

/// The largest input a block may stand for.
pub const LZ4_MAX_INPUT_SIZE: u32 = 0x7E00_0000;

/// The longest an LZ4 block of `input_size` bytes can become, 0 when the
/// input is too large for a block.
pub fn compress_bound(input_size: u32) -> (r: u32)
    ensures
        input_size > LZ4_MAX_INPUT_SIZE ==> r == 0,
        input_size <= LZ4_MAX_INPUT_SIZE ==> r == input_size + input_size / 255 + 16,
{
    if input_size > LZ4_MAX_INPUT_SIZE {
        0
    } else {
        input_size + (input_size / 255) + 16
    }
}

/// `value`, least significant byte first.
pub open spec fn le32(value: u32) -> Seq<u8> {
    seq![value as u8, (value >> 8u32) as u8, (value >> 16u32) as u8, (value >> 24u32) as u8]
}

/// The frame header: magic number, version 1 with independent blocks, at
/// most 256 KiB per block, and the header check byte.
pub open spec fn lz4_header() -> Seq<u8> {
    seq![0x04u8, 0x22u8, 0x4Du8, 0x18u8, 0x60u8, 0x50u8, 0xFBu8]
}

/// A block stored as it is: its length with the high bit set, then its
/// bytes.
pub open spec fn stored_block(b: Seq<u8>) -> Seq<u8> {
    le32((b.len() as u32) | 0x8000_0000u32) + b
}

/// The blocks of `blocks`, each stored, in order.
pub open spec fn stored_blocks(blocks: Seq<Seq<u8>>) -> Seq<u8>
    decreases blocks.len(),
{
    if blocks.len() == 0 {
        Seq::empty()
    } else {
        stored_blocks(blocks.drop_last()) + stored_block(blocks.last())
    }
}

/// The bytes of `blocks`, in order.
pub open spec fn concat(blocks: Seq<Seq<u8>>) -> Seq<u8>
    decreases blocks.len(),
{
    if blocks.len() == 0 {
        Seq::empty()
    } else {
        concat(blocks.drop_last()) + blocks.last()
    }
}

/// The end mark and the (zero) content checksum.
pub open spec fn lz4_trailer() -> Seq<u8> {
    Seq::new(8, |i: int| 0u8)
}

/// The LZ4 frame encoder. It stores its input in blocks of at most 256 KiB,
/// uncompressed.
pub struct Lz4Encoder {
    queue: VecDeque<u8>,
    finished: bool,
    limit: usize,
    buf: Vec<u8>,
    out: Ghost<Seq<u8>>,
    blocks: Ghost<Seq<Seq<u8>>>,
    taken: Ghost<Seq<u8>>,
    ended: Ghost<bool>,
}

fn write_u32(queue: &mut VecDeque<u8>, value: u32)
    ensures
        final(queue)@ == old(queue)@ + le32(value),
{
    queue.push_back(value as u8);
    queue.push_back((value >> 8u32) as u8);
    queue.push_back((value >> 16u32) as u8);
    queue.push_back((value >> 24u32) as u8);
    assert(queue@ =~= old(queue)@ + le32(value));
}

impl Lz4Encoder {
    /// What has been handed out and what is queued are the header, the
    /// blocks stored so far and, once the stream is ended, the trailer;
    /// the blocks and the bytes waiting are the bytes taken.
    pub closed spec fn wf(&self) -> bool {
        &&& self.wf_full()
        &&& self.buf@.len() < self.limit
    }

    /// The invariant, the bytes waiting possibly filling a whole block.
    closed spec fn wf_full(&self) -> bool {
        &&& self.limit == 256 * 1024
        &&& self.buf@.len() <= self.limit
        &&& forall|k: int| 0 <= k < self.blocks@.len() ==> 0 < #[trigger] self.blocks@[k].len() <= 256 * 1024
        &&& self.out@ + self.queue@ == lz4_header() + stored_blocks(self.blocks@) + if self.ended@ {
            lz4_trailer()
        } else {
            Seq::empty()
        }
        &&& concat(self.blocks@) + self.buf@ == self.taken@
        &&& self.ended@ ==> self.finished
        &&& self.ended@ ==> self.buf@.len() == 0
    }

    /// The bytes handed out so far.
    pub closed spec fn spec_out(&self) -> Seq<u8> {
        self.out@
    }

    /// The bytes taken from the input so far.
    pub closed spec fn spec_taken(&self) -> Seq<u8> {
        self.taken@
    }

    /// The blocks written so far.
    pub closed spec fn spec_blocks(&self) -> Seq<Seq<u8>> {
        self.blocks@
    }

    /// The end mark has been written.
    pub closed spec fn spec_ended(&self) -> bool {
        self.ended@
    }

    /// The stream is over: no more input is taken.
    pub closed spec fn spec_finished(&self) -> bool {
        self.finished
    }

    /// The bytes written and not handed out yet.
    pub closed spec fn spec_queue(&self) -> Seq<u8> {
        self.queue@
    }

    /// The bytes taken and not stored in a block yet.
    pub closed spec fn spec_buffered(&self) -> Seq<u8> {
        self.buf@
    }

    pub fn new() -> (r: Self)
        ensures
            r.wf(),
            r.spec_out() == Seq::<u8>::empty(),
            r.spec_taken() == Seq::<u8>::empty(),
            r.spec_queue() == lz4_header(),
            !r.spec_finished(),
    {
        let mut queue: VecDeque<u8> = VecDeque::new();
        queue.push_back(0x04);
        queue.push_back(0x22);
        queue.push_back(0x4D);
        queue.push_back(0x18);
        queue.push_back(0x60);
        queue.push_back(0x50);
        queue.push_back(0xfb);
        let r = Self {
            queue,
            finished: false,
            limit: 256 * 1024,
            buf: Vec::new(),
            out: Ghost(Seq::empty()),
            blocks: Ghost(Seq::empty()),
            taken: Ghost(Seq::empty()),
            ended: Ghost(false),
        };
        assert(r.queue@ =~= lz4_header());
        assert(Seq::<u8>::empty() + r.queue@ =~= lz4_header() + stored_blocks(r.blocks@) + Seq::<u8>::empty());
        assert(concat(r.blocks@) + r.buf@ =~= r.taken@);
        r
    }

    /// Stores the bytes waiting as one block.
    fn encode_block(&mut self)
        requires
            old(self).wf_full(),
            !old(self).ended@,
            old(self).buf@.len() > 0,
        ensures
            final(self).wf(),
            final(self).buf@.len() == 0,
            final(self).blocks@ == old(self).blocks@.push(old(self).buf@),
            final(self).taken@ == old(self).taken@,
            final(self).out@ == old(self).out@,
            final(self).ended@ == old(self).ended@,
            final(self).finished == old(self).finished,
    {
        let ghost b = self.buf@;
        let ghost q0 = self.queue@;
        write_u32(&mut self.queue, (self.buf.len() as u32) | 0x8000_0000u32);
        let mut i: usize = 0;
        while i < self.buf.len()
            invariant
                i <= self.buf@.len(),
                self.buf@ == b,
                self.queue@ == q0 + le32((b.len() as u32) | 0x8000_0000u32) + b.take(i as int),
                q0 == old(self).queue@,
                self.blocks@ == old(self).blocks@,
                self.out@ == old(self).out@,
                self.taken@ == old(self).taken@,
                self.ended@ == old(self).ended@,
                self.finished == old(self).finished,
                self.limit == old(self).limit,
            decreases self.buf@.len() - i,
        {
            self.queue.push_back(self.buf[i]);
            i = i + 1;
            assert(self.queue@ =~= q0 + le32((b.len() as u32) | 0x8000_0000u32) + b.take(i as int));
        }
        self.buf.clear();
        self.blocks = Ghost(self.blocks@.push(b));
        proof {
            let bl = self.blocks@;
            assert(bl.drop_last() =~= old(self).blocks@);
            assert(b.take(b.len() as int) =~= b);
            assert(stored_blocks(bl) == stored_blocks(old(self).blocks@) + stored_block(b));
            assert(old(self).out@ + q0 =~= lz4_header() + stored_blocks(old(self).blocks@));
            assert(self.queue@ =~= q0 + stored_block(b));
            assert(self.out@ == old(self).out@);
            assert(self.out@ + self.queue@ =~= (old(self).out@ + q0) + stored_block(b));
            assert(self.out@ + self.queue@ =~= lz4_header() + stored_blocks(old(self).blocks@) + stored_block(b));
            assert(self.out@ + self.queue@ =~= lz4_header() + stored_blocks(bl) + Seq::<u8>::empty());
            assert(concat(bl) + self.buf@ =~= self.taken@);
            assert forall|k: int| 0 <= k < bl.len() implies 0 < #[trigger] bl[k].len() <= 256 * 1024 by {
                if k < bl.len() - 1 {
                    assert(bl[k] == old(self).blocks@[k]);
                }
            }
        }
    }

    /// Stores the bytes waiting, if any, and writes the end mark.
    fn finish(&mut self)
        requires
            old(self).wf(),
            !old(self).ended@,
        ensures
            final(self).wf(),
            final(self).ended@,
            final(self).buf@.len() == 0,
            final(self).taken@ == old(self).taken@,
            final(self).out@ == old(self).out@,
            final(self).finished,
    {
        if self.buf.len() > 0 {
            self.encode_block();
        }
        let ghost q0 = self.queue@;
        let ghost bl = self.blocks@;
        assert(self.out@ + q0 =~= lz4_header() + stored_blocks(bl));
        let mut k: usize = 0;
        while k < 8
            invariant
                k <= 8,
                self.queue@ == q0 + Seq::new(k as nat, |i: int| 0u8),
                self.out@ + q0 == lz4_header() + stored_blocks(bl),
                self.blocks@ == bl,
                self.out@ == old(self).out@,
                self.taken@ == old(self).taken@,
                self.buf@.len() == 0,
                self.limit == 256 * 1024,
                concat(self.blocks@) + self.buf@ == self.taken@,
                forall|k: int| 0 <= k < self.blocks@.len() ==> 0 < #[trigger] self.blocks@[k].len() <= 256 * 1024,
            decreases 8 - k,
        {
            self.queue.push_back(0);
            k = k + 1;
            assert(self.queue@ =~= q0 + Seq::new(k as nat, |i: int| 0u8));
        }
        self.ended = Ghost(true);
        proof {
            assert(self.queue@ =~= q0 + lz4_trailer());
            assert(self.out@ + self.queue@ =~= lz4_header() + stored_blocks(self.blocks@) + lz4_trailer());
        }
        self.finished = true;
    }

    /// The next byte of the frame of the bytes of `src`. Input is stored in
    /// blocks of 256 KiB; once the input runs out, `Flush` and `Finish`
    /// store the rest and end the stream, and `Run` ends it without that.
    pub fn next(&mut self, src: &mut ByteSource, action: Action) -> (r: Option<Result<u8, CompressionError>>)
        requires
            old(self).wf(),
        ensures
            final(self).wf(),
            r matches Some(Ok(b)) ==> final(self).spec_out() == old(self).spec_out().push(b),
            r is None ==> final(self).spec_out() == old(self).spec_out() && final(self).spec_finished(),
            r is Some ==> r->0 is Ok,
            old(self).spec_taken() + old(src).remaining() == final(self).spec_taken() + final(src).remaining(),
            old(self).spec_finished() ==> final(self).spec_taken() == old(self).spec_taken(),
            final(self).spec_out() + final(self).spec_queue() == lz4_header() + stored_blocks(final(self).spec_blocks())
                + if final(self).spec_ended() {
                lz4_trailer()
            } else {
                Seq::empty()
            },
            concat(final(self).spec_blocks()) + final(self).spec_buffered() == final(self).spec_taken(),
            final(self).spec_buffered().len() < 256 * 1024,
            final(self).spec_ended() ==> final(self).spec_buffered().len() == 0,
            old(self).spec_queue().len() > 0 ==> r == Some(Ok::<u8, CompressionError>(old(self).spec_queue()[0])),
            r is None ==> final(self).spec_queue().len() == 0,
    {
        while self.queue.len() == 0
            invariant
                self.wf(),
                old(self).queue@.len() > 0 ==> self.queue@ == old(self).queue@,
                self.out@ == old(self).out@,
                old(self).taken@ + old(src).remaining() == self.taken@ + src.remaining(),
                old(self).finished ==> self.taken@ == old(self).taken@ && self.finished,
            decreases src.remaining().len(), if self.finished {
                0nat
            } else {
                1nat
            },
        {
            if self.finished {
                return None;
            }
            let ghost before = src.remaining();
            match src.read_byte() {
                Some(s) => {
                    self.buf.push(s);
                    self.taken = Ghost(self.taken@.push(s));
                    proof {
                        assert(before =~= seq![s] + src.remaining());
                        assert(old(self).taken@ + old(src).remaining() =~= self.taken@ + src.remaining());
                        assert(concat(self.blocks@) + self.buf@ =~= self.taken@);
                    }
                    if self.buf.len() == self.limit {
                        self.encode_block();
                    }
                },
                None => {
                    match action {
                        Action::Flush | Action::Finish => {
                            self.finish();
                        },
                        _ => {},
                    }
                    self.finished = true;
                },
            }
        }
        let ghost q0 = self.queue@;
        let b = self.queue.pop_front().unwrap();
        proof {
            assert(self.out@.push(b) + self.queue@ =~= self.out@ + q0);
        }
        self.out = Ghost(self.out@.push(b));
        Some(Ok(b))
    }
}

impl Default for Lz4Encoder {
    fn default() -> (r: Self)
        ensures
            r.wf(),
            r.spec_out() == Seq::<u8>::empty(),
    {
        Self::new()
    }
}

} // verus!
