use vstd::prelude::*;

verus! {

/// What a compressor is asked to do with its input.
#[derive(Clone, Copy, Debug, PartialEq, Eq, Structural)]
pub enum Action {
    /// Take input, emit what is ready.
    Run,
    /// Emit everything buffered so far, at a point a reader can stop.
    Flush,
    /// The input is complete: emit everything and end the stream.
    Finish,
}

/// Why a compressor failed.
#[derive(Clone, Copy, Debug, PartialEq, Eq, Structural)]
pub enum CompressError {
    /// The input is not valid for this format.
    InvalidInput,
    /// Any other failure.
    Other,
}

/// `Vec::capacity`: how many elements `v` holds room for, never fewer
/// than it holds (what the allocator gave is not stated).
#[verifier::external_body]
fn vec_capacity(v: &Vec<u8>) -> (r: usize)
    ensures
        r >= v@.len(),
{
    v.capacity()
}

/// A compressor driven by input and output buffers.
pub trait Compress {
    /// Bytes taken so far.
    fn total_in(&self) -> u64;

    /// Bytes emitted so far.
    fn total_out(&self) -> u64;

    /// Compresses from `input` into `output`; returns how many bytes it took
    /// and how many it wrote.
    fn compress(&mut self, input: &[u8], output: &mut [u8], action: Action) -> (r: Result<
        (usize, usize),
        CompressError,
    >)
        ensures
            final(output)@.len() == old(output)@.len(),
            r is Ok ==> r->Ok_0.0 <= input@.len() && r->Ok_0.1 <= old(output)@.len(),
    ;

    /// Compresses into the spare capacity of `output`, appending what was
    /// written; returns how many bytes were taken and the new length of
    /// `output`.
    fn compress_vec(&mut self, input: &[u8], output: &mut Vec<u8>, action: Action) -> (r: Result<
        (usize, usize),
        CompressError,
    >)
        ensures
            r is Ok ==> r->Ok_0.0 <= input@.len() && final(output)@.len() == r->Ok_0.1,
            r is Ok ==> final(output)@.len() >= old(output)@.len(),
            r is Ok ==> final(output)@.subrange(0, old(output)@.len() as int) == old(output)@,
            r is Err ==> final(output)@ == old(output)@,
    {
        let len = output.len();
        let spare = vec_capacity(output) - output.len();
        let mut out: Vec<u8> = vec![0u8; spare];
        match self.compress(input, out.as_mut_slice(), action) {
            Ok((taken, written)) => {
                let mut k: usize = 0;
                while k < written
                    invariant
                        k <= written <= out@.len(),
                        output@.len() == len + k,
                        output@.subrange(0, len as int) == old(output)@,
                        len == old(output)@.len(),
                    decreases written - k,
                {
                    let ghost before = output@;
                    output.push(out[k]);
                    assert(output@.subrange(0, len as int) =~= before.subrange(0, len as int));
                    k = k + 1;
                }
                Ok((taken, output.len()))
            },
            Err(e) => Err(e),
        }
    }
}

} // verus!
