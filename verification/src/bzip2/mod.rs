pub mod decoder;
pub mod error;
pub mod encoder;
pub mod mtf;

use vstd::prelude::*;

verus! {

/// The bytes that open a bzip2 stream: `B`, `Z`, `h`, then the block size
/// as the digit after `0`.
pub const HEADER_B: u8 = 0x42;

pub const HEADER_Z: u8 = 0x5a;

#[allow(non_upper_case_globals)]
pub const HEADER_h: u8 = 0x68;

pub const HEADER_0: u8 = 0x30;

/// The number of symbols coded with one selector.
pub const BZ_G_SIZE: usize = 50;

} // verus!
