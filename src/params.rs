use vstd::prelude::*;

verus! {

/// Width of the rolling-hash window, in bytes.
pub const WINDOW_SIZE: usize = 48;

/// Target average chunk size, in bytes.
pub const AVERAGE_CHUNK_SIZE: usize = 4096;

/// Low 13 bits of a window hash: a cut may fall where they are all zero.
pub const MASK: u32 = 0x1fff;

/// Smallest number of window positions between two content-defined cuts.
pub const MIN_CHUNK_SIZE: usize = AVERAGE_CHUNK_SIZE / 4;

/// Number of window positions after which a cut is forced.
pub const MAX_CHUNK_SIZE: usize = AVERAGE_CHUNK_SIZE * 4;

} // verus!
