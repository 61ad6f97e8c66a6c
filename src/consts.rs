//! Constants of the LZXD format.

use vstd::prelude::*;

verus! {

/// The smallest permitted value of the `window` argument.
pub const WINDOW_MIN: u16 = 15;

/// The largest permitted value of the `window` argument.
pub const WINDOW_MAX: u16 = 21;

/// The number of uncompressed bytes in every chunk of a stream but the last.
pub const CHUNK_SIZE: usize = 0x8000;

} // verus!
