//! The ways in which building or running a stream can fail.

use crate::block_type::BlockType;
use vstd::prelude::*;

verus! {

/// An error of an LZXD stream. After any error the stream is not to be used
/// again.
#[derive(Clone, Copy, Debug, PartialEq, Eq, Structural)]
pub enum Error {
    /// The `window` argument lies outside `WINDOW_MIN..=WINDOW_MAX`.
    InvalidWindow(u16),
    /// A block header holds a kind code other than 1, 2 or 3.
    InvalidBlockType(u32),
    /// A block of a kind whose body this library does not decode.
    UnsupportedBlockType(BlockType),
    /// The compressed data ended before a field or a byte run that was due.
    UnexpectedEof,
}

impl Error {
    /// A message that describes the error.
    pub fn message(&self) -> String {
        match *self {
            Error::InvalidWindow(_) => String::from_str("Invalid LZX window"),
            Error::InvalidBlockType(_) => String::from_str("Invalid LZX block type"),
            Error::UnsupportedBlockType(_) => String::from_str("Unsupported LZX block type"),
            Error::UnexpectedEof => String::from_str("Unexpected end of LZX data"),
        }
    }
}

} // verus!
