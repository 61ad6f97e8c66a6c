//! The three kinds of LZXD block and their 3-bit codes.

use crate::error::Error;
use vstd::prelude::*;

verus! {

/// The kind of an LZXD block, as its 3-bit header field gives it.
#[derive(Clone, Copy, Debug, PartialEq, Eq, Structural)]
pub enum BlockType {
    Verbatim,
    AlignedOffset,
    Uncompressed,
}

impl BlockType {
    /// The wire code of the kind.
    pub open spec fn code(self) -> u32 {
        match self {
            BlockType::Verbatim => 1,
            BlockType::AlignedOffset => 2,
            BlockType::Uncompressed => 3,
        }
    }

    /// The kind whose wire code is `bits`, if there is one.
    pub open spec fn of_code(bits: u32) -> Option<BlockType> {
        if bits == 1 {
            Some(BlockType::Verbatim)
        } else if bits == 2 {
            Some(BlockType::AlignedOffset)
        } else if bits == 3 {
            Some(BlockType::Uncompressed)
        } else {
            None
        }
    }

    /// Decodes a block kind from its wire code; codes other than 1, 2 and 3
    /// are refused.
    pub fn from_bits(bits: u32) -> (r: Result<BlockType, Error>)
        ensures
            match BlockType::of_code(bits) {
                Some(t) => r == Ok::<BlockType, Error>(t),
                None => r == Err::<BlockType, Error>(Error::InvalidBlockType(bits)),
            },
    {
        match bits {
            1 => Ok(BlockType::Verbatim),
            2 => Ok(BlockType::AlignedOffset),
            3 => Ok(BlockType::Uncompressed),
            _ => Err(Error::InvalidBlockType(bits)),
        }
    }

    /// The wire code of the kind.
    pub fn to_bits(&self) -> (r: u32)
        ensures
            r == self.code(),
    {
        match *self {
            BlockType::Verbatim => 1,
            BlockType::AlignedOffset => 2,
            BlockType::Uncompressed => 3,
        }
    }
}

/// Every kind comes back from its own code, and the codes that name a kind
/// are exactly 1, 2 and 3.
pub proof fn lemma_block_type_codes(t: BlockType, bits: u32)
    ensures
        BlockType::of_code(t.code()) == Some(t),
        BlockType::of_code(bits) is Some <==> 1 <= bits <= 3,
        BlockType::of_code(bits) matches Some(k) ==> k.code() == bits,
{
}

} // verus!
