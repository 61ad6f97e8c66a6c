use lzxd::{BlockType, Error};

#[test]
fn invalid_block_type() {
    assert_eq!(BlockType::from_bits(7), Err(Error::InvalidBlockType(7)));
}

#[test]
fn round_trip() {
    let btypes = &[BlockType::Verbatim, BlockType::AlignedOffset, BlockType::Uncompressed];
    for &btype in btypes {
        assert_eq!(BlockType::from_bits(btype.to_bits()).unwrap(), btype);
    }
}

#[test]
fn block_type_codes() {
    assert_eq!(BlockType::Verbatim.to_bits(), 1);
    assert_eq!(BlockType::AlignedOffset.to_bits(), 2);
    assert_eq!(BlockType::Uncompressed.to_bits(), 3);
    for code in [0u32, 4, 5, 6, 7, 100] {
        assert_eq!(BlockType::from_bits(code), Err(Error::InvalidBlockType(code)));
    }
}
