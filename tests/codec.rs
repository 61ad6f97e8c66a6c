use lzxd::{Decoder, Encoder, Error, CHUNK_SIZE, WINDOW_MAX, WINDOW_MIN};

const TINY: &[u8] = b"\x14\x00\x00\x30\x30\x00\x01\x00\x00\x00\x01\
    \x00\x00\x00\x01\x00\x00\x00\x61\x62\x63\x00";

fn sample(n: usize) -> Vec<u8> {
    (0..n).map(|i| (i * 7 + 3) as u8).collect()
}

fn compress(data: &[u8], window: u16) -> Vec<u8> {
    let mut encoder = Encoder::new(window, data.len() as u64).unwrap();
    assert_eq!(encoder.write(data), data.len());
    encoder.finish()
}

fn decompress(data: Vec<u8>, window: u16, size: usize) -> Vec<u8> {
    let mut decoder = Decoder::new(data, window, size as u64).unwrap();
    let out = decoder.read(size + 10).unwrap();
    assert_eq!(decoder.read(10).unwrap(), Vec::<u8>::new());
    out
}

#[test]
fn decoder_invalid_window_size() {
    assert_eq!(Decoder::new(TINY.to_vec(), 12345, 3).err(), Some(Error::InvalidWindow(12345)));
}

#[test]
fn decode_stream_with_one_uncompressed_block() {
    let mut decoder = Decoder::new(TINY.to_vec(), WINDOW_MIN, 3).unwrap();
    let buffer = decoder.read(10).unwrap();
    assert_eq!(buffer.len(), 3);
    assert_eq!(&buffer[..3], b"abc");
}

#[test]
fn encoder_invalid_window_size() {
    assert_eq!(Encoder::new(12345, 3).err(), Some(Error::InvalidWindow(12345)));
}

#[test]
fn encode_tiny_stream() {
    let mut encoder = Encoder::new(WINDOW_MIN, 3).unwrap();
    assert_eq!(encoder.write(b"abc"), 3);
    assert_eq!(encoder.finish().as_slice(), TINY);
}

#[test]
fn window_bounds() {
    assert_eq!(Decoder::new(TINY.to_vec(), 14, 3).err(), Some(Error::InvalidWindow(14)));
    assert_eq!(Decoder::new(TINY.to_vec(), 22, 3).err(), Some(Error::InvalidWindow(22)));
    assert!(Decoder::new(TINY.to_vec(), 15, 3).is_ok());
    assert!(Decoder::new(TINY.to_vec(), 21, 3).is_ok());
    assert_eq!(Encoder::new(14, 3).err(), Some(Error::InvalidWindow(14)));
    assert_eq!(Encoder::new(22, 3).err(), Some(Error::InvalidWindow(22)));
    assert!(Encoder::new(WINDOW_MIN, 3).is_ok());
    assert!(Encoder::new(WINDOW_MAX, 3).is_ok());
}

#[test]
fn window_size_is_a_power_of_two() {
    let d = Decoder::new(TINY.to_vec(), 15, 3).unwrap();
    assert_eq!(d.window_size(), 1 << 15);
    let d = Decoder::new(TINY.to_vec(), 21, 3).unwrap();
    assert_eq!(d.window_size(), 1 << 21);
}

#[test]
fn uncompressed_round_trip_sizes() {
    for &n in &[0usize, 1, 2, 3, 32767, 32768, 32769, 65536] {
        let data = sample(n);
        let packed = compress(&data, WINDOW_MIN);
        assert_eq!(decompress(packed, WINDOW_MIN, n), data, "size {}", n);
    }
}

#[test]
fn multi_chunk_boundary() {
    let data = sample(CHUNK_SIZE + 1);
    let packed = compress(&data, WINDOW_MIN);
    // two chunks: 2 + 4 + 12 + 32768 bytes, then 2 + 4 + 12 + 1 + 1 bytes
    assert_eq!(packed.len(), 18 + CHUNK_SIZE + 20);
    assert_eq!(&packed[0..2], &[0x10, 0x80]);
    let second = 18 + CHUNK_SIZE;
    assert_eq!(&packed[second..second + 2], &[0x12, 0x00]);
    assert_eq!(decompress(packed, WINDOW_MIN, data.len()), data);
}

#[test]
fn decode_in_small_pieces() {
    let data = sample(CHUNK_SIZE + 5);
    let packed = compress(&data, WINDOW_MIN);
    let mut decoder = Decoder::new(packed, WINDOW_MIN, data.len() as u64).unwrap();
    let mut out = Vec::new();
    loop {
        let piece = decoder.read(7).unwrap();
        if piece.is_empty() {
            break;
        }
        assert!(piece.len() == 7 || out.len() + piece.len() == data.len());
        out.extend_from_slice(&piece);
    }
    assert_eq!(out, data);
}

#[test]
fn encode_in_small_pieces_matches_one_write() {
    let data = sample(CHUNK_SIZE * 2 + 3);
    let whole = compress(&data, WINDOW_MIN);
    let mut encoder = Encoder::new(WINDOW_MIN, data.len() as u64).unwrap();
    for piece in data.chunks(1000) {
        assert_eq!(encoder.write(piece), piece.len());
    }
    assert_eq!(encoder.finish(), whole);
}

#[test]
fn encoder_takes_no_more_than_declared() {
    let mut encoder = Encoder::new(WINDOW_MIN, 3).unwrap();
    assert_eq!(encoder.write(b"abcdef"), 3);
    assert_eq!(encoder.write(b"x"), 0);
    assert_eq!(encoder.finish().as_slice(), TINY);
}

#[test]
fn truncated_stream_fails() {
    for cut in [0usize, 1, 3, 5, 10, 18, 20] {
        let data = TINY[..cut].to_vec();
        let result = Decoder::new(data, WINDOW_MIN, 3).and_then(|mut d| d.read(10));
        assert_eq!(result, Err(Error::UnexpectedEof), "cut at {}", cut);
    }
}

#[test]
fn truncated_second_chunk_fails() {
    let data = sample(CHUNK_SIZE + 10);
    let mut packed = compress(&data, WINDOW_MIN);
    packed.truncate(packed.len() - 4);
    let mut decoder = Decoder::new(packed, WINDOW_MIN, data.len() as u64).unwrap();
    assert_eq!(decoder.read(CHUNK_SIZE).unwrap(), data[..CHUNK_SIZE].to_vec());
    assert_eq!(decoder.read(100), Err(Error::UnexpectedEof));
}

#[test]
fn invalid_block_type_in_stream() {
    // the block kind bits read 7
    let mut data = TINY.to_vec();
    data[3] = 0x70;
    let mut decoder = Decoder::new(data, WINDOW_MIN, 3).unwrap();
    assert_eq!(decoder.read(10), Err(Error::InvalidBlockType(7)));
}

#[test]
fn verbatim_block_is_unsupported() {
    // the block kind bits read 1
    let mut data = TINY.to_vec();
    data[3] = 0x10;
    let mut decoder = Decoder::new(data, WINDOW_MIN, 3).unwrap();
    assert_eq!(
        decoder.read(10),
        Err(Error::UnsupportedBlockType(lzxd::BlockType::Verbatim))
    );
}

#[test]
fn declared_filesize_is_read() {
    // flag bit set, then the 32-bit size 0x00000003, then the block header
    let mut w = lzxd::BitWriter::new();
    w.write_u16_le(20);
    w.write_bits(1, 1);
    w.write_bits(32, 3);
    w.write_bits(3, 3);
    w.write_bits(24, 3);
    w.write_bits(1, 0);
    w.align_to_16();
    w.write_u32_le(1);
    w.write_u32_le(2);
    w.write_u32_le(3);
    w.write_bytes(b"xyz");
    w.align_to_16();
    let mut decoder = Decoder::new(w.into_bytes(), WINDOW_MIN, 3).unwrap();
    assert_eq!(decoder.header_filesize(), 3);
    assert_eq!(decoder.read(3).unwrap(), b"xyz".to_vec());
    assert_eq!(decoder.recent_offsets_now(), (1, 2, 3));
}

#[test]
fn two_blocks_in_one_chunk() {
    let mut w = lzxd::BitWriter::new();
    w.write_u16_le(0);
    w.write_bits(1, 0);
    w.write_bits(3, 3);
    w.write_bits(24, 1);
    w.write_bits(1, 0);
    w.align_to_16();
    w.write_u32_le(1);
    w.write_u32_le(1);
    w.write_u32_le(1);
    w.write_bytes(b"a");
    w.align_to_16();
    w.write_bits(3, 3);
    w.write_bits(24, 2);
    w.write_bits(1, 0);
    w.align_to_16();
    w.write_u32_le(4);
    w.write_u32_le(5);
    w.write_u32_le(6);
    w.write_bytes(b"bc");
    w.align_to_16();
    let mut decoder = Decoder::new(w.into_bytes(), WINDOW_MIN, 3).unwrap();
    assert_eq!(decoder.read(10).unwrap(), b"abc".to_vec());
    assert_eq!(decoder.recent_offsets_now(), (4, 5, 6));
}

#[test]
fn empty_stream_needs_no_data() {
    let mut decoder = Decoder::new(Vec::new(), WINDOW_MIN, 0).unwrap();
    assert_eq!(decoder.read(10).unwrap(), Vec::<u8>::new());
    let encoder = Encoder::new(WINDOW_MIN, 0).unwrap();
    assert_eq!(encoder.finish(), Vec::<u8>::new());
}

#[test]
fn error_messages() {
    assert_eq!(Error::InvalidWindow(3).message(), "Invalid LZX window");
    assert_eq!(Error::UnexpectedEof.message(), "Unexpected end of LZX data");
}

#[test]
fn two_chunk_layout_is_exact() {
    let data = sample(32769);
    let out = compress(&data, WINDOW_MIN);
    assert_eq!(out.len(), 32806);
    assert_eq!(&out[0..6], &[0x10, 0x80, 0x08, 0x30, 0x00, 0x00]);
    assert_eq!(&out[6..18], &[1, 0, 0, 0, 1, 0, 0, 0, 1, 0, 0, 0]);
    assert_eq!(&out[18..32786], &data[..32768]);
    assert_eq!(&out[32786..32792], &[0x12, 0x00, 0x00, 0x60, 0x20, 0x00]);
    assert_eq!(out[32804], data[32768]);
    assert_eq!(out[32805], 0x00);
}

#[test]
fn aligned_offset_block_is_unsupported() {
    let mut data = TINY.to_vec();
    data[3] = 0x20;
    let mut decoder = Decoder::new(data, WINDOW_MIN, 3).unwrap();
    assert_eq!(
        decoder.read(10),
        Err(Error::UnsupportedBlockType(lzxd::BlockType::AlignedOffset))
    );
}

#[test]
fn stream_cut_before_last_byte_fails() {
    let mut decoder = Decoder::new(TINY[..20].to_vec(), WINDOW_MIN, 3).unwrap();
    assert_eq!(decoder.read(10), Err(Error::UnexpectedEof));
}

#[test]
fn reads_after_the_end_give_nothing() {
    let mut decoder = Decoder::new(TINY.to_vec(), WINDOW_MIN, 3).unwrap();
    assert_eq!(decoder.read(2).unwrap(), b"ab".to_vec());
    assert_eq!(decoder.read(2).unwrap(), b"c".to_vec());
    assert_eq!(decoder.read(5).unwrap(), Vec::<u8>::new());
    assert_eq!(decoder.read(5).unwrap(), Vec::<u8>::new());
}
