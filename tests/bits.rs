use lzxd::{BitReader, BitWriter, Error};

#[test]
fn bit_reader() {
    let input: &[u8] = b"\xcd\xab\x80\x35\x34\x12";
    let mut reader = BitReader::new(input.to_vec());
    assert_eq!(reader.read_u16_le().unwrap(), 0xabcd);
    assert_eq!(reader.read_bits(1).unwrap(), 0);
    assert_eq!(reader.read_bits(3).unwrap(), 3);
    assert_eq!(reader.peek_bits(3).unwrap(), 2);
    assert_eq!(reader.read_bits(5).unwrap(), 11);
    assert_eq!(reader.read_u16_le().unwrap(), 0x1234);
}

#[test]
fn bit_writer() {
    let mut writer = BitWriter::new();
    writer.write_u16_le(0xabcd);
    writer.write_bits(1, 0);
    writer.write_bits(3, 3);
    writer.write_bits(5, 11);
    writer.write_u16_le(0x1234);
    let expected: &[u8] = b"\xcd\xab\x80\x35\x34\x12";
    assert_eq!(writer.into_bytes().as_slice(), expected);
}

#[test]
fn bit_fields_round_trip() {
    let fields: Vec<(u16, u32)> = vec![
        (1, 1),
        (3, 5),
        (24, 0xabcdef),
        (32, 0xdeadbeef),
        (7, 0),
        (16, 0x8001),
        (32, 0),
        (5, 31),
        (2, 2),
    ];
    let mut writer = BitWriter::new();
    for &(n, v) in &fields {
        writer.write_bits(n, v);
    }
    writer.align_to_16();
    let bytes = writer.into_bytes();
    assert_eq!(bytes.len() % 2, 0);
    let mut reader = BitReader::new(bytes);
    for &(n, v) in &fields {
        assert_eq!(reader.read_bits(n).unwrap(), v);
    }
}

#[test]
fn read_bits_is_msb_first_within_little_endian_words() {
    let mut reader = BitReader::new(vec![0x34, 0x12, 0x78, 0x56]);
    assert_eq!(reader.read_bits(4).unwrap(), 0x1);
    assert_eq!(reader.read_bits(8).unwrap(), 0x23);
    assert_eq!(reader.read_bits(20).unwrap(), 0x45678);
    assert_eq!(reader.read_bits(1), Err(Error::UnexpectedEof));
}

#[test]
fn read_bits_zero_is_a_no_op() {
    let mut reader = BitReader::new(vec![]);
    assert_eq!(reader.read_bits(0).unwrap(), 0);
    assert_eq!(reader.read_bits(1), Err(Error::UnexpectedEof));
}

#[test]
fn read_bits_ignores_a_lone_last_byte() {
    let mut reader = BitReader::new(vec![0xff, 0xff, 0xff]);
    assert_eq!(reader.read_bits(16).unwrap(), 0xffff);
    assert_eq!(reader.read_bits(1), Err(Error::UnexpectedEof));
}

#[test]
fn reader_align_twice_changes_nothing() {
    let mut reader = BitReader::new(vec![0x00, 0x80, 0x01, 0x00, 0x02, 0x00]);
    assert_eq!(reader.read_bits(1).unwrap(), 1);
    reader.align_to_16().unwrap();
    reader.align_to_16().unwrap();
    assert_eq!(reader.read_bits(16).unwrap(), 1);
    reader.align_to_16().unwrap();
    assert_eq!(reader.read_bits(16).unwrap(), 2);
}

#[test]
fn writer_align_twice_changes_nothing() {
    let mut writer = BitWriter::new();
    writer.write_bits(3, 7);
    writer.align_to_16();
    let once = writer.bytes().clone();
    writer.align_to_16();
    assert_eq!(writer.bytes(), &once);
    assert_eq!(once, vec![0x00, 0xe0]);
}

#[test]
fn odd_raw_write_is_padded_before_bits() {
    let mut writer = BitWriter::new();
    writer.write_bytes(&[0x61, 0x62, 0x63]);
    writer.write_bits(16, 0x1234);
    assert_eq!(writer.into_bytes(), vec![0x61, 0x62, 0x63, 0x00, 0x34, 0x12]);
}

#[test]
fn odd_raw_read_skips_pad_byte_before_bits() {
    let mut reader = BitReader::new(vec![0x61, 0x62, 0x63, 0x00, 0x34, 0x12]);
    assert_eq!(reader.read_bytes(3).unwrap(), vec![0x61, 0x62, 0x63]);
    assert_eq!(reader.read_bits(16).unwrap(), 0x1234);
}

#[test]
fn consecutive_raw_reads_are_contiguous() {
    let mut reader = BitReader::new(vec![1, 2, 3, 4, 5]);
    assert_eq!(reader.read_bytes(1).unwrap(), vec![1]);
    assert_eq!(reader.read_bytes(1).unwrap(), vec![2]);
    assert_eq!(reader.read_bytes(3).unwrap(), vec![3, 4, 5]);
    assert_eq!(reader.read_bytes(1), Err(Error::UnexpectedEof));
}

#[test]
fn raw_read_takes_byte_held_in_bit_buffer() {
    let mut reader = BitReader::new(vec![0xaa, 0xbb, 0xcc]);
    assert_eq!(reader.read_bits(8).unwrap(), 0xbb);
    assert_eq!(reader.read_bytes(2).unwrap(), vec![0xaa, 0xcc]);
}

#[test]
fn read_u32_le_reads_four_bytes() {
    let mut reader = BitReader::new(vec![0x78, 0x56, 0x34, 0x12]);
    assert_eq!(reader.read_u32_le().unwrap(), 0x12345678);
    let mut short = BitReader::new(vec![1, 2, 3]);
    assert_eq!(short.read_u32_le(), Err(Error::UnexpectedEof));
}

#[test]
fn write_u32_le_writes_four_bytes() {
    let mut writer = BitWriter::new();
    writer.write_u32_le(0x12345678);
    assert_eq!(writer.into_bytes(), vec![0x78, 0x56, 0x34, 0x12]);
}

#[test]
fn writer_output_is_even_after_align() {
    let mut writer = BitWriter::new();
    writer.write_bytes(&[1, 2, 3]);
    writer.align_to_16();
    assert_eq!(writer.bytes().len() % 2, 0);
    writer.write_bytes(&[4]);
    writer.write_bytes(&[5]);
    writer.write_bits(1, 1);
    writer.align_to_16();
    assert_eq!(writer.into_bytes(), vec![1, 2, 3, 0, 4, 5, 0x00, 0x80]);
}
