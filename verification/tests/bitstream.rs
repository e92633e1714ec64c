use opcodec::bitstream::{BitRead, BitReader, BitStream, BitWrite, BitWriter};
use opcodec::color::Color;

#[test]
fn writes_bits_most_significant_first() {
    let mut writer = BitWriter::new();
    writer.write_msb(0b101, 3);
    writer.write_msb(0xff, 8);
    let bytes = writer.to_stream().to_bytes();
    assert_eq!(bytes, vec![0b1011_1111, 0b1110_0000, 5]);
}

#[test]
fn write_keeps_only_the_low_bits() {
    let mut writer = BitWriter::new();
    writer.write_msb(0b1111_0110, 4);
    let bytes = writer.to_stream().to_bytes();
    assert_eq!(bytes, vec![0b0110_0000, 4]);
}

#[test]
fn writes_whole_words_across_bytes() {
    let mut writer = BitWriter::new();
    writer.write_msb(1, 1);
    writer.write_msb(0x8000_0001, 32);
    let bytes = writer.to_stream().to_bytes();
    assert_eq!(bytes, vec![0b1100_0000, 0, 0, 0, 0b1000_0000, 7]);
}

#[test]
fn empty_writer_gives_an_empty_stream() {
    let bytes = BitWriter::new().to_stream().to_bytes();
    assert_eq!(bytes, vec![0]);
}

#[test]
fn reads_what_was_written() {
    let data = [0b1011_1111u8, 0b1110_0000];
    let mut reader = BitReader::new(&data);
    assert_eq!(reader.read_msb(3), Some(5));
    assert_eq!(reader.read_msb(8), Some(0xff));
    assert_eq!(reader.read_msb(5), Some(0));
    assert_eq!(reader.read_msb(1), None);
}

#[test]
fn reading_past_the_end_gives_none() {
    let data = [0xabu8];
    let mut reader = BitReader::new(&data);
    assert_eq!(reader.read_msb(9), None);
    assert_eq!(reader.read_msb(0), Some(0));
}

#[test]
fn reads_keep_the_low_32_bits() {
    let data = [0xffu8, 0x12, 0x34, 0x56, 0x78];
    let mut reader = BitReader::new(&data);
    assert_eq!(reader.read_msb(40), Some(0x1234_5678));
}

#[test]
fn stream_bytes_round_trip() {
    let stream = BitStream::new(vec![1, 2, 3], 4);
    let bytes = stream.to_bytes();
    assert_eq!(bytes, vec![1, 2, 3, 4]);
    let back = BitStream::from_bytes(&bytes);
    assert_eq!(back.to_bytes(), vec![1, 2, 3, 4]);
}

#[test]
fn stream_reader_starts_at_the_first_bit() {
    let stream = BitStream::from_bytes(&[0b1000_0000, 7]);
    let mut reader = stream.reader();
    assert_eq!(reader.read_msb(1), Some(1));
    assert_eq!(reader.read_msb(7), Some(0));
    assert_eq!(reader.read_msb(1), None);
}

#[test]
fn stream_from_writer() {
    let mut writer = BitWriter::new();
    writer.write_msb(0b11, 2);
    let stream: BitStream = BitStream::from(writer);
    assert_eq!(stream.to_bytes(), vec![0b1100_0000, 6]);
}

#[test]
fn color_bits_round_trip() {
    let color = Color { r: 12, g: 200, b: 7 };
    let mut writer = BitWriter::new();
    writer.write_msb(1, 3);
    color.bit_write_msb(&mut writer);
    let stream = writer.to_stream();
    let bytes = stream.to_bytes();
    assert_eq!(bytes.len(), 5);
    let mut reader = BitReader::new(&bytes);
    assert_eq!(reader.read_msb(3), Some(1));
    assert_eq!(Color::bit_read_msb(&mut reader), color);
}

#[test]
fn a_write_may_be_split() {
    let mut whole = BitWriter::new();
    whole.write_msb(1, 3);
    whole.write_msb(0b1011_0110_1, 9);
    let mut split = BitWriter::new();
    split.write_msb(1, 3);
    split.write_msb(0b1011_0110_1 >> 4, 5);
    split.write_msb(0b1011_0110_1 & 0b1111, 4);
    split.write_msb(7, 0);
    assert_eq!(whole.to_stream().to_bytes(), split.to_stream().to_bytes());
}
