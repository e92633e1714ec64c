use opcodec::bitstream::{BitReader, BitWriter};
use opcodec::chuffman;

fn write_pieces(pieces: &[(u32, usize)]) -> Vec<u8> {
    let mut writer = BitWriter::new();
    for &(code, length) in pieces {
        writer.write_msb(code, length);
    }
    let mut bytes = writer.to_stream().to_bytes();
    bytes.pop();
    bytes
}

#[test]
fn encode_gives_canonical_codes() {
    let list = [0usize, 1, 1, 2, 2, 2];
    let freq = [1usize, 2, 3];
    let (encoded, lengths, index_width, length_width, index_count) =
        chuffman::encode(&list, &freq, 3);
    assert_eq!(lengths, vec![2, 2, 1]);
    assert_eq!(encoded, vec![(2, 2), (3, 2), (3, 2), (0, 1), (0, 1), (0, 1)]);
    assert_eq!(index_width, 2);
    assert_eq!(length_width, 2);
    assert_eq!(index_count, 3);
}

#[test]
fn symbols_beyond_the_frequency_table_get_no_code() {
    let list = [0usize, 1, 1];
    let freq = [1usize, 2];
    let (encoded, lengths, index_width, length_width, index_count) =
        chuffman::encode(&list, &freq, 4);
    assert_eq!(lengths, vec![1, 1, 0, 0]);
    assert_eq!(encoded, vec![(0, 1), (1, 1), (1, 1)]);
    assert_eq!(index_width, 1);
    assert_eq!(length_width, 1);
    assert_eq!(index_count, 2);
}

#[test]
fn decode_reads_back_the_list() {
    let list = [0usize, 1, 1, 2, 2, 2];
    let freq = [1usize, 2, 3];
    let (encoded, lengths, _, _, _) = chuffman::encode(&list, &freq, 3);
    let bytes = write_pieces(&encoded);
    assert_eq!(bytes, vec![0b1011_1100, 0b0000_0000]);
    let mut reader = BitReader::new(&bytes);
    let decoded = chuffman::decode(&mut reader, &lengths, list.len());
    assert_eq!(decoded, list.to_vec());
}

#[test]
fn decode_with_room_reads_the_padding_too() {
    let list = [0usize, 1, 1, 2, 2, 2];
    let freq = [1usize, 2, 3];
    let (encoded, lengths, _, _, _) = chuffman::encode(&list, &freq, 3);
    let bytes = write_pieces(&encoded);
    let mut reader = BitReader::new(&bytes);
    let decoded = chuffman::decode(&mut reader, &lengths, list.len() + 2);
    assert_eq!(decoded, vec![0, 1, 1, 2, 2, 2, 2, 2]);
}

#[test]
fn decode_stops_where_no_code_starts() {
    let lengths = [2usize, 2, 0];
    let data = [0b0001_1100u8];
    let mut reader = BitReader::new(&data);
    let decoded = chuffman::decode(&mut reader, &lengths, 10);
    assert_eq!(decoded, vec![0, 1]);
    assert_eq!(reader.read_msb(1), Some(0));
    assert_eq!(reader.read_msb(1), None);
}

#[test]
fn decode_accepts_overfull_tables() {
    // three one-bit codes 0, 1 and 2: the last never matches a single bit
    let lengths = [1usize, 1, 1];
    let data = [0b0110_0000u8];
    let mut reader = BitReader::new(&data);
    let decoded = chuffman::decode(&mut reader, &lengths, 4);
    assert_eq!(decoded, vec![0, 1, 1, 0]);
}

#[test]
fn code_lengths_can_be_tested_before_encoding() {
    assert_eq!(chuffman::huffman_length_table(&[1, 2, 4], 4), vec![2, 2, 1, 0]);
}
