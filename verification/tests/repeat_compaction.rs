use opcodec::bitstream::{BitReader, BitWriter};
use opcodec::chuffman::repeat_compaction;

fn write_pieces(pieces: &[(u32, usize)]) -> Vec<u8> {
    let mut writer = BitWriter::new();
    for &(code, length) in pieces {
        writer.write_msb(code, length);
    }
    let mut bytes = writer.to_stream().to_bytes();
    bytes.pop();
    bytes
}

#[test]
fn long_run_is_written_as_repeat() {
    let list = [3usize, 3, 3, 3, 3, 3, 3, 3, 3, 3, 1, 2];
    let result = repeat_compaction::encode(&list, 4);
    assert_eq!(result.operator_index_length_table, vec![0, 3, 3, 1, 2]);
    assert_eq!(result.encoded, vec![(2, 2), (0, 1), (10, 4), (6, 3), (7, 3)]);
}

#[test]
fn short_runs_are_written_as_codes() {
    let list = [0usize, 0, 1];
    let result = repeat_compaction::encode(&list, 2);
    // frequencies: 0 -> 2, 1 -> 1, REPEAT -> (2 + 1) / 2 = 1
    assert_eq!(result.operator_index_length_table, vec![1, 2, 2]);
    assert_eq!(result.encoded, vec![(0, 1), (0, 1), (2, 2)]);
}

#[test]
fn runs_are_at_most_fifteen_long() {
    let list = vec![1usize; 20];
    let result = repeat_compaction::encode(&list, 2);
    // frequencies: 1 -> 20, REPEAT -> 20
    assert_eq!(result.operator_index_length_table, vec![0, 1, 1]);
    assert_eq!(
        result.encoded,
        vec![(1, 1), (0, 1), (15, 4), (0, 1), (0, 1), (0, 1), (0, 1), (0, 1)]
    );
}

#[test]
fn decode_expands_repeats() {
    let list = [3usize, 3, 3, 3, 3, 3, 3, 3, 3, 3, 1, 2];
    let result = repeat_compaction::encode(&list, 4);
    let bytes = write_pieces(&result.encoded);
    let mut reader = BitReader::new(&bytes);
    let decoded =
        repeat_compaction::decode(&mut reader, &result.operator_index_length_table, list.len());
    assert_eq!(decoded, list.to_vec());
}

#[test]
fn decode_round_trip_of_long_runs() {
    let mut list = vec![1usize; 20];
    list.extend_from_slice(&[0, 2, 2, 0, 1]);
    let result = repeat_compaction::encode(&list, 3);
    let bytes = write_pieces(&result.encoded);
    let mut reader = BitReader::new(&bytes);
    let decoded =
        repeat_compaction::decode(&mut reader, &result.operator_index_length_table, list.len());
    assert_eq!(decoded, list);
}

#[test]
fn decode_of_a_repeat_may_pass_the_count() {
    // REPEAT (code 0, 1 bit), symbol 0 (code 10), count 3: three symbols although two
    // were asked for.
    let lengths = [2usize, 2, 1];
    let data = [0b0100_0110u8];
    let mut reader = BitReader::new(&data);
    let decoded = repeat_compaction::decode(&mut reader, &lengths, 2);
    assert_eq!(decoded, vec![0, 0, 0]);
}

#[test]
fn repeat_code_lengths_can_be_tested_before_encoding() {
    let list = [3usize, 3, 3, 3, 3, 3, 3, 3, 3, 3, 1, 2];
    assert_eq!(repeat_compaction::repeat_length_table(&list, 4), vec![0, 3, 3, 1, 2]);
}
