# opcodec

A lossy image codec, verified with Verus. Each pixel after the first two is
replaced by the index of one of 100 operators that predicts it from the two
pixels before it (`code::operator_selectors`); the operator indices are then
coded, by default with a canonical Huffman code (`code::operator_codecs`,
`chuffman`), and written to a byte stream (`bitstream`).

- `src/bits.rs`: bit sequences as mathematical values.
- `src/bitstream.rs`: MSB-first bit writer and reader.
- `src/color/`: colours and the 100 operators.
- `src/chuffman.rs`, `src/chuffman/`: Huffman code lengths, canonical codes,
  and a variant with run compaction.
- `src/code/`: operator selection, operator codecs, and the whole codec.
- `app/main.rs`: reads `sample.jpg`, encodes, decodes and writes `output.png`.
