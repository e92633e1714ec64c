use opcodec::code::operator_codecs::nothing;
use opcodec::code::operator_codecs::{
    canonical_huffman_codec, nothing_codec, CodecDecoder, CodecEncoder,
};
use opcodec::code::operator_selectors::OperatorIndexImage;
use opcodec::color::Color;

fn every_operator_twice() -> Vec<usize> {
    let mut ops = Vec::new();
    for _ in 0..2 {
        for op in 0..100 {
            ops.push(op);
        }
    }
    ops
}

#[test]
fn nothing_round_trip() {
    let first = Color { r: 1, g: 2, b: 3 };
    let second = Color { r: 250, g: 128, b: 0 };
    let img = OperatorIndexImage::new(first, second, vec![1, 5, 99]);
    let stream = nothing::encode(&img);
    let bytes = stream.to_bytes();
    // 64 + 8 + 48 + 3 * 7 = 141 bits: 18 bytes with 3 free bits, then the count.
    assert_eq!(bytes.len(), 19);
    assert_eq!(bytes[18], 3);
    assert_eq!(&bytes[0..9], &[0, 0, 0, 5, 0, 0, 0, 0, 7]);
    let back = nothing::decode(opcodec::bitstream::BitStream::from_bytes(&bytes));
    assert_eq!(back.first_pixel, first);
    assert_eq!(back.second_pixel, second);
    assert_eq!(back.operator_index_list, vec![1, 5, 99]);
}

#[test]
fn nothing_codec_dispatches() {
    let codec = nothing_codec();
    assert!(matches!(codec.encode, CodecEncoder::Nothing));
    assert!(matches!(codec.decode, CodecDecoder::Nothing));
    let c = Color { r: 7, g: 7, b: 7 };
    let img = OperatorIndexImage::new(c, c, vec![]);
    let stream = codec.encode.call(&img);
    let back = codec.decode.call(stream);
    assert_eq!(back.first_pixel, c);
    assert_eq!(back.second_pixel, c);
    assert!(back.operator_index_list.is_empty());
}

#[test]
fn canonical_huffman_header() {
    let first = Color { r: 1, g: 2, b: 3 };
    let second = Color { r: 4, g: 5, b: 6 };
    let img = OperatorIndexImage::new(first, second, every_operator_twice());
    let bytes = canonical_huffman_codec().encode.call(&img).to_bytes();
    // pixel count 202 (low word, high word), index width 7, length width 3, 100 entries
    assert_eq!(&bytes[0..20], &[0, 0, 0, 202, 0, 0, 0, 0, 0, 0, 0, 7, 0, 0, 0, 3, 0, 0, 0, 100]);
}

#[test]
fn canonical_huffman_round_trip() {
    let first = Color { r: 1, g: 2, b: 3 };
    let second = Color { r: 4, g: 5, b: 6 };
    let ops = every_operator_twice();
    let img = OperatorIndexImage::new(first, second, ops.clone());
    let codec = canonical_huffman_codec();
    assert!(matches!(codec.encode, CodecEncoder::CanonicalHuffman));
    assert!(matches!(codec.decode, CodecDecoder::CanonicalHuffman));
    let stream = codec.encode.call(&img);
    let back = codec.decode.call(stream);
    assert_eq!(back.first_pixel, first);
    assert_eq!(back.second_pixel, second);
    assert!(back.operator_index_list.len() <= ops.len() + 2);
    assert_eq!(&back.operator_index_list[0..ops.len()], &ops[..]);
}
