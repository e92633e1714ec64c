use opcodec::code;
use opcodec::code::operator_codecs::canonical_huffman_codec;
use opcodec::code::operator_selectors::{best_effort, decode, OperatorIndexImage};
use opcodec::color::Color;

#[test]
fn encode_codes_the_best_effort_choice() {
    let c = Color { r: 10, g: 20, b: 30 };
    let d = Color { r: 11, g: 22, b: 33 };
    let pixels = [c, d, c, d, d, c];
    let bytes = code::encode(&pixels);
    let expected = canonical_huffman_codec().encode.call(&best_effort(&pixels)).to_bytes();
    assert_eq!(bytes, expected);
    assert!(*bytes.last().unwrap() < 8);
}

#[test]
fn decode_rebuilds_the_coded_pixels() {
    let first = Color { r: 1, g: 2, b: 3 };
    let second = Color { r: 4, g: 5, b: 6 };
    let mut ops = Vec::new();
    for _ in 0..2 {
        for op in 0..100 {
            ops.push(op);
        }
    }
    let img = OperatorIndexImage::new(first, second, ops);
    let bytes = canonical_huffman_codec().encode.call(&img).to_bytes();
    let pixels = code::decode(&bytes);
    let expected = decode(&img);
    assert!(pixels.len() >= expected.len() && pixels.len() <= expected.len() + 2);
    assert_eq!(&pixels[0..expected.len()], &expected[..]);
}

#[test]
fn checks_before_encoding() {
    let c = Color { r: 10, g: 20, b: 30 };
    assert!(code::can_encode(&[c, c, c]));
    assert!(!code::can_encode(&[c]));
    let black = Color { r: 0, g: 0, b: 0 };
    // every pixel is the sum of the two before it: only the first operator is chosen
    assert!(!code::can_encode(&[black, black, black, black]));
}

#[test]
fn checks_before_decoding() {
    assert!(!code::can_decode(&[]));
    assert!(!code::can_decode(&[0, 0, 0, 7]));
    let first = Color { r: 1, g: 2, b: 3 };
    let mut ops = Vec::new();
    for _ in 0..2 {
        for op in 0..100 {
            ops.push(op);
        }
    }
    let img = OperatorIndexImage::new(first, first, ops);
    let bytes = canonical_huffman_codec().encode.call(&img).to_bytes();
    assert!(code::can_decode(&bytes));
    let mut damaged = bytes.clone();
    damaged[19] = 0;
    // no table entries: no operator has a code
    assert!(!code::can_decode(&damaged));
}
