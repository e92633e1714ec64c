//! The whole image codec: operator selection, then operator index coding.

use vstd::prelude::*;
use vstd::arithmetic::power2::pow2;
use crate::bits::{bytes_bits, zeros};
use crate::bitstream::BitStream;
use crate::chuffman::{huffman_length_table, lemma_chuffman_decode_symbols};
use crate::chuffman::repeat_compaction::{count_occurrences, lemma_repeat_freq_table};
use crate::color::operator::OPERATOR_COUNT;
use crate::chuffman::canonical::{max_code_length, max_length};
use crate::color::Color;
use crate::code::operator_codecs::{CodecDecoder, CodecEncoder, canonical_huffman_codec,
    codec_length_width, codec_lengths, pixels_pos, stream_lengths,
    lemma_canonical_huffman_round_trip, lemma_stream_lengths_len};
use crate::code::operator_selectors::{SelectorDecoder, SelectorEncoder, best_effort_colors,
    best_effort, best_effort_ops, best_effort_selector, lemma_best_effort_rebuilds, lemma_reconstruct_prefix};

pub mod operator_selectors;
pub mod operator_codecs;

verus! {

/// The bits that `encode` writes for a pixel list, before the padding: the best
/// effort operator choice, coded with the canonical Huffman codec.
pub open spec fn image_bits(pixels: Seq<Color>) -> Seq<bool> {
    CodecEncoder::CanonicalHuffman.written_bits(
        pixels[0],
        pixels[1],
        SelectorEncoder::BestEffort.chosen(pixels),
    )
}

/// `bytes` hold `bits`: the bits and zeros to the end of a byte, then one byte
/// that counts those zeros.
pub open spec fn holds_bits(bytes: Seq<u8>, bits: Seq<bool>) -> bool {
    &&& bytes.len() >= 1
    &&& bytes.last() < 8
    &&& bytes_bits(bytes.drop_last()) == bits + zeros(bytes.last() as nat)
}

/// The pixel lists that `encode` takes.
pub open spec fn encodable(pixels: Seq<Color>) -> bool {
    &&& SelectorEncoder::BestEffort.accepts(pixels)
    &&& CodecEncoder::CanonicalHuffman.accepts(SelectorEncoder::BestEffort.chosen(pixels))
}

/// The byte strings that `decode` reads.
pub open spec fn decodable(bytes: Seq<u8>) -> bool {
    &&& bytes.len() >= 1
    &&& CodecDecoder::CanonicalHuffman.accepts(bytes_bits(bytes.drop_last()))
}

/// The pixels that `decode` gives for a byte string.
pub open spec fn decoded_pixels(bytes: Seq<u8>) -> Seq<Color> {
    let bits = bytes_bits(bytes.drop_last());
    let d = CodecDecoder::CanonicalHuffman;
    SelectorDecoder::Rebuild.rebuilt(d.read_first(bits), d.read_second(bits), d.read_operators(bits))
}

/// Chooses an operator for every pixel after the second, codes the choices, and
/// gives the bytes of the stream.
pub fn encode(source_pixels: &[Color]) -> (bytes: Vec<u8>)
    requires
        encodable(source_pixels@),
    ensures
        holds_bits(bytes@, image_bits(source_pixels@)),
{
    let selector = best_effort_selector();
    let codec = canonical_huffman_codec();
    let operator_index_image = selector.encode.call(source_pixels);
    let stream = codec.encode.call(&operator_index_image);
    let ghost stream_bytes = stream.bytes();
    let bytes = stream.to_bytes();
    proof {
        assert(bytes@.drop_last() =~= stream_bytes);
    }
    bytes
}

/// Reads the stream held by the bytes, and rebuilds the pixels.
pub fn decode(source_bytes: &[u8]) -> (colors: Vec<Color>)
    requires
        decodable(source_bytes@),
    ensures
        colors@ == decoded_pixels(source_bytes@),
{
    let selector = best_effort_selector();
    let codec = canonical_huffman_codec();
    let stream = BitStream::from_bytes(source_bytes);
    let ghost bits = stream.bits();
    let operator_index_image = codec.decode.call(stream);
    proof {
        let lens = stream_lengths(bits);
        lemma_stream_lengths_len(bits, crate::code::operator_codecs::header_entry_count(bits));
        lemma_chuffman_decode_symbols(lens, bits, pixels_pos(bits) + 48, crate::code::operator_codecs::nothing::stream_pixel_count(bits));
    }
    selector.decode.call(&operator_index_image)
}

/// Decoding what `encode` gives yields the pixels that the best effort choice
/// predicts (the source's first two, then each predicted from the two before it),
/// followed by at most two pixels that the padding reads as; this holds when the
/// length table fits the widths the codec picks (some chosen operator is 64 or
/// above, and no code length needs more bits than the longest chosen one).
pub proof fn lemma_code_round_trip(pixels: Seq<Color>, bytes: Seq<u8>)
    requires
        encodable(pixels),
        exists|k: int|
            0 <= k < best_effort_ops(pixels).len() && #[trigger] best_effort_ops(pixels)[k] >= 64,
        max_length(codec_lengths(best_effort_ops(pixels))) < pow2(
            codec_length_width(best_effort_ops(pixels)),
        ),
        holds_bits(bytes, image_bits(pixels)),
    ensures
        decodable(bytes),
        pixels.len() <= decoded_pixels(bytes).len() <= pixels.len() + 2,
        decoded_pixels(bytes).subrange(0, pixels.len() as int) == best_effort_colors(pixels),
{
    let ops = best_effort_ops(pixels);
    let bits = bytes_bits(bytes.drop_last());
    let pad = bytes.last() as nat;
    let written = image_bits(pixels);
    lemma_canonical_huffman_round_trip(pixels[0], pixels[1], ops, pad);
    let lens = codec_lengths(ops);
    let extra = crate::chuffman::chuffman_decode(lens, bits, written.len() as int, 2).0;
    lemma_chuffman_decode_symbols(lens, bits, written.len() as int, 2);
    lemma_reconstruct_prefix(pixels[0], pixels[1], ops, extra);
    lemma_best_effort_rebuilds(pixels);
    crate::code::operator_selectors::lemma_reconstruct_len(pixels[0], pixels[1], ops);
}


/// Whether `encode` takes the pixels: at least two of them, some chosen operator
/// other than the first, and no code longer than 32 bits.
pub fn can_encode(source_pixels: &[Color]) -> (ok: bool)
    ensures
        ok == encodable(source_pixels@),
{
    if source_pixels.len() < 2 {
        return false;
    }
    let operator_index_image = best_effort(source_pixels);
    let ops = &operator_index_image.operator_index_list;
    let ghost list = ops@;
    let n = ops.len();
    let mut any_nonzero = false;
    let mut k: usize = 0;
    while k < n
        invariant
            n == list.len(),
            list == ops@,
            k <= n,
            any_nonzero == exists|j: int| 0 <= j < k && #[trigger] list[j] > 0,
        decreases n - k,
    {
        if ops[k] > 0 {
            any_nonzero = true;
        }
        k = k + 1;
    }
    if !any_nonzero {
        return false;
    }
    proof {
        assert(list.len() == n);
        lemma_repeat_freq_table(list, (OPERATOR_COUNT - 1) as nat);
        crate::chuffman::lemma_huffman_lengths(
            crate::code::operator_codecs::operator_freq_table(list),
            OPERATOR_COUNT as nat,
        );
    }
    let freq = count_occurrences(ops.as_slice(), OPERATOR_COUNT - 1);
    let lengths = huffman_length_table(freq.as_slice(), OPERATOR_COUNT);
    let mut i: usize = 0;
    while i < OPERATOR_COUNT
        invariant
            lengths@ == codec_lengths(list),
            lengths@.len() == OPERATOR_COUNT,
            list == best_effort_ops(source_pixels@),
            i <= OPERATOR_COUNT,
            forall|j: int| 0 <= j < i ==> #[trigger] codec_lengths(list)[j] <= max_code_length(),
        decreases OPERATOR_COUNT - i,
    {
        if lengths[i] > 32 {
            proof {
                assert(codec_lengths(list)[i as int] > max_code_length());
            }
            return false;
        }
        i = i + 1;
    }
    true
}

/// Whether `decode` reads the bytes: a stream that the canonical Huffman decoder
/// reads, then its count of free bits.
pub fn can_decode(source_bytes: &[u8]) -> (ok: bool)
    ensures
        ok == decodable(source_bytes@),
{
    if source_bytes.len() == 0 {
        return false;
    }
    let codec = canonical_huffman_codec();
    let stream = BitStream::from_bytes(source_bytes);
    codec.decode.can_read(&stream)
}
} // verus!
