//! The codecs that turn an operator index image into a bit stream and back.

use vstd::prelude::*;
use vstd::arithmetic::power2::{pow2, lemma2_to64};
use crate::bits::{bit_width, bits_of, bits_value, zeros, lemma_bit_width, lemma_bit_width_bound,
    lemma_bits_of_len, lemma_bits_value_bound, lemma_bits_value_of};
use crate::bitstream::{BitRead, BitStream, BitWrite, BitWriter};
use crate::chuffman;
use crate::chuffman::{chuffman_decode, huffman_lengths, zero_table, listed_lengths, pieces_bits, symbol_pieces,
    lemma_pieces_bits_append};
use crate::chuffman::canonical::{codes_fit, kraft_sum, max_code_length, max_length,
    valid_lengths, lemma_max_length, lemma_valid_codes_fit};
use crate::chuffman::repeat_compaction::{count_occurrences, occurrence_table,
    lemma_repeat_freq_table};
use crate::code::operator_selectors::{OperatorIndexImage, valid_operator_indices};
use crate::code::operator_codecs::nothing::{nothing_bits, nothing_decodable, pixel_count_bits,
    stream_index, stream_index_width, stream_pixel_count};
use crate::color::{Color, color_bits, color_from_bits, lemma_color_bits_round_trip};
use crate::color::operator::OPERATOR_COUNT;

pub mod nothing;

verus! {

/// How often each operator occurs in an operator list.
pub open spec fn operator_freq_table(ops: Seq<usize>) -> Seq<usize> {
    occurrence_table(ops, (OPERATOR_COUNT - 1) as nat)
}

/// The code length of each operator: its depth in the Huffman tree of the
/// operator frequencies.
pub open spec fn codec_lengths(ops: Seq<usize>) -> Seq<usize> {
    huffman_lengths(operator_freq_table(ops), OPERATOR_COUNT as nat)
}

/// The width the length table's indices are written with: the bit width of the
/// largest listed operator.
pub open spec fn codec_index_width(ops: Seq<usize>) -> nat {
    bit_width(max_length(ops))
}

/// The width the length table's lengths are written with: the bit width of the
/// longest code of a listed operator.
pub open spec fn codec_length_width(ops: Seq<usize>) -> nat {
    bit_width(max_length(listed_lengths(codec_lengths(ops), ops)))
}

/// The length table as written: for each symbol with a code, in index order, its
/// index in `iw` bits and its length in `lw` bits.
pub open spec fn table_bits(lens: Seq<usize>, iw: nat, lw: nat) -> Seq<bool>
    decreases lens.len(),
{
    if lens.len() == 0 {
        Seq::empty()
    } else if lens.last() != 0 {
        table_bits(lens.drop_last(), iw, lw) + bits_of((lens.len() - 1) as nat, iw) + bits_of(
            lens.last() as nat,
            lw,
        )
    } else {
        table_bits(lens.drop_last(), iw, lw)
    }
}

/// The bits the canonical Huffman encoder writes: the pixel count (the listed
/// operators and the first two pixels), the index width, the length width and the
/// number of table entries in 32 bits each, the length table, the first two pixels,
/// then the code of every listed operator.
pub open spec fn canonical_huffman_bits(first: Color, second: Color, ops: Seq<usize>) -> Seq<
    bool,
> {
    let lens = codec_lengths(ops);
    pixel_count_bits(ops.len() + 2) + bits_of(codec_index_width(ops), 32) + bits_of(
        codec_length_width(ops),
        32,
    ) + bits_of(OPERATOR_COUNT as nat, 32) + table_bits(
        lens,
        codec_index_width(ops),
        codec_length_width(ops),
    ) + color_bits(first) + color_bits(second) + pieces_bits(symbol_pieces(lens, ops))
}

/// The operator lists the canonical Huffman encoder takes: indices that name
/// operators, one of them not the first operator, and no code longer than 32 bits.
pub open spec fn canonical_huffman_encodable(ops: Seq<usize>) -> bool {
    &&& ops.len() + 2 <= usize::MAX
    &&& valid_operator_indices(ops)
    &&& exists|k: int| 0 <= k < ops.len() && #[trigger] ops[k] > 0
    &&& forall|i: int| 0 <= i < OPERATOR_COUNT ==> #[trigger] codec_lengths(ops)[i] <= max_code_length()
}

/// Writes the image with the canonical Huffman code of its operator frequencies.
fn canonical_huffman_encoder(operator_index_image: &OperatorIndexImage) -> (stream: BitStream)
    requires
        canonical_huffman_encodable(operator_index_image.operator_index_list@),
    ensures
        stream.bits() == canonical_huffman_bits(
            operator_index_image.first_pixel,
            operator_index_image.second_pixel,
            operator_index_image.operator_index_list@,
        ) + zeros(stream.free_bits() as nat),
        stream.free_bits() < 8,
{
    let ghost ops = operator_index_image.operator_index_list@;
    let ghost lens = codec_lengths(ops);
    let list = &operator_index_image.operator_index_list;
    proof {
        assert(ops.len() == list.len());
        let w = choose|k: int| 0 <= k < ops.len() && #[trigger] ops[k] > 0;
        assert(ops[w] < OPERATOR_COUNT);
        lemma_repeat_freq_table(ops, (OPERATOR_COUNT - 1) as nat);
        chuffman::lemma_huffman_lengths(operator_freq_table(ops), OPERATOR_COUNT as nat);
    }
    let freq = count_occurrences(list.as_slice(), OPERATOR_COUNT - 1);
    let (encoded, length_table, index_width, length_width, index_count) = chuffman::encode(
        list.as_slice(),
        freq.as_slice(),
        OPERATOR_COUNT,
    );
    proof {
        lemma2_to64();
        lemma_max_length(ops);
        lemma_max_length(listed_lengths(lens, ops));
        lemma_bit_width_bound(max_length(ops), 32);
        lemma_bit_width_bound(max_length(listed_lengths(lens, ops)), 32);
        assert forall|k: int| 0 <= k < ops.len() implies #[trigger] ops[k] < pow2(32) by {}
        assert(max_length(ops) < pow2(32)) by {
            if ops.len() > 0 {
                let j = choose|j: int| 0 <= j < ops.len() && ops[j] == max_length(ops);
                assert(ops[j] < OPERATOR_COUNT);
            }
        }
        assert(max_length(listed_lengths(lens, ops)) < pow2(32)) by {
            let ll = listed_lengths(lens, ops);
            if ll.len() > 0 {
                let j = choose|j: int| 0 <= j < ll.len() && ll[j] == max_length(ll);
                assert(ops[j] < OPERATOR_COUNT);
                assert(ll[j] == lens[ops[j] as int]);
            }
        }
    }

    let mut writer = BitWriter::new();
    let pixel_count = encoded.len() + 2;
    let wide = pixel_count as u64;
    let low = (wide & 0xffffffff) as u32;
    let high = (wide >> 32) as u32;
    proof {
        assert(wide & 0xffffffff == wide % 0x1_0000_0000 && wide & 0xffffffff < 0x1_0000_0000)
            by (bit_vector);
        assert(wide >> 32 == wide / 0x1_0000_0000 && wide >> 32 < 0x1_0000_0000) by (bit_vector);
    }
    writer.write_msb(low, 32);
    writer.write_msb(high, 32);
    writer.write_msb(index_width, 32);
    writer.write_msb(length_width, 32);
    writer.write_msb(index_count as u32, 32);
    let ghost header = writer@;
    proof {
        assert(header =~= pixel_count_bits(ops.len() + 2) + bits_of(codec_index_width(ops), 32)
            + bits_of(codec_length_width(ops), 32) + bits_of(OPERATOR_COUNT as nat, 32));
        assert(table_bits(lens.take(0), index_width as nat, length_width as nat)
            =~= Seq::<bool>::empty());
    }
    let table_len = length_table.len();
    let mut i: usize = 0;
    while i < table_len
        invariant
            table_len == lens.len(),
            length_table@ == lens,
            lens.len() == OPERATOR_COUNT,
            forall|j: int| 0 <= j < lens.len() ==> #[trigger] lens[j] <= max_code_length(),
            index_width <= 32,
            length_width <= 32,
            i <= table_len,
            writer.wf(),
            writer@ == header + table_bits(
                lens.take(i as int),
                index_width as nat,
                length_width as nat,
            ),
        decreases table_len - i,
    {
        let length = length_table[i];
        proof {
            assert(lens.take(i + 1).drop_last() =~= lens.take(i as int));
        }
        if length != 0 {
            writer.write_msb(i as u32, index_width as usize);
            writer.write_msb(length as u32, length_width as usize);
        }
        i = i + 1;
    }
    proof {
        assert(lens.take(table_len as int) =~= lens);
    }
    operator_index_image.first_pixel.bit_write_msb(&mut writer);
    operator_index_image.second_pixel.bit_write_msb(&mut writer);
    let ghost prefix = writer@;
    let n = encoded.len();
    let mut k: usize = 0;
    proof {
        assert(pieces_bits(encoded@.take(0)) =~= Seq::<bool>::empty());
    }
    while k < n
        invariant
            n == encoded@.len(),
            encoded@ == symbol_pieces(lens, ops),
            forall|j: int| 0 <= j < lens.len() ==> #[trigger] lens[j] <= max_code_length(),
            valid_operator_indices(ops),
            lens.len() == OPERATOR_COUNT,
            k <= n,
            writer.wf(),
            writer@ == prefix + pieces_bits(encoded@.take(k as int)),
        decreases n - k,
    {
        let (code, length) = encoded[k];
        proof {
            assert(ops[k as int] < OPERATOR_COUNT);
            let item = encoded@[k as int];
            assert(encoded@.take(k + 1) =~= encoded@.take(k as int) + seq![item]);
            lemma_pieces_bits_append(encoded@.take(k as int), seq![item]);
            assert(seq![item].drop_first() =~= Seq::<(u32, usize)>::empty());
            assert(pieces_bits(seq![item].drop_first()) =~= Seq::<bool>::empty());
            assert(pieces_bits(seq![item]) =~= bits_of(item.0 as nat, item.1 as nat));
        }
        writer.write_msb(code, length);
        k = k + 1;
    }
    proof {
        assert(encoded@.take(n as int) =~= encoded@);
        assert(writer@ =~= canonical_huffman_bits(
            operator_index_image.first_pixel,
            operator_index_image.second_pixel,
            ops,
        ));
    }
    writer.to_stream()
}


/// The index width a stream's header holds.
pub open spec fn header_index_width(bits: Seq<bool>) -> nat {
    bits_value(bits.subrange(64, 96))
}

/// The length width a stream's header holds.
pub open spec fn header_length_width(bits: Seq<bool>) -> nat {
    bits_value(bits.subrange(96, 128))
}

/// The number of length table entries a stream's header holds.
pub open spec fn header_entry_count(bits: Seq<bool>) -> nat {
    bits_value(bits.subrange(128, 160))
}

/// Where the `k`-th length table entry of a stream starts.
pub open spec fn entry_pos(bits: Seq<bool>, k: int) -> int {
    160 + k * (header_index_width(bits) + header_length_width(bits))
}

/// The index of the `k`-th length table entry, kept to 32 bits.
pub open spec fn entry_index(bits: Seq<bool>, k: int) -> nat {
    bits_value(bits.subrange(entry_pos(bits, k), entry_pos(bits, k) + header_index_width(bits)))
        % 0x1_0000_0000
}

/// The length of the `k`-th length table entry, kept to 32 bits.
pub open spec fn entry_length(bits: Seq<bool>, k: int) -> nat {
    bits_value(
        bits.subrange(
            entry_pos(bits, k) + header_index_width(bits),
            entry_pos(bits, k) + header_index_width(bits) + header_length_width(bits),
        ),
    ) % 0x1_0000_0000
}

/// The length table after the first `k` entries of a stream: every operator
/// starts at 0, and each entry sets its index to its length.
pub open spec fn stream_length_table(bits: Seq<bool>, k: nat) -> Seq<usize>
    decreases k,
{
    if k == 0 {
        zero_table(OPERATOR_COUNT as nat)
    } else {
        stream_length_table(bits, (k - 1) as nat).update(
            entry_index(bits, k - 1) as int,
            entry_length(bits, k - 1) as usize,
        )
    }
}

/// The length table a stream holds.
pub open spec fn stream_lengths(bits: Seq<bool>) -> Seq<usize> {
    stream_length_table(bits, header_entry_count(bits))
}

/// Where a stream's first two pixels start, right after its length table.
pub open spec fn pixels_pos(bits: Seq<bool>) -> int {
    entry_pos(bits, header_entry_count(bits) as int)
}

/// The streams the canonical Huffman decoder reads: a whole header and length
/// table, entries that name operators, a length table with a code whose canonical
/// codes fit in 32 bits, the two pixels, and a pixel count that fits in `usize`.
pub open spec fn canonical_huffman_decodable(bits: Seq<bool>) -> bool {
    &&& bits.len() >= 160
    &&& stream_pixel_count(bits) <= usize::MAX
    &&& pixels_pos(bits) + 48 <= bits.len()
    &&& forall|k: int|
        0 <= k < header_entry_count(bits) ==> #[trigger] entry_index(bits, k) < OPERATOR_COUNT
    &&& codes_fit(stream_lengths(bits))
    &&& exists|i: int| 0 <= i < OPERATOR_COUNT && #[trigger] stream_lengths(bits)[i] != 0
}

/// The operator list a stream decodes to: up to the header's pixel count of
/// symbols of its length table, read after the two pixels.
pub open spec fn stream_operators(bits: Seq<bool>) -> Seq<usize> {
    chuffman_decode(stream_lengths(bits), bits, pixels_pos(bits) + 48, stream_pixel_count(bits)).0
}

/// Reads the header and length table, the first two pixels, and the coded
/// operators.
fn canonical_huffman_decoder(stream: BitStream) -> (img: OperatorIndexImage)
    requires
        canonical_huffman_decodable(stream.bits()),
    ensures
        img.first_pixel == color_from_bits(
            stream.bits().subrange(pixels_pos(stream.bits()), pixels_pos(stream.bits()) + 24),
        ),
        img.second_pixel == color_from_bits(
            stream.bits().subrange(
                pixels_pos(stream.bits()) + 24,
                pixels_pos(stream.bits()) + 48,
            ),
        ),
        img.operator_index_list@ == stream_operators(stream.bits()),
{
    let ghost bits = stream.bits();
    let mut reader = stream.reader();
    let low = reader.read_msb(32).unwrap();
    let high = reader.read_msb(32).unwrap();
    proof {
        lemma_bits_value_bound(bits.subrange(0, 32));
        lemma_bits_value_bound(bits.subrange(32, 64));
        lemma_bits_value_bound(bits.subrange(64, 96));
        lemma_bits_value_bound(bits.subrange(96, 128));
        lemma_bits_value_bound(bits.subrange(128, 160));
        lemma2_to64();
        assert((low as u64 | (high as u64) << 32) == low as u64 + (high as u64) * 0x1_0000_0000)
            by (bit_vector);
    }
    let pixel_count = (low as u64 | (high as u64) << 32) as usize;
    let index_width = reader.read_msb(32).unwrap();
    let length_width = reader.read_msb(32).unwrap();
    let index_count = reader.read_msb(32).unwrap() as usize;
    let ghost iw = index_width as nat;
    let ghost lw = length_width as nat;
    let mut table: Vec<usize> = vec![0usize; OPERATOR_COUNT];
    proof {
        assert(table@ =~= stream_length_table(bits, 0));
    }
    let mut k: usize = 0;
    while k < index_count
        invariant
            reader.wf(),
            reader.bits() == bits,
            reader.data() == stream.bytes(),
            canonical_huffman_decodable(bits),
            iw == header_index_width(bits),
            lw == header_length_width(bits),
            index_count == header_entry_count(bits),
            iw == index_width,
            lw == length_width,
            k <= index_count,
            reader.pos() == entry_pos(bits, k as int),
            table@ == stream_length_table(bits, k as nat),
            table@.len() == OPERATOR_COUNT,
        decreases index_count - k,
    {
        proof {
            assert(k * (iw + lw) + iw + lw == (k + 1) * (iw + lw)) by (nonlinear_arith);
            assert((k + 1) * (iw + lw) <= index_count * (iw + lw)) by (nonlinear_arith)
                requires
                    k + 1 <= index_count,
            ;
            assert(entry_index(bits, k as int) < OPERATOR_COUNT);
        }
        let index = reader.read_msb(index_width as usize).unwrap();
        let length = reader.read_msb(length_width as usize).unwrap();
        table.set(index as usize, length as usize);
        k = k + 1;
    }
    let first_color = Color::bit_read_msb(&mut reader);
    let second_color = Color::bit_read_msb(&mut reader);
    let decoded = chuffman::decode(&mut reader, table.as_slice(), pixel_count);
    OperatorIndexImage::new(first_color, second_color, decoded)
}

/// With every length nonzero, the length table is one entry per symbol, each
/// `iw + lw` bits: the symbol's index, then its length.
pub proof fn lemma_table_bits(lens: Seq<usize>, iw: nat, lw: nat)
    requires
        forall|i: int| 0 <= i < lens.len() ==> #[trigger] lens[i] != 0,
    ensures
        table_bits(lens, iw, lw).len() == lens.len() * (iw + lw),
        forall|k: int|
            0 <= k < lens.len() ==> #[trigger] table_bits(lens, iw, lw).subrange(
                k * (iw + lw),
                k * (iw + lw) + iw,
            ) == bits_of(k as nat, iw),
        forall|k: int|
            0 <= k < lens.len() ==> #[trigger] table_bits(lens, iw, lw).subrange(
                k * (iw + lw) + iw,
                k * (iw + lw) + iw + lw,
            ) == bits_of(lens[k] as nat, lw),
    decreases lens.len(),
{
    if lens.len() > 0 {
        let n = lens.len();
        let w = iw + lw;
        let pre = lens.drop_last();
        let t = table_bits(lens, iw, lw);
        let tp = table_bits(pre, iw, lw);
        lemma_table_bits(pre, iw, lw);
        lemma_bits_of_len((n - 1) as nat, iw);
        lemma_bits_of_len(lens.last() as nat, lw);
        assert((n - 1) * w + w == n * w) by (nonlinear_arith);
        assert(t.len() == n * w);
        assert forall|k: int| 0 <= k < n implies #[trigger] table_bits(lens, iw, lw).subrange(
            k * (iw + lw),
            k * (iw + lw) + iw,
        ) == bits_of(k as nat, iw) by {
            if k < n - 1 {
                assert(k * w + w <= (n - 1) * w) by (nonlinear_arith)
                    requires
                        k + 1 <= n - 1,
                ;
                assert(k * w >= 0) by (nonlinear_arith)
                    requires
                        k >= 0,
                ;
                assert(t.subrange(k * w, k * w + iw) =~= tp.subrange(k * w, k * w + iw));
                assert(t.subrange(k * w + iw, k * w + iw + lw) =~= tp.subrange(
                    k * w + iw,
                    k * w + iw + lw,
                ));
                assert(pre[k] == lens[k]);
                assert(tp.subrange(k * (iw + lw), k * (iw + lw) + iw) == bits_of(k as nat, iw));
                assert(tp.subrange(k * (iw + lw) + iw, k * (iw + lw) + iw + lw) == bits_of(pre[k] as nat, lw));
            } else {
                assert(t.subrange(k * w, k * w + iw) =~= bits_of(k as nat, iw));
                assert(t.subrange(k * w + iw, k * w + iw + lw) =~= bits_of(lens[k] as nat, lw));
            }
        }
        assert forall|k: int| 0 <= k < n implies #[trigger] table_bits(lens, iw, lw).subrange(
            k * (iw + lw) + iw,
            k * (iw + lw) + iw + lw,
        ) == bits_of(lens[k] as nat, lw) by {
            if k < n - 1 {
                assert(k * w + w <= (n - 1) * w) by (nonlinear_arith)
                    requires
                        k + 1 <= n - 1,
                ;
                assert(k * w >= 0) by (nonlinear_arith)
                    requires
                        k >= 0,
                ;
                assert(t.subrange(k * w, k * w + iw) =~= tp.subrange(k * w, k * w + iw));
                assert(t.subrange(k * w + iw, k * w + iw + lw) =~= tp.subrange(
                    k * w + iw,
                    k * w + iw + lw,
                ));
                assert(pre[k] == lens[k]);
                assert(tp.subrange(k * (iw + lw), k * (iw + lw) + iw) == bits_of(k as nat, iw));
                assert(tp.subrange(k * (iw + lw) + iw, k * (iw + lw) + iw + lw) == bits_of(pre[k] as nat, lw));
            } else {
                assert(t.subrange(k * w, k * w + iw) =~= bits_of(k as nat, iw));
                assert(t.subrange(k * w + iw, k * w + iw + lw) =~= bits_of(lens[k] as nat, lw));
            }
        }
    }
}

/// Entries that give each symbol its length, in index order, rebuild the table.
proof fn lemma_stream_table(bits: Seq<bool>, lens: Seq<usize>, j: nat)
    requires
        lens.len() == OPERATOR_COUNT,
        j <= OPERATOR_COUNT,
        forall|k: int| 0 <= k < j ==> #[trigger] entry_index(bits, k) == k,
        forall|k: int| 0 <= k < j ==> #[trigger] entry_length(bits, k) == lens[k],
    ensures
        stream_length_table(bits, j) == Seq::new(
            OPERATOR_COUNT as nat,
            |i: int| if i < j {
                lens[i]
            } else {
                0usize
            },
        ),
    decreases j,
{
    if j == 0 {
        assert(stream_length_table(bits, 0) =~= Seq::new(
            OPERATOR_COUNT as nat,
            |i: int| if i < 0 {
                lens[i]
            } else {
                0usize
            },
        ));
    } else {
        lemma_stream_table(bits, lens, (j - 1) as nat);
        assert(entry_index(bits, j - 1) == j - 1);
        assert(entry_length(bits, j - 1) == lens[j - 1]);
        assert(stream_length_table(bits, j) =~= Seq::new(
            OPERATOR_COUNT as nat,
            |i: int| if i < j {
                lens[i]
            } else {
                0usize
            },
        ));
    }
}

/// Reading back what the canonical Huffman encoder writes, whatever the padding,
/// gives the image's length table, its two pixels, and its operators followed by
/// what the bits after them read as (the decoder reads up to two more symbols than
/// were written). This holds when the length table fits the widths the encoder
/// picks from the listed operators: some listed operator is 64 or above, so that
/// every operator's index fits, and no operator's code length needs more bits than
/// the longest listed one.
#[verifier::rlimit(60)]
pub proof fn lemma_canonical_huffman_round_trip(
    first: Color,
    second: Color,
    ops: Seq<usize>,
    pad: nat,
)
    requires
        canonical_huffman_encodable(ops),
        exists|k: int| 0 <= k < ops.len() && #[trigger] ops[k] >= 64,
        max_length(codec_lengths(ops)) < pow2(codec_length_width(ops)),
    ensures
        ({
            let written = canonical_huffman_bits(first, second, ops);
            let bits = written + zeros(pad);
            let lens = codec_lengths(ops);
            &&& canonical_huffman_decodable(bits)
            &&& stream_lengths(bits) == lens
            &&& color_from_bits(bits.subrange(pixels_pos(bits), pixels_pos(bits) + 24)) == first
            &&& color_from_bits(bits.subrange(pixels_pos(bits) + 24, pixels_pos(bits) + 48))
                == second
            &&& stream_operators(bits) == ops + chuffman_decode(
                lens,
                bits,
                written.len() as int,
                2,
            ).0
        }),
{
    let n = ops.len();
    let lens = codec_lengths(ops);
    let freq = operator_freq_table(ops);
    let iw = codec_index_width(ops);
    let lw = codec_length_width(ops);
    let w = iw + lw;
    let pc = (n + 2) as nat;
    let h0 = pixel_count_bits(pc);
    let h = h0 + bits_of(iw, 32) + bits_of(lw, 32) + bits_of(OPERATOR_COUNT as nat, 32);
    let t = table_bits(lens, iw, lw);
    let c1 = color_bits(first);
    let c2 = color_bits(second);
    let p = pieces_bits(symbol_pieces(lens, ops));
    let written = canonical_huffman_bits(first, second, ops);
    let bits = written + zeros(pad);
    assert(written == h + t + c1 + c2 + p);
    lemma2_to64();

    // The code lengths: one per operator, each at least 1.
    let wk = choose|k: int| 0 <= k < ops.len() && #[trigger] ops[k] >= 64;
    assert(ops[wk] < OPERATOR_COUNT);
    lemma_repeat_freq_table(ops, (OPERATOR_COUNT - 1) as nat);
    chuffman::lemma_huffman_lengths(freq, OPERATOR_COUNT as nat);
    assert(lens.len() == OPERATOR_COUNT);
    assert forall|i: int| 0 <= i < lens.len() implies #[trigger] lens[i] != 0 by {
        assert(lens[i] >= 1);
    }
    assert(valid_lengths(lens));
    lemma_valid_codes_fit(lens);
    lemma_table_bits(lens, iw, lw);

    // The widths: 7 bits for an index, at most 6 for a length.
    lemma_max_length(ops);
    assert(64 <= max_length(ops) < 128) by {
        let j = choose|j: int| 0 <= j < ops.len() && ops[j] == max_length(ops);
        assert(ops[j] < OPERATOR_COUNT);
        assert(ops[wk] <= max_length(ops));
    }
    lemma_bit_width(max_length(ops), 7);
    assert(iw == 7);
    let ll = listed_lengths(lens, ops);
    lemma_max_length(ll);
    assert(max_length(ll) <= 32) by {
        let j = choose|j: int| 0 <= j < ll.len() && ll[j] == max_length(ll);
        assert(ops[j] < OPERATOR_COUNT);
    }
    lemma_bit_width_bound(max_length(ll), 6);
    assert(lw <= 6);

    // The header.
    lemma_bits_of_len(pc % 0x1_0000_0000, 32);
    lemma_bits_of_len(pc / 0x1_0000_0000, 32);
    lemma_bits_of_len(iw, 32);
    lemma_bits_of_len(lw, 32);
    lemma_bits_of_len(OPERATOR_COUNT as nat, 32);
    lemma_color_bits_round_trip(first);
    lemma_color_bits_round_trip(second);
    assert(h.len() == 160);
    assert(t.len() == OPERATOR_COUNT * w);
    assert(bits.subrange(0, 32) =~= bits_of(pc % 0x1_0000_0000, 32));
    assert(bits.subrange(32, 64) =~= bits_of(pc / 0x1_0000_0000, 32));
    assert(bits.subrange(64, 96) =~= bits_of(iw, 32));
    assert(bits.subrange(96, 128) =~= bits_of(lw, 32));
    assert(bits.subrange(128, 160) =~= bits_of(OPERATOR_COUNT as nat, 32));
    lemma_bits_value_of(pc % 0x1_0000_0000, 32);
    lemma_bits_value_of(pc / 0x1_0000_0000, 32);
    lemma_bits_value_of(iw, 32);
    lemma_bits_value_of(lw, 32);
    lemma_bits_value_of(OPERATOR_COUNT as nat, 32);
    assert(pc < 0x1_0000_0000_0000_0000);
    assert((pc / 0x1_0000_0000) % 0x1_0000_0000 == pc / 0x1_0000_0000);
    assert(stream_pixel_count(bits) == pc);
    assert(header_index_width(bits) == iw);
    assert(header_length_width(bits) == lw);
    assert(header_entry_count(bits) == OPERATOR_COUNT);

    // The entries.
    assert forall|k: int|
        #![trigger entry_index(bits, k)]
        #![trigger entry_length(bits, k)]
        0 <= k < OPERATOR_COUNT implies entry_index(bits, k) == k && entry_length(bits, k)
            == lens[k] by {
        assert(k * w + w <= OPERATOR_COUNT * w) by (nonlinear_arith)
            requires
                k + 1 <= OPERATOR_COUNT,
        ;
        assert(k * w >= 0) by (nonlinear_arith)
            requires
                k >= 0,
        ;
        let e = 160 + k * w;
        assert(entry_pos(bits, k) == e);
        assert(bits.subrange(e, e + iw) =~= t.subrange(k * w, k * w + iw));
        assert(bits.subrange(e + iw, e + iw + lw) =~= t.subrange(k * w + iw, k * w + iw + lw));
        assert(t.subrange(k * (iw + lw), k * (iw + lw) + iw) == bits_of(k as nat, iw));
        assert(t.subrange(k * (iw + lw) + iw, k * (iw + lw) + iw + lw) == bits_of(
            lens[k] as nat,
            lw,
        ));
        lemma_bits_value_of(k as nat, iw);
        lemma_bits_value_of(lens[k] as nat, lw);
        assert(bits_value(bits.subrange(e, e + iw)) == k);
        assert(lens[k] <= max_length(lens)) by {
            lemma_max_length(lens);
        }
        vstd::arithmetic::div_mod::lemma_small_mod(lens[k] as nat, pow2(lw));
        assert(bits_value(bits.subrange(e + iw, e + iw + lw)) == lens[k]);
    }
    lemma_stream_table(bits, lens, OPERATOR_COUNT as nat);
    assert(stream_lengths(bits) =~= lens);

    // The pixels and the codes.
    let q = 160 + OPERATOR_COUNT * w;
    assert(pixels_pos(bits) == q);
    assert(bits.subrange(q, q + 24) =~= c1);
    assert(bits.subrange(q + 24, q + 48) =~= c2);
    assert(bits.subrange(q + 48, q + 48 + p.len()) =~= p);
    assert forall|j: int| 0 <= j < ops.len() implies #[trigger] ops[j] < lens.len() by {}
    assert forall|j: int| 0 <= j < ops.len() implies #[trigger] lens[ops[j] as int] >= 1 by {
        assert(ops[j] < OPERATOR_COUNT);
    }
    chuffman::lemma_decode_pieces(lens, ops, bits, q + 48, 2);
    assert(q + 48 + p.len() == written.len());
}

/// The encoders of operator index images.
pub enum CodecEncoder {
    /// The canonical Huffman code of the operator frequencies.
    CanonicalHuffman,
    /// Every operator index in a fixed width.
    Nothing,
}

/// The decoders of operator index images.
pub enum CodecDecoder {
    /// The canonical Huffman code that the stream's length table describes.
    CanonicalHuffman,
    /// Operator indices in the width the stream's header gives.
    Nothing,
}

/// A codec: how an operator index image is written as bits, and how it is read back.
pub struct OperatorCodec {
    pub encode: CodecEncoder,
    pub decode: CodecDecoder,
}

impl OperatorCodec {
    fn new(encoder: CodecEncoder, decoder: CodecDecoder) -> (codec: Self)
        ensures
            codec.encode == encoder,
            codec.decode == decoder,
    {
        Self { encode: encoder, decode: decoder }
    }
}

/// The canonical Huffman codec.
pub fn canonical_huffman_codec() -> (codec: OperatorCodec)
    ensures
        codec.encode == CodecEncoder::CanonicalHuffman,
        codec.decode == CodecDecoder::CanonicalHuffman,
{
    OperatorCodec::new(CodecEncoder::CanonicalHuffman, CodecDecoder::CanonicalHuffman)
}

/// The fixed-width codec.
pub fn nothing_codec() -> (codec: OperatorCodec)
    ensures
        codec.encode == CodecEncoder::Nothing,
        codec.decode == CodecDecoder::Nothing,
{
    OperatorCodec::new(CodecEncoder::Nothing, CodecDecoder::Nothing)
}

impl CodecEncoder {
    /// The operator lists this encoder takes.
    pub open spec fn accepts(&self, ops: Seq<usize>) -> bool {
        match self {
            CodecEncoder::CanonicalHuffman => canonical_huffman_encodable(ops),
            CodecEncoder::Nothing => ops.len() + 2 <= usize::MAX,
        }
    }

    /// The bits this encoder writes for an image, before the padding.
    pub open spec fn written_bits(&self, first: Color, second: Color, ops: Seq<usize>) -> Seq<
        bool,
    > {
        match self {
            CodecEncoder::CanonicalHuffman => canonical_huffman_bits(first, second, ops),
            CodecEncoder::Nothing => nothing_bits(first, second, ops),
        }
    }

    /// Writes the image as a stream: the written bits, then zeros to the end of
    /// the last byte.
    pub fn call(&self, operator_index_image: &OperatorIndexImage) -> (stream: BitStream)
        requires
            self.accepts(operator_index_image.operator_index_list@),
        ensures
            stream.bits() == self.written_bits(
                operator_index_image.first_pixel,
                operator_index_image.second_pixel,
                operator_index_image.operator_index_list@,
            ) + zeros(stream.free_bits() as nat),
            stream.free_bits() < 8,
    {
        match self {
            CodecEncoder::CanonicalHuffman => canonical_huffman_encoder(operator_index_image),
            CodecEncoder::Nothing => nothing::encode(operator_index_image),
        }
    }
}

impl CodecDecoder {
    /// The streams this decoder reads.
    pub open spec fn accepts(&self, bits: Seq<bool>) -> bool {
        match self {
            CodecDecoder::CanonicalHuffman => canonical_huffman_decodable(bits),
            CodecDecoder::Nothing => nothing_decodable(bits) && stream_pixel_count(bits)
                <= usize::MAX,
        }
    }

    /// The first pixel this decoder reads from a stream.
    pub open spec fn read_first(&self, bits: Seq<bool>) -> Color {
        match self {
            CodecDecoder::CanonicalHuffman => color_from_bits(
                bits.subrange(pixels_pos(bits), pixels_pos(bits) + 24),
            ),
            CodecDecoder::Nothing => color_from_bits(bits.subrange(72, 96)),
        }
    }

    /// The second pixel this decoder reads from a stream.
    pub open spec fn read_second(&self, bits: Seq<bool>) -> Color {
        match self {
            CodecDecoder::CanonicalHuffman => color_from_bits(
                bits.subrange(pixels_pos(bits) + 24, pixels_pos(bits) + 48),
            ),
            CodecDecoder::Nothing => color_from_bits(bits.subrange(96, 120)),
        }
    }

    /// The operator list this decoder reads from a stream.
    pub open spec fn read_operators(&self, bits: Seq<bool>) -> Seq<usize> {
        match self {
            CodecDecoder::CanonicalHuffman => stream_operators(bits),
            CodecDecoder::Nothing => Seq::new(
                (stream_pixel_count(bits) - 2) as nat,
                |k: int| stream_index(bits, stream_index_width(bits), k),
            ),
        }
    }

    /// Reads an image back from a stream.
    pub fn call(&self, stream: BitStream) -> (img: OperatorIndexImage)
        requires
            self.accepts(stream.bits()),
        ensures
            img.first_pixel == self.read_first(stream.bits()),
            img.second_pixel == self.read_second(stream.bits()),
            img.operator_index_list@ == self.read_operators(stream.bits()),
    {
        let ghost bits = stream.bits();
        match self {
            CodecDecoder::CanonicalHuffman => canonical_huffman_decoder(stream),
            CodecDecoder::Nothing => {
                let img = nothing::decode(stream);
                proof {
                    assert(img.operator_index_list@ =~= self.read_operators(bits));
                }
                img
            },
        }
    }
}

/// A stream's length table has one length per operator, when its entries name
/// operators.
pub proof fn lemma_stream_lengths_len(bits: Seq<bool>, k: nat)
    requires
        forall|j: int| 0 <= j < k ==> #[trigger] entry_index(bits, j) < OPERATOR_COUNT,
    ensures
        stream_length_table(bits, k).len() == OPERATOR_COUNT,
    decreases k,
{
    if k > 0 {
        lemma_stream_lengths_len(bits, (k - 1) as nat);
    }
}

/// Whether the canonical Huffman decoder reads a stream.
fn canonical_huffman_readable(stream: &BitStream) -> (ok: bool)
    ensures
        ok == canonical_huffman_decodable(stream.bits()),
{
    let ghost bits = stream.bits();
    let total = stream.bit_count();
    if total < 160 {
        return false;
    }
    let mut reader = stream.reader();
    let low = reader.read_msb(32).unwrap();
    let high = reader.read_msb(32).unwrap();
    let index_width = reader.read_msb(32).unwrap();
    let length_width = reader.read_msb(32).unwrap();
    let index_count = reader.read_msb(32).unwrap();
    proof {
        lemma_bits_value_bound(bits.subrange(0, 32));
        lemma_bits_value_bound(bits.subrange(32, 64));
        lemma_bits_value_bound(bits.subrange(64, 96));
        lemma_bits_value_bound(bits.subrange(96, 128));
        lemma_bits_value_bound(bits.subrange(128, 160));
        lemma2_to64();
    }
    let pixel_count = (low as u128) + (high as u128) * 0x1_0000_0000;
    if pixel_count > usize::MAX as u128 {
        return false;
    }
    let ghost iw = index_width as nat;
    let ghost lw = length_width as nat;
    let entry_width = index_width as u128 + length_width as u128;
    proof {
        assert((index_count as u128) * entry_width <= 0xffff_ffff * 0x1_ffff_fffe) by (nonlinear_arith)
            requires
                index_count <= 0xffff_ffff,
                entry_width <= 0x1_ffff_fffe,
        ;
    }
    let pixels_at = 160 + (index_count as u128) * entry_width;
    if pixels_at + 48 > total {
        return false;
    }
    let mut table: Vec<usize> = vec![0usize; OPERATOR_COUNT];
    proof {
        assert(table@ =~= stream_length_table(bits, 0));
    }
    let mut k: u32 = 0;
    while k < index_count
        invariant
            reader.wf(),
            reader.bits() == bits,
            bits == stream.bits(),
            bits.len() == total,
            iw == header_index_width(bits),
            lw == header_length_width(bits),
            index_count == header_entry_count(bits),
            iw == index_width,
            lw == length_width,
            pixels_at == pixels_pos(bits),
            pixels_at + 48 <= total,
            k <= index_count,
            reader.pos() == entry_pos(bits, k as int),
            table@ == stream_length_table(bits, k as nat),
            table@.len() == OPERATOR_COUNT,
            forall|j: int| 0 <= j < k ==> #[trigger] entry_index(bits, j) < OPERATOR_COUNT,
        decreases index_count - k,
    {
        proof {
            assert(k * (iw + lw) + iw + lw == (k + 1) * (iw + lw)) by (nonlinear_arith);
            assert((k + 1) * (iw + lw) <= index_count * (iw + lw)) by (nonlinear_arith)
                requires
                    k + 1 <= index_count,
            ;
        }
        let index = reader.read_msb(index_width as usize).unwrap();
        let length = reader.read_msb(length_width as usize).unwrap();
        if index as usize >= OPERATOR_COUNT {
            proof {
                assert(entry_index(bits, k as int) >= OPERATOR_COUNT);
            }
            return false;
        }
        table.set(index as usize, length as usize);
        k = k + 1;
    }
    let ghost lens = table@;
    let mut longest: usize = 0;
    let mut any_code = false;
    let mut i: usize = 0;
    proof {
        assert(lens.take(0) =~= Seq::<usize>::empty());
    }
    while i < OPERATOR_COUNT
        invariant
            lens == stream_lengths(bits),
            lens == table@,
            bits == stream.bits(),
            lens.len() == OPERATOR_COUNT,
            i <= OPERATOR_COUNT,
            longest == max_length(lens.take(i as int)),
            any_code == exists|j: int| 0 <= j < i && #[trigger] lens[j] != 0,
            forall|j: int| 0 <= j < i ==> #[trigger] lens[j] <= max_code_length(),
        decreases OPERATOR_COUNT - i,
    {
        let length = table[i];
        proof {
            crate::chuffman::canonical::lemma_take_drop_last(lens, i + 1);
        }
        if length > 32 {
            proof {
                assert(lens[i as int] > max_code_length());
                assert(!codes_fit(lens));
            }
            return false;
        }
        if length > 0 {
            any_code = true;
        }
        if longest < length {
            longest = length;
        }
        i = i + 1;
    }
    proof {
        assert(lens.take(OPERATOR_COUNT as int) =~= lens);
        lemma_max_length(lens);
        assert(longest <= 32) by {
            let j = choose|j: int| 0 <= j < lens.len() && lens[j] == max_length(lens);
        }
    }
    let mut kraft: u64 = 0;
    let mut i: usize = 0;
    proof {
        assert(lens.take(0) =~= Seq::<usize>::empty());
        lemma2_to64();
    }
    while i < OPERATOR_COUNT
        invariant
            lens == table@,
            lens.len() == OPERATOR_COUNT,
            longest == max_length(lens),
            longest <= 32,
            forall|j: int| 0 <= j < lens.len() ==> #[trigger] lens[j] <= longest,
            i <= OPERATOR_COUNT,
            kraft == kraft_sum(lens.take(i as int), longest as nat),
            kraft <= i * 0x1_0000_0000,
        decreases OPERATOR_COUNT - i,
    {
        let length = table[i];
        proof {
            crate::chuffman::canonical::lemma_take_drop_last(lens, i + 1);
        }
        if length > 0 {
            let shift = (longest - length) as u64;
            proof {
                vstd::bits::lemma_u64_pow2_no_overflow(shift as nat);
                vstd::bits::lemma_u64_shl_is_mul(1, shift);
                if shift < 32 {
                    vstd::arithmetic::power2::lemma_pow2_strictly_increases(shift as nat, 32);
                }
                lemma2_to64();
            }
            kraft = kraft + (1u64 << shift);
        }
        i = i + 1;
    }
    proof {
        assert(lens.take(OPERATOR_COUNT as int) =~= lens);
        lemma2_to64();
    }
    kraft <= 0x1_0000_0000 && any_code
}

/// Whether the fixed-width decoder reads a stream.
fn nothing_readable(stream: &BitStream) -> (ok: bool)
    ensures
        ok == (nothing_decodable(stream.bits()) && stream_pixel_count(stream.bits())
            <= usize::MAX),
{
    let ghost bits = stream.bits();
    let total = stream.bit_count();
    if total < 120 {
        return false;
    }
    let mut reader = stream.reader();
    let low = reader.read_msb(32).unwrap();
    let high = reader.read_msb(32).unwrap();
    let width = reader.read_msb(8).unwrap();
    proof {
        lemma_bits_value_bound(bits.subrange(0, 32));
        lemma_bits_value_bound(bits.subrange(32, 64));
        lemma_bits_value_bound(bits.subrange(64, 72));
        lemma2_to64();
    }
    let pixel_count = (low as u128) + (high as u128) * 0x1_0000_0000;
    if pixel_count < 2 || pixel_count > usize::MAX as u128 {
        return false;
    }
    proof {
        assert((pixel_count - 2) * (width as u128) <= 0x1_0000_0000_0000_0000 * 0x100) by (nonlinear_arith)
            requires
                pixel_count <= 0x1_0000_0000_0000_0000,
                width <= 0x100,
        ;
    }
    120 + (pixel_count - 2) * (width as u128) <= total
}

impl CodecDecoder {
    /// Whether this decoder reads a stream.
    pub fn can_read(&self, stream: &BitStream) -> (ok: bool)
        ensures
            ok == self.accepts(stream.bits()),
    {
        match self {
            CodecDecoder::CanonicalHuffman => canonical_huffman_readable(stream),
            CodecDecoder::Nothing => nothing_readable(stream),
        }
    }
}
} // verus!
