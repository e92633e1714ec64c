//! The plain codec: every operator index written with a fixed width.

use vstd::prelude::*;
use vstd::arithmetic::power2::{lemma2_to64, lemma_pow2_strictly_increases};
use vstd::arithmetic::mul::{lemma_mul_inequality, lemma_mul_is_distributive_add};
use crate::bits::{bits_of, bits_value, ilog2, lemma_bits_of_len, lemma_bits_value_bound,
    lemma_bits_value_of, zeros};
use crate::bitstream::{BitRead, BitStream, BitWrite, BitWriter};
use crate::code::operator_selectors::{OperatorIndexImage, valid_operator_indices};
use crate::color::{Color, color_bits, color_from_bits, lemma_color_bits_round_trip};
use crate::color::operator::OPERATOR_COUNT;

verus! {

/// The bits of a list of indices, each written with `w` bits.
pub open spec fn index_bits(ops: Seq<usize>, w: nat) -> Seq<bool>
    decreases ops.len(),
{
    if ops.len() == 0 {
        Seq::empty()
    } else {
        index_bits(ops.drop_last(), w) + bits_of(ops.last() as nat, w)
    }
}

/// The 64-bit pixel count header: its low 32 bits, then its high 32 bits.
pub open spec fn pixel_count_bits(pixel_count: nat) -> Seq<bool> {
    bits_of(pixel_count % 0x1_0000_0000, 32) + bits_of(pixel_count / 0x1_0000_0000, 32)
}

/// The width this codec writes each operator index with.
pub open spec fn nothing_index_width() -> nat {
    7
}

/// The bits `encode` writes: the pixel count (the listed operators and the two
/// first pixels), the index width in 8 bits, the first two pixels, then every
/// operator index.
pub open spec fn nothing_bits(first: Color, second: Color, ops: Seq<usize>) -> Seq<bool> {
    pixel_count_bits(ops.len() + 2) + bits_of(nothing_index_width(), 8) + color_bits(first)
        + color_bits(second) + index_bits(ops, nothing_index_width())
}

/// The pixel count that a stream's header holds.
pub open spec fn stream_pixel_count(bits: Seq<bool>) -> nat {
    bits_value(bits.subrange(0, 32)) + bits_value(bits.subrange(32, 64)) * 0x1_0000_0000
}

/// The index width that a stream's header holds.
pub open spec fn stream_index_width(bits: Seq<bool>) -> nat {
    bits_value(bits.subrange(64, 72))
}

/// The stream holds a header, two pixels and as many indices as its header says.
pub open spec fn nothing_decodable(bits: Seq<bool>) -> bool {
    &&& bits.len() >= 120
    &&& stream_pixel_count(bits) >= 2
    &&& 120 + (stream_pixel_count(bits) - 2) * stream_index_width(bits) <= bits.len()
}

/// The `k`-th operator index of a stream: its `w` bits, kept to 32.
pub open spec fn stream_index(bits: Seq<bool>, w: nat, k: int) -> usize {
    (bits_value(bits.subrange(120 + k * w, 120 + k * w + w)) % 0x1_0000_0000) as usize
}

pub proof fn lemma_index_bits(ops: Seq<usize>, w: nat)
    ensures
        index_bits(ops, w).len() == ops.len() * w,
        forall|k: int|
            0 <= k < ops.len() ==> #[trigger] index_bits(ops, w).subrange(k * w, k * w + w)
                == bits_of(ops[k] as nat, w),
    decreases ops.len(),
{
    if ops.len() > 0 {
        let n = ops.len();
        let pre = ops.drop_last();
        lemma_index_bits(pre, w);
        lemma_bits_of_len(ops.last() as nat, w);
        lemma_mul_is_distributive_add(w as int, (n - 1) as int, 1);
        assert((n - 1) * w + w == n * w) by (nonlinear_arith);
        assert forall|k: int| 0 <= k < n implies #[trigger] index_bits(ops, w).subrange(
            k * w,
            k * w + w,
        ) == bits_of(ops[k] as nat, w) by {
            if k < n - 1 {
                lemma_mul_inequality(k + 1, n - 1, w as int);
                assert(k * w + w <= (n - 1) * w) by (nonlinear_arith)
                    requires
                        k + 1 <= n - 1,
                        w >= 0,
                ;
                assert(k * w >= 0) by (nonlinear_arith)
                    requires
                        k >= 0,
                ;
                assert(index_bits(ops, w).subrange(k * w, k * w + w) =~= index_bits(
                    pre,
                    w,
                ).subrange(k * w, k * w + w));
                assert(pre[k] == ops[k]);
            } else {
                assert(index_bits(ops, w).subrange(k * w, k * w + w) =~= bits_of(
                    ops.last() as nat,
                    w,
                ));
            }
        }
    }
}

/// Writes the pixel count, index width, first two pixels and every operator index.
pub fn encode(operator_index_image: &OperatorIndexImage) -> (stream: BitStream)
    requires
        operator_index_image.operator_index_list@.len() + 2 <= usize::MAX,
    ensures
        stream.bits() == nothing_bits(
            operator_index_image.first_pixel,
            operator_index_image.second_pixel,
            operator_index_image.operator_index_list@,
        ) + zeros(stream.free_bits() as nat),
        stream.free_bits() < 8,
{
    let ghost ops = operator_index_image.operator_index_list@;
    let mut writer = BitWriter::new();
    let max_operator_index = OPERATOR_COUNT - 1;
    let index_width = ilog2(max_operator_index) + 1;
    proof {
        lemma2_to64();
        let r = (index_width - 1) as nat;
        if r < 6 {
            lemma_pow2_strictly_increases(r + 1, 7);
        }
        if r > 6 {
            lemma_pow2_strictly_increases(7, r);
        }
    }

    let pixel_count = operator_index_image.operator_index_list.len() + 2;
    let wide = pixel_count as u64;
    let low = (wide & 0xffffffff) as u32;
    let high = (wide >> 32) as u32;
    proof {
        assert(wide & 0xffffffff == wide % 0x1_0000_0000 && wide & 0xffffffff < 0x1_0000_0000)
            by (bit_vector);
        assert(wide >> 32 == wide / 0x1_0000_0000 && wide >> 32 < 0x1_0000_0000) by (bit_vector);
    }
    writer.write_msb(low, 32);
    writer.write_msb(high, 32);
    writer.write_msb(index_width, 8);

    operator_index_image.first_pixel.bit_write_msb(&mut writer);
    operator_index_image.second_pixel.bit_write_msb(&mut writer);
    let ghost header = writer@;
    proof {
        assert(header =~= pixel_count_bits(ops.len() + 2) + bits_of(7, 8) + color_bits(
            operator_index_image.first_pixel,
        ) + color_bits(operator_index_image.second_pixel));
        assert(index_bits(ops.take(0), 7) =~= Seq::<bool>::empty());
    }
    let n = operator_index_image.operator_index_list.len();
    let mut i: usize = 0;
    while i < n
        invariant
            n == ops.len(),
            ops == operator_index_image.operator_index_list@,
            i <= n,
            index_width == 7,
            writer.wf(),
            writer@ == header + index_bits(ops.take(i as int), 7),
        decreases n - i,
    {
        let operator_index = operator_index_image.operator_index_list[i];
        writer.write_msb(operator_index as u32, index_width as usize);
        proof {
            assert(ops.take(i + 1).drop_last() =~= ops.take(i as int));
            lemma_truncate_index(operator_index);
        }
        i = i + 1;
    }
    proof {
        assert(ops.take(n as int) =~= ops);
        assert(writer@ =~= nothing_bits(
            operator_index_image.first_pixel,
            operator_index_image.second_pixel,
            ops,
        ));
    }
    writer.to_stream()
}

/// An index cast to 32 bits keeps its low 7 bits.
proof fn lemma_truncate_index(x: usize)
    ensures
        bits_of((x as u32) as nat, 7) == bits_of(x as nat, 7),
{
    assert((x as u32) % 128 == x % 128) by (bit_vector);
    lemma2_to64();
    crate::bits::lemma_bits_of_mod(x as nat, 7);
    crate::bits::lemma_bits_of_mod((x as u32) as nat, 7);
}

/// Reads the header, the first two pixels, and as many operator indices as the
/// header counts, each with the header's index width.
pub fn decode(stream: BitStream) -> (img: OperatorIndexImage)
    requires
        nothing_decodable(stream.bits()),
        stream_pixel_count(stream.bits()) <= usize::MAX,
    ensures
        img.first_pixel == color_from_bits(stream.bits().subrange(72, 96)),
        img.second_pixel == color_from_bits(stream.bits().subrange(96, 120)),
        img.operator_index_list@.len() == stream_pixel_count(stream.bits()) - 2,
        forall|k: int|
            0 <= k < img.operator_index_list@.len() ==> #[trigger] img.operator_index_list@[k]
                == stream_index(stream.bits(), stream_index_width(stream.bits()), k),
{
    let ghost bits = stream.bits();
    let mut reader = stream.reader();

    let low = reader.read_msb(32).unwrap();
    let high = reader.read_msb(32).unwrap();
    proof {
        lemma_bits_value_bound(bits.subrange(0, 32));
        lemma_bits_value_bound(bits.subrange(32, 64));
        lemma_bits_value_bound(bits.subrange(64, 72));
        lemma2_to64();
        assert((low as u64 | (high as u64) << 32) == low as u64 + (high as u64) * 0x1_0000_0000)
            by (bit_vector);
    }
    let pixel_count = (low as u64 | (high as u64) << 32) as usize;
    let index_width = reader.read_msb(8).unwrap() as usize;

    let first_pixel = Color::bit_read_msb(&mut reader);
    let second_pixel = Color::bit_read_msb(&mut reader);
    let count = pixel_count - 2;
    let ghost w = index_width as nat;
    let mut operator_index_list: Vec<usize> = Vec::new();
    let mut i: usize = 0;
    while i < count
        invariant
            reader.wf(),
            reader.bits() == bits,
            count == stream_pixel_count(bits) - 2,
            w == stream_index_width(bits),
            index_width == w,
            nothing_decodable(bits),
            i <= count,
            reader.pos() == 120 + i * w,
            operator_index_list@.len() == i,
            forall|k: int|
                0 <= k < i ==> #[trigger] operator_index_list@[k] == stream_index(bits, w, k),
        decreases count - i,
    {
        proof {
            assert((i + 1) * w <= count * w) by (nonlinear_arith)
                requires
                    i + 1 <= count,
            ;
            assert((i + 1) * w == i * w + w) by (nonlinear_arith);
        }
        let index = reader.read_msb(index_width).unwrap() as usize;
        operator_index_list.push(index);
        i = i + 1;
    }
    OperatorIndexImage::new(first_pixel, second_pixel, operator_index_list)
}

/// Decoding what `encode` wrote, whatever the padding, gives back the image:
/// the stream is decodable, and its header, pixels and indices are the image's.
pub proof fn lemma_nothing_round_trip(first: Color, second: Color, ops: Seq<usize>, pad: nat)
    requires
        valid_operator_indices(ops),
        ops.len() + 2 <= usize::MAX,
    ensures
        ({
            let bits = nothing_bits(first, second, ops) + zeros(pad);
            &&& nothing_decodable(bits)
            &&& stream_pixel_count(bits) == ops.len() + 2
            &&& stream_index_width(bits) == nothing_index_width()
            &&& color_from_bits(bits.subrange(72, 96)) == first
            &&& color_from_bits(bits.subrange(96, 120)) == second
            &&& forall|k: int|
                0 <= k < ops.len() ==> #[trigger] stream_index(bits, nothing_index_width(), k)
                    == ops[k]
        }),
{
    let bits = nothing_bits(first, second, ops) + zeros(pad);
    let pc = (ops.len() + 2) as nat;
    lemma2_to64();
    lemma_bits_of_len(pc % 0x1_0000_0000, 32);
    lemma_bits_of_len(pc / 0x1_0000_0000, 32);
    lemma_bits_of_len(7, 8);
    lemma_color_bits_round_trip(first);
    lemma_color_bits_round_trip(second);
    lemma_index_bits(ops, 7);
    assert(bits.subrange(0, 32) =~= bits_of(pc % 0x1_0000_0000, 32));
    assert(bits.subrange(32, 64) =~= bits_of(pc / 0x1_0000_0000, 32));
    assert(bits.subrange(64, 72) =~= bits_of(7, 8));
    assert(bits.subrange(72, 96) =~= color_bits(first));
    assert(bits.subrange(96, 120) =~= color_bits(second));
    lemma_bits_value_of(pc % 0x1_0000_0000, 32);
    lemma_bits_value_of(pc / 0x1_0000_0000, 32);
    lemma_bits_value_of(7, 8);
    assert(pc < 0x1_0000_0000_0000_0000);
    assert((pc / 0x1_0000_0000) % 0x1_0000_0000 == pc / 0x1_0000_0000);
    assert((pc % 0x1_0000_0000) + (pc / 0x1_0000_0000) * 0x1_0000_0000 == pc);
    assert forall|k: int| 0 <= k < ops.len() implies #[trigger] stream_index(bits, 7, k)
        == ops[k] by {
        assert(k * 7 + 7 <= ops.len() * 7);
        assert(bits.subrange(120 + k * 7, 120 + k * 7 + 7) =~= index_bits(ops, 7).subrange(
            k * 7,
            k * 7 + 7,
        ));
        lemma_bits_value_of(ops[k] as nat, 7);
        assert(ops[k] < OPERATOR_COUNT);
    }
}

} // verus!
