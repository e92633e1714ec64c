//! Colours and their bit representation.

use vstd::prelude::*;
use crate::bits::{bits_of, bits_value, lemma_bits_of_len, lemma_bits_value_of,
    lemma_bits_value_bound};
use crate::bitstream::{BitRead, BitReader, BitWrite, BitWriter};

pub mod operator;
pub mod operator_table;

verus! {

#[derive(Clone, Copy, Debug, PartialEq, Eq, Structural)]
pub struct Color {
    pub r: u8,
    pub g: u8,
    pub b: u8,
}

/// The squared Euclidean distance between two colours.
pub open spec fn spec_distance(a: Color, b: Color) -> int {
    (a.r - b.r) * (a.r - b.r) + (a.g - b.g) * (a.g - b.g) + (a.b - b.b) * (a.b - b.b)
}

/// The 24 bits of a colour: red, green, blue, each most significant bit first.
pub open spec fn color_bits(c: Color) -> Seq<bool> {
    bits_of(c.r as nat, 8) + bits_of(c.g as nat, 8) + bits_of(c.b as nat, 8)
}

/// The colour spelled by the first 24 bits of `bits`.
pub open spec fn color_from_bits(bits: Seq<bool>) -> Color {
    Color {
        r: bits_value(bits.subrange(0, 8)) as u8,
        g: bits_value(bits.subrange(8, 16)) as u8,
        b: bits_value(bits.subrange(16, 24)) as u8,
    }
}

/// Reading a colour's bits gives the colour back.
pub proof fn lemma_color_bits_round_trip(c: Color)
    ensures
        color_from_bits(color_bits(c)) == c,
        color_bits(c).len() == 24,
{
    lemma_bits_of_len(c.r as nat, 8);
    lemma_bits_of_len(c.g as nat, 8);
    lemma_bits_of_len(c.b as nat, 8);
    let s = color_bits(c);
    assert(s.subrange(0, 8) =~= bits_of(c.r as nat, 8));
    assert(s.subrange(8, 16) =~= bits_of(c.g as nat, 8));
    assert(s.subrange(16, 24) =~= bits_of(c.b as nat, 8));
    lemma_bits_value_of(c.r as nat, 8);
    lemma_bits_value_of(c.g as nat, 8);
    lemma_bits_value_of(c.b as nat, 8);
    vstd::arithmetic::power2::lemma2_to64();
}

impl Color {
    /// Colour distance: the squared Euclidean distance of the channels.
    pub fn distance(&self, other: &Self) -> (d: u32)
        ensures
            d as int == spec_distance(*self, *other),
    {
        let dr = self.r as i32 - other.r as i32;
        let dg = self.g as i32 - other.g as i32;
        let db = self.b as i32 - other.b as i32;
        assert(dr * dr <= 65025 && dg * dg <= 65025 && db * db <= 65025) by (nonlinear_arith)
            requires
                -255 <= dr <= 255,
                -255 <= dg <= 255,
                -255 <= db <= 255,
        ;
        assert(dr * dr >= 0 && dg * dg >= 0 && db * db >= 0) by (nonlinear_arith);
        (dr * dr + dg * dg + db * db) as u32
    }
}

impl BitWrite for Color {
    open spec fn bit_repr(&self) -> Seq<bool> {
        color_bits(*self)
    }

    fn bit_write_msb(&self, writer: &mut BitWriter) {
        writer.write_msb(self.r as u32, 8);
        writer.write_msb(self.g as u32, 8);
        writer.write_msb(self.b as u32, 8);
        assert(writer@ =~= old(writer)@ + color_bits(*self));
    }
}

impl BitRead for Color {
    open spec fn bit_width() -> nat {
        24
    }

    open spec fn from_bit_repr(bits: Seq<bool>) -> Self {
        color_from_bits(bits)
    }

    fn bit_read_msb(reader: &mut BitReader) -> (c: Self) {
        let ghost p = reader.pos() as int;
        let ghost bits = reader.bits();
        let r = reader.read_msb(8).unwrap();
        let g = reader.read_msb(8).unwrap();
        let b = reader.read_msb(8).unwrap();
        proof {
            let s = bits.subrange(p, p + 24);
            assert(s.subrange(0, 8) =~= bits.subrange(p, p + 8));
            assert(s.subrange(8, 16) =~= bits.subrange(p + 8, p + 16));
            assert(s.subrange(16, 24) =~= bits.subrange(p + 16, p + 24));
            lemma_bits_value_bound(bits.subrange(p, p + 8));
            lemma_bits_value_bound(bits.subrange(p + 8, p + 16));
            lemma_bits_value_bound(bits.subrange(p + 16, p + 24));
            vstd::arithmetic::power2::lemma2_to64();
        }
        Color { r: r as u8, g: g as u8, b: b as u8 }
    }
}

} // verus!
