//! The colour operators: each predicts a colour from two earlier ones, the
//! `base` (two pixels back) and the `input` (the pixel just before).

use vstd::prelude::*;
use vstd::arithmetic::power2::{pow2, lemma2_to64};
use vstd::bits::{lemma_u8_shr_is_div, lemma_u32_shl_is_mul, lemma_u16_shr_is_div};
use crate::color::Color;

verus! {

/// `x + y` modulo 256.
pub open spec fn wrapping_add8(x: u8, y: u8) -> u8 {
    ((x + y) % 256) as u8
}

/// `x - y` modulo 256.
pub open spec fn wrapping_sub8(x: u8, y: u8) -> u8 {
    ((x - y) % 256) as u8
}

/// `x + y`, at most 255.
pub open spec fn saturating_add8(x: u8, y: u8) -> u8 {
    if x + y > 255 {
        255
    } else {
        (x + y) as u8
    }
}

/// `x - y`, at least 0.
pub open spec fn saturating_sub8(x: u8, y: u8) -> u8 {
    if x < y {
        0
    } else {
        (x - y) as u8
    }
}

pub open spec fn abs_diff8(x: u8, y: u8) -> u8 {
    if x < y {
        (y - x) as u8
    } else {
        (x - y) as u8
    }
}

pub open spec fn max8(x: u8, y: u8) -> u8 {
    if x < y {
        y
    } else {
        x
    }
}

pub open spec fn min8(x: u8, y: u8) -> u8 {
    if x < y {
        x
    } else {
        y
    }
}

pub open spec fn min_int(x: int, y: int) -> int {
    if x < y {
        x
    } else {
        y
    }
}

/// `x * 2^k` modulo 256.
pub open spec fn shl8(x: u8, k: nat) -> u8 {
    ((x * pow2(k)) % 256) as u8
}

/// 255 above 128, else 0.
pub open spec fn threshold8(x: u8) -> u8 {
    if x > 128 {
        255
    } else {
        0
    }
}

/// The mean of a colour's three channels, rounded down.
pub open spec fn luma3(c: Color) -> u8 {
    ((c.r + c.g + c.b) / 3) as u8
}

/// The BT.709-weighted brightness of a colour, rounded down.
pub open spec fn luma709(c: Color) -> u8 {
    ((21 * c.r + 72 * c.g + 7 * c.b) / 100) as u8
}

/// Overlay blend of one channel, switching on the base.
pub open spec fn overlay8(x: u8, y: u8) -> u8 {
    if x < 128 {
        ((2 * x * y) / 255) as u8
    } else {
        (255 - (2 * (255 - x) * (255 - y)) / 255) as u8
    }
}

/// Hard light blend of one channel, switching on the input.
pub open spec fn hard_light8(x: u8, y: u8) -> u8 {
    if y < 128 {
        ((2 * x * y) / 255) as u8
    } else {
        (255 - (2 * (255 - x) * (255 - y)) / 255) as u8
    }
}

/// The squared difference of one channel divided by 16, at most 255.
pub open spec fn sq_diff8(x: u8, y: u8) -> u8 {
    min_int((abs_diff8(x, y) * abs_diff8(x, y)) / 16, 255) as u8
}

/// Colour dodge of one channel, at most 255.
pub open spec fn color_dodge8(x: u8, y: u8) -> u8 {
    if y == 255 {
        255
    } else {
        min_int((x * 255) / (255 - y), 255) as u8
    }
}

/// Colour burn of one channel, at least 0.
pub open spec fn color_burn8(x: u8, y: u8) -> u8 {
    if y == 0 {
        0
    } else {
        (255 - min_int(((255 - x) * 255) / (y as int), 255)) as u8
    }
}

/// Linear light of one channel: `x + y - 128`, clamped to 0..=255.
pub open spec fn linear_light8(x: u8, y: u8) -> u8 {
    if x + y < 128 {
        0
    } else {
        min_int(x + y - 128, 255) as u8
    }
}

/// A channel pushed 64 away from the middle, clamped to 0..=255.
pub open spec fn contrast8(x: u8) -> u8 {
    if x < 128 {
        saturating_sub8(x, 64)
    } else {
        saturating_add8(x, 64)
    }
}

proof fn lemma_product_bound(x: int, y: int)
    requires
        0 <= x <= 255,
        0 <= y <= 255,
    ensures
        0 <= x * y <= 65025,
{
    assert(0 <= x * y <= 65025) by (nonlinear_arith)
        requires
            0 <= x <= 255,
            0 <= y <= 255,
    ;
}

proof fn lemma_wrapping8(x: u8, y: u8)
    ensures
        x.wrapping_add(y) == wrapping_add8(x, y),
        x.wrapping_sub(y) == wrapping_sub8(x, y),
        x.wrapping_mul(2) == ((2 * x) % 256) as u8,
{
}

proof fn lemma_u8_not(x: u8)
    ensures
        !x == (255 - x) as u8,
{
    assert(!x == (255 - x) as u8) by (bit_vector);
}

proof fn lemma_u16_not_low(x: u16)
    requires
        x <= 255,
    ensures
        (!x) as u8 == (255 - x) as u8,
{
    assert(x <= 255 ==> (!x) as u8 == (255 - x) as u8) by (bit_vector);
}

proof fn lemma_u8_shl1(x: u8)
    ensures
        x << 1 == ((2 * x) % 256) as u8,
{
    assert(x << 1 == ((2 * x) % 256) as u8) by (bit_vector);
}

proof fn lemma_u8_shr1(x: u8)
    ensures
        x >> 1 == (x / 2) as u8,
{
    assert(x >> 1 == x / 2) by (bit_vector);
}

proof fn lemma_u8_shl(x: u8, k: u32)
    requires
        k < 8,
    ensures
        x << (k % 8) == shl8(x, k as nat),
{
    assert(k < 8 ==> (x << (k % 8)) as u32 == ((x as u32) << k) % 256) by (bit_vector);
    lemma2_to64();
    vstd::arithmetic::power2::lemma_pow2_adds(k as nat, (8 - k) as nat);
    vstd::arithmetic::power2::lemma_pow2_pos((8 - k) as nat);
    assert(x * pow2(k as nat) <= u32::MAX) by (nonlinear_arith)
        requires
            x <= 255,
            pow2(8) == pow2(k as nat) * pow2((8 - k) as nat),
            pow2(8) == 256,
            pow2((8 - k) as nat) >= 1,
    ;
    lemma_u32_shl_is_mul(x as u32, k);
}

proof fn lemma_u8_shr(x: u8, k: u32)
    requires
        k < 8,
    ensures
        x >> (k % 8) == (x as nat / pow2(k as nat)) as u8,
{
    assert(k < 8 ==> x >> (k % 8) == x >> (k as u8)) by (bit_vector);
    lemma_u8_shr_is_div(x, k as u8);
}

fn u8_max(x: u8, y: u8) -> (m: u8)
    ensures
        m == max8(x, y),
{
    if x < y {
        y
    } else {
        x
    }
}

fn u8_min(x: u8, y: u8) -> (m: u8)
    ensures
        m == min8(x, y),
{
    if x < y {
        x
    } else {
        y
    }
}

fn u32_min(x: u32, y: u32) -> (m: u32)
    ensures
        m == min_int(x as int, y as int),
{
    if x < y {
        x
    } else {
        y
    }
}

fn u16_min(x: u16, y: u16) -> (m: u16)
    ensures
        m == min_int(x as int, y as int),
{
    if x < y {
        x
    } else {
        y
    }
}

fn u8_abs_diff(x: u8, y: u8) -> (d: u8)
    ensures
        d == abs_diff8(x, y),
{
    if x < y {
        y - x
    } else {
        x - y
    }
}

fn u8_rotate_left1(x: u8) -> (y: u8)
    ensures
        y == ((2 * x) % 256 + x / 128) as u8,
{
    assert(((x << 1u8) | (x >> 7u8)) == ((2 * x) % 256 + x / 128) as u8) by (bit_vector);
    (x << 1u8) | (x >> 7u8)
}

fn u8_rotate_right1(x: u8) -> (y: u8)
    ensures
        y == (x / 2 + (x % 2) * 128) as u8,
{
    assert(((x >> 1u8) | (x << 7u8)) == (x / 2 + (x % 2) * 128) as u8) by (bit_vector);
    (x >> 1u8) | (x << 7u8)
}

fn overlay_channel(bs: u8, in_c: u8) -> (v: u8)
    ensures
        v == overlay8(bs, in_c),
{
    if bs < 128 {
        assert(2 * bs * in_c <= 2 * 127 * 255) by (nonlinear_arith)
            requires
                bs < 128,
                in_c <= 255,
        ;
        ((2 * bs as u16 * in_c as u16) / 255) as u8
    } else {
        assert(2 * (255 - bs) * (255 - in_c) <= 2 * 127 * 255) by (nonlinear_arith)
            requires
                128 <= bs <= 255,
                in_c <= 255,
        ;
        255 - ((2 * (255 - bs as u16) * (255 - in_c as u16)) / 255) as u8
    }
}

fn hard_light_channel(bs: u8, in_c: u8) -> (v: u8)
    ensures
        v == hard_light8(bs, in_c),
{
    if in_c < 128 {
        assert(2 * bs * in_c <= 2 * 255 * 127) by (nonlinear_arith)
            requires
                in_c < 128,
                bs <= 255,
        ;
        ((2 * bs as u16 * in_c as u16) / 255) as u8
    } else {
        assert(2 * (255 - bs) * (255 - in_c) <= 2 * 255 * 127) by (nonlinear_arith)
            requires
                128 <= in_c <= 255,
                bs <= 255,
        ;
        255 - ((2 * (255 - bs as u16) * (255 - in_c as u16)) / 255) as u8
    }
}

fn sq_diff_channel(v1: u8, v2: u8) -> (v: u8)
    ensures
        v == sq_diff8(v1, v2),
{
    let d = u8_abs_diff(v1, v2) as u16;
    assert(d * d <= 255 * 255) by (nonlinear_arith)
        requires
            d <= 255,
    ;
    proof {
        lemma_u16_shr_is_div((d * d) as u16, 4);
        lemma2_to64();
    }
    u16_min((d * d) >> 4, 255) as u8
}

fn color_dodge_channel(bs: u8, in_c: u8) -> (v: u8)
    ensures
        v == color_dodge8(bs, in_c),
{
    if in_c == 255 {
        255
    } else {
        u16_min((bs as u16 * 255) / (255 - in_c as u16), 255) as u8
    }
}

fn color_burn_channel(bs: u8, in_c: u8) -> (v: u8)
    ensures
        v == color_burn8(bs, in_c),
{
    if in_c == 0 {
        0
    } else {
        255 - u16_min((255 - bs as u16) * 255 / in_c as u16, 255) as u8
    }
}

fn linear_light_channel(bs: u8, in_c: u8) -> (v: u8)
    ensures
        v == linear_light8(bs, in_c),
{
    u16_min((bs as u16).saturating_add(in_c as u16).saturating_sub(128), 255) as u8
}

fn contrast_channel(v: u8) -> (w: u8)
    ensures
        w == contrast8(v),
{
    if v < 128 {
        v.saturating_sub(64)
    } else {
        v.saturating_add(64)
    }
}

/// Channel-wise sum modulo 256.
pub open spec fn spec_add_rgb(b: Color, i: Color) -> Color {
    Color { r: wrapping_add8(b.r, i.r), g: wrapping_add8(b.g, i.g), b: wrapping_add8(b.b, i.b) }
}

fn add_rgb(b: Color, i: Color) -> (c: Color)
    ensures
        c == spec_add_rgb(b, i),
{
        Color {
            r: b.r.wrapping_add(i.r),
            g: b.g.wrapping_add(i.g),
            b: b.b.wrapping_add(i.b),
        }
}

/// Channel-wise difference base minus input, modulo 256.
pub open spec fn spec_sub_rgb(b: Color, i: Color) -> Color {
    Color { r: wrapping_sub8(b.r, i.r), g: wrapping_sub8(b.g, i.g), b: wrapping_sub8(b.b, i.b) }
}

fn sub_rgb(b: Color, i: Color) -> (c: Color)
    ensures
        c == spec_sub_rgb(b, i),
{
        Color {
            r: b.r.wrapping_sub(i.r),
            g: b.g.wrapping_sub(i.g),
            b: b.b.wrapping_sub(i.b),
        }
}

/// Channel-wise difference input minus base, modulo 256.
pub open spec fn spec_reverse_sub_rgb(b: Color, i: Color) -> Color {
    Color { r: wrapping_sub8(i.r, b.r), g: wrapping_sub8(i.g, b.g), b: wrapping_sub8(i.b, b.b) }
}

fn reverse_sub_rgb(b: Color, i: Color) -> (c: Color)
    ensures
        c == spec_reverse_sub_rgb(b, i),
{
        Color {
            r: i.r.wrapping_sub(b.r),
            g: i.g.wrapping_sub(b.g),
            b: i.b.wrapping_sub(b.b),
        }
}

/// The base with the input added to its red channel.
pub open spec fn spec_base_add_only_r(b: Color, i: Color) -> Color {
    Color { r: wrapping_add8(b.r, i.r), g: b.g, b: b.b }
}

fn base_add_only_r(b: Color, i: Color) -> (c: Color)
    ensures
        c == spec_base_add_only_r(b, i),
{
        Color {
            r: b.r.wrapping_add(i.r),
            g: b.g,
            b: b.b,
        }
}

/// The input with the base added to its red channel.
pub open spec fn spec_input_add_only_r(b: Color, i: Color) -> Color {
    Color { r: wrapping_add8(b.r, i.r), g: i.g, b: i.b }
}

fn input_add_only_r(b: Color, i: Color) -> (c: Color)
    ensures
        c == spec_input_add_only_r(b, i),
{
        Color {
            r: b.r.wrapping_add(i.r),
            g: i.g,
            b: i.b,
        }
}

/// The base unchanged.
pub open spec fn spec_pass_base(b: Color, i: Color) -> Color {
    Color { r: b.r, g: b.g, b: b.b }
}

fn pass_base(b: Color, i: Color) -> (c: Color)
    ensures
        c == spec_pass_base(b, i),
{
        b
}

/// The input unchanged.
pub open spec fn spec_pass_input(b: Color, i: Color) -> Color {
    Color { r: i.r, g: i.g, b: i.b }
}

fn pass_input(b: Color, i: Color) -> (c: Color)
    ensures
        c == spec_pass_input(b, i),
{
        i
}

/// Channel-wise maximum.
pub open spec fn spec_max_rgb(b: Color, i: Color) -> Color {
    Color { r: max8(b.r, i.r), g: max8(b.g, i.g), b: max8(b.b, i.b) }
}

fn max_rgb(b: Color, i: Color) -> (c: Color)
    ensures
        c == spec_max_rgb(b, i),
{
        Color {
            r: u8_max(b.r, i.r),
            g: u8_max(b.g, i.g),
            b: u8_max(b.b, i.b),
        }
}

/// Channel-wise minimum.
pub open spec fn spec_min_rgb(b: Color, i: Color) -> Color {
    Color { r: min8(b.r, i.r), g: min8(b.g, i.g), b: min8(b.b, i.b) }
}

fn min_rgb(b: Color, i: Color) -> (c: Color)
    ensures
        c == spec_min_rgb(b, i),
{
        Color {
            r: u8_min(b.r, i.r),
            g: u8_min(b.g, i.g),
            b: u8_min(b.b, i.b),
        }
}

/// Channel-wise mean, rounded down.
pub open spec fn spec_average_rgb(b: Color, i: Color) -> Color {
    Color { r: ((b.r + i.r) / 2) as u8, g: ((b.g + i.g) / 2) as u8, b: ((b.b + i.b) / 2) as u8 }
}

fn average_rgb(b: Color, i: Color) -> (c: Color)
    ensures
        c == spec_average_rgb(b, i),
{
        Color {
            r: ((b.r as u16 + i.r as u16) / 2) as u8,
            g: ((b.g as u16 + i.g as u16) / 2) as u8,
            b: ((b.b as u16 + i.b as u16) / 2) as u8,
        }
}

/// Channel-wise mean weighted 3:1 towards the base.
pub open spec fn spec_avg_base_heavy(b: Color, i: Color) -> Color {
    Color { r: ((3 * b.r + i.r) / 4) as u8, g: ((3 * b.g + i.g) / 4) as u8, b: ((3 * b.b + i.b) / 4) as u8 }
}

fn avg_base_heavy(b: Color, i: Color) -> (c: Color)
    ensures
        c == spec_avg_base_heavy(b, i),
{
        Color {
            r: ((b.r as u16 * 3 + i.r as u16) / 4) as u8,
            g: ((b.g as u16 * 3 + i.g as u16) / 4) as u8,
            b: ((b.b as u16 * 3 + i.b as u16) / 4) as u8,
        }
}

/// Channel-wise mean weighted 1:3 towards the input.
pub open spec fn spec_avg_input_heavy(b: Color, i: Color) -> Color {
    Color { r: ((b.r + 3 * i.r) / 4) as u8, g: ((b.g + 3 * i.g) / 4) as u8, b: ((b.b + 3 * i.b) / 4) as u8 }
}

fn avg_input_heavy(b: Color, i: Color) -> (c: Color)
    ensures
        c == spec_avg_input_heavy(b, i),
{
        Color {
            r: ((b.r as u16 + i.r as u16 * 3) / 4) as u8,
            g: ((b.g as u16 + i.g as u16 * 3) / 4) as u8,
            b: ((b.b as u16 + i.b as u16 * 3) / 4) as u8,
        }
}

/// Extrapolates the step from input to base one step further, modulo 256.
pub open spec fn spec_linear_extrapolate(b: Color, i: Color) -> Color {
    Color { r: wrapping_add8(b.r, wrapping_sub8(b.r, i.r)), g: wrapping_add8(b.g, wrapping_sub8(b.g, i.g)), b: wrapping_add8(b.b, wrapping_sub8(b.b, i.b)) }
}

fn linear_extrapolate(b: Color, i: Color) -> (c: Color)
    ensures
        c == spec_linear_extrapolate(b, i),
{
        proof {
            lemma_wrapping8(b.r, i.r);
            lemma_wrapping8(b.g, i.g);
            lemma_wrapping8(b.b, i.b);
            lemma_wrapping8(b.r, b.r.wrapping_sub(i.r));
            lemma_wrapping8(b.g, b.g.wrapping_sub(i.g));
            lemma_wrapping8(b.b, b.b.wrapping_sub(i.b));
        }
        Color {
            r: b.r.wrapping_add(b.r.wrapping_sub(i.r)),
            g: b.g.wrapping_add(b.g.wrapping_sub(i.g)),
            b: b.b.wrapping_add(b.b.wrapping_sub(i.b)),
        }
}

/// Channel-wise sum, clamped at 255.
pub open spec fn spec_sat_add_rgb(b: Color, i: Color) -> Color {
    Color { r: saturating_add8(b.r, i.r), g: saturating_add8(b.g, i.g), b: saturating_add8(b.b, i.b) }
}

fn sat_add_rgb(b: Color, i: Color) -> (c: Color)
    ensures
        c == spec_sat_add_rgb(b, i),
{
        Color {
            r: b.r.saturating_add(i.r),
            g: b.g.saturating_add(i.g),
            b: b.b.saturating_add(i.b),
        }
}

/// Channel-wise difference, clamped at 0.
pub open spec fn spec_sat_sub_rgb(b: Color, i: Color) -> Color {
    Color { r: saturating_sub8(b.r, i.r), g: saturating_sub8(b.g, i.g), b: saturating_sub8(b.b, i.b) }
}

fn sat_sub_rgb(b: Color, i: Color) -> (c: Color)
    ensures
        c == spec_sat_sub_rgb(b, i),
{
        Color {
            r: b.r.saturating_sub(i.r),
            g: b.g.saturating_sub(i.g),
            b: b.b.saturating_sub(i.b),
        }
}

/// Channel-wise absolute difference.
pub open spec fn spec_abs_diff_rgb(b: Color, i: Color) -> Color {
    Color { r: abs_diff8(b.r, i.r), g: abs_diff8(b.g, i.g), b: abs_diff8(b.b, i.b) }
}

fn abs_diff_rgb(b: Color, i: Color) -> (c: Color)
    ensures
        c == spec_abs_diff_rgb(b, i),
{
        Color {
            r: u8_abs_diff(b.r, i.r),
            g: u8_abs_diff(b.g, i.g),
            b: u8_abs_diff(b.b, i.b),
        }
}

/// The complement of the base.
pub open spec fn spec_invert_base(b: Color, i: Color) -> Color {
    Color { r: (255 - b.r) as u8, g: (255 - b.g) as u8, b: (255 - b.b) as u8 }
}

fn invert_base(b: Color, i: Color) -> (c: Color)
    ensures
        c == spec_invert_base(b, i),
{
        proof {
            lemma_u8_not(b.r);
            lemma_u8_not(b.g);
            lemma_u8_not(b.b);
        }
        Color {
            r: !b.r,
            g: !b.g,
            b: !b.b,
        }
}

/// The complement of the input.
pub open spec fn spec_invert_input(b: Color, i: Color) -> Color {
    Color { r: (255 - i.r) as u8, g: (255 - i.g) as u8, b: (255 - i.b) as u8 }
}

fn invert_input(b: Color, i: Color) -> (c: Color)
    ensures
        c == spec_invert_input(b, i),
{
        proof {
            lemma_u8_not(i.r);
            lemma_u8_not(i.g);
            lemma_u8_not(i.b);
        }
        Color {
            r: !i.r,
            g: !i.g,
            b: !i.b,
        }
}

/// The complement of the channel-wise mean.
pub open spec fn spec_invert_average(b: Color, i: Color) -> Color {
    Color { r: (255 - (b.r + i.r) / 2) as u8, g: (255 - (b.g + i.g) / 2) as u8, b: (255 - (b.b + i.b) / 2) as u8 }
}

fn invert_average(b: Color, i: Color) -> (c: Color)
    ensures
        c == spec_invert_average(b, i),
{
        proof {
            lemma_u16_not_low(((b.r as u16 + i.r as u16) / 2) as u16);
            lemma_u16_not_low(((b.g as u16 + i.g as u16) / 2) as u16);
            lemma_u16_not_low(((b.b as u16 + i.b as u16) / 2) as u16);
        }
        Color {
            r: !((b.r as u16 + i.r as u16) / 2) as u8,
            g: !((b.g as u16 + i.g as u16) / 2) as u8,
            b: !((b.b as u16 + i.b as u16) / 2) as u8,
        }
}

/// Channel-wise exclusive or.
pub open spec fn spec_xor_rgb(b: Color, i: Color) -> Color {
    Color { r: b.r ^ i.r, g: b.g ^ i.g, b: b.b ^ i.b }
}

fn xor_rgb(b: Color, i: Color) -> (c: Color)
    ensures
        c == spec_xor_rgb(b, i),
{
        Color {
            r: b.r ^ i.r,
            g: b.g ^ i.g,
            b: b.b ^ i.b,
        }
}

/// Channel-wise bitwise and.
pub open spec fn spec_and_rgb(b: Color, i: Color) -> Color {
    Color { r: b.r & i.r, g: b.g & i.g, b: b.b & i.b }
}

fn and_rgb(b: Color, i: Color) -> (c: Color)
    ensures
        c == spec_and_rgb(b, i),
{
        Color {
            r: b.r & i.r,
            g: b.g & i.g,
            b: b.b & i.b,
        }
}

/// Channel-wise bitwise or.
pub open spec fn spec_or_rgb(b: Color, i: Color) -> Color {
    Color { r: b.r | i.r, g: b.g | i.g, b: b.b | i.b }
}

fn or_rgb(b: Color, i: Color) -> (c: Color)
    ensures
        c == spec_or_rgb(b, i),
{
        Color {
            r: b.r | i.r,
            g: b.g | i.g,
            b: b.b | i.b,
        }
}

/// Channel-wise complement of the bitwise and.
pub open spec fn spec_nand_rgb(b: Color, i: Color) -> Color {
    Color { r: (255 - (b.r & i.r)) as u8, g: (255 - (b.g & i.g)) as u8, b: (255 - (b.b & i.b)) as u8 }
}

fn nand_rgb(b: Color, i: Color) -> (c: Color)
    ensures
        c == spec_nand_rgb(b, i),
{
        proof {
            lemma_u8_not(b.r & i.r);
            lemma_u8_not(b.g & i.g);
            lemma_u8_not(b.b & i.b);
        }
        Color {
            r: !(b.r & i.r),
            g: !(b.g & i.g),
            b: !(b.b & i.b),
        }
}

/// Channel-wise complement of the bitwise or.
pub open spec fn spec_nor_rgb(b: Color, i: Color) -> Color {
    Color { r: (255 - (b.r | i.r)) as u8, g: (255 - (b.g | i.g)) as u8, b: (255 - (b.b | i.b)) as u8 }
}

fn nor_rgb(b: Color, i: Color) -> (c: Color)
    ensures
        c == spec_nor_rgb(b, i),
{
        proof {
            lemma_u8_not(b.r | i.r);
            lemma_u8_not(b.g | i.g);
            lemma_u8_not(b.b | i.b);
        }
        Color {
            r: !(b.r | i.r),
            g: !(b.g | i.g),
            b: !(b.b | i.b),
        }
}

/// Channel-wise complement of the exclusive or.
pub open spec fn spec_xnor_rgb(b: Color, i: Color) -> Color {
    Color { r: (255 - (b.r ^ i.r)) as u8, g: (255 - (b.g ^ i.g)) as u8, b: (255 - (b.b ^ i.b)) as u8 }
}

fn xnor_rgb(b: Color, i: Color) -> (c: Color)
    ensures
        c == spec_xnor_rgb(b, i),
{
        proof {
            lemma_u8_not(b.r ^ i.r);
            lemma_u8_not(b.g ^ i.g);
            lemma_u8_not(b.b ^ i.b);
        }
        Color {
            r: !(b.r ^ i.r),
            g: !(b.g ^ i.g),
            b: !(b.b ^ i.b),
        }
}

/// The base with green and blue swapped.
pub open spec fn spec_swap_gb_base(b: Color, i: Color) -> Color {
    Color { r: b.r, g: b.b, b: b.g }
}

fn swap_gb_base(b: Color, i: Color) -> (c: Color)
    ensures
        c == spec_swap_gb_base(b, i),
{
        Color {
            r: b.r,
            g: b.b,
            b: b.g,
        }
}

/// The base with red and blue swapped.
pub open spec fn spec_swap_rb_base(b: Color, i: Color) -> Color {
    Color { r: b.b, g: b.g, b: b.r }
}

fn swap_rb_base(b: Color, i: Color) -> (c: Color)
    ensures
        c == spec_swap_rb_base(b, i),
{
        Color {
            r: b.b,
            g: b.g,
            b: b.r,
        }
}

/// The base with red and green swapped.
pub open spec fn spec_swap_rg_base(b: Color, i: Color) -> Color {
    Color { r: b.g, g: b.r, b: b.b }
}

fn swap_rg_base(b: Color, i: Color) -> (c: Color)
    ensures
        c == spec_swap_rg_base(b, i),
{
        Color {
            r: b.g,
            g: b.r,
            b: b.b,
        }
}

/// The base with its channels rotated (blue, red, green).
pub open spec fn spec_shift_rgb_base(b: Color, i: Color) -> Color {
    Color { r: b.b, g: b.r, b: b.g }
}

fn shift_rgb_base(b: Color, i: Color) -> (c: Color)
    ensures
        c == spec_shift_rgb_base(b, i),
{
        Color {
            r: b.b,
            g: b.r,
            b: b.g,
        }
}

/// The base with its channels rotated (green, blue, red).
pub open spec fn spec_shift_bgr_base(b: Color, i: Color) -> Color {
    Color { r: b.g, g: b.b, b: b.r }
}

fn shift_bgr_base(b: Color, i: Color) -> (c: Color)
    ensures
        c == spec_shift_bgr_base(b, i),
{
        Color {
            r: b.g,
            g: b.b,
            b: b.r,
        }
}

/// The input with green and blue swapped.
pub open spec fn spec_swap_gb_input(b: Color, i: Color) -> Color {
    Color { r: i.r, g: i.b, b: i.g }
}

fn swap_gb_input(b: Color, i: Color) -> (c: Color)
    ensures
        c == spec_swap_gb_input(b, i),
{
        Color {
            r: i.r,
            g: i.b,
            b: i.g,
        }
}

/// The input with red and blue swapped.
pub open spec fn spec_swap_rb_input(b: Color, i: Color) -> Color {
    Color { r: i.b, g: i.g, b: i.r }
}

fn swap_rb_input(b: Color, i: Color) -> (c: Color)
    ensures
        c == spec_swap_rb_input(b, i),
{
        Color {
            r: i.b,
            g: i.g,
            b: i.r,
        }
}

/// The input with red and green swapped.
pub open spec fn spec_swap_rg_input(b: Color, i: Color) -> Color {
    Color { r: i.g, g: i.r, b: i.b }
}

fn swap_rg_input(b: Color, i: Color) -> (c: Color)
    ensures
        c == spec_swap_rg_input(b, i),
{
        Color {
            r: i.g,
            g: i.r,
            b: i.b,
        }
}

/// The input with its channels rotated (blue, red, green).
pub open spec fn spec_shift_rgb_input(b: Color, i: Color) -> Color {
    Color { r: i.b, g: i.r, b: i.g }
}

fn shift_rgb_input(b: Color, i: Color) -> (c: Color)
    ensures
        c == spec_shift_rgb_input(b, i),
{
        Color {
            r: i.b,
            g: i.r,
            b: i.g,
        }
}

/// The input with its channels rotated (green, blue, red).
pub open spec fn spec_shift_bgr_input(b: Color, i: Color) -> Color {
    Color { r: i.g, g: i.b, b: i.r }
}

fn shift_bgr_input(b: Color, i: Color) -> (c: Color)
    ensures
        c == spec_shift_bgr_input(b, i),
{
        Color {
            r: i.g,
            g: i.b,
            b: i.r,
        }
}

/// Red from the base, green and blue from the input.
pub open spec fn spec_mix_r_base(b: Color, i: Color) -> Color {
    Color { r: b.r, g: i.g, b: i.b }
}

fn mix_r_base(b: Color, i: Color) -> (c: Color)
    ensures
        c == spec_mix_r_base(b, i),
{
        Color {
            r: b.r,
            g: i.g,
            b: i.b,
        }
}

/// Green from the base, red and blue from the input.
pub open spec fn spec_mix_g_base(b: Color, i: Color) -> Color {
    Color { r: i.r, g: b.g, b: i.b }
}

fn mix_g_base(b: Color, i: Color) -> (c: Color)
    ensures
        c == spec_mix_g_base(b, i),
{
        Color {
            r: i.r,
            g: b.g,
            b: i.b,
        }
}

/// Blue from the base, red and green from the input.
pub open spec fn spec_mix_b_base(b: Color, i: Color) -> Color {
    Color { r: i.r, g: i.g, b: b.b }
}

fn mix_b_base(b: Color, i: Color) -> (c: Color)
    ensures
        c == spec_mix_b_base(b, i),
{
        Color {
            r: i.r,
            g: i.g,
            b: b.b,
        }
}

/// Red and green from the base, blue from the input.
pub open spec fn spec_mix_rg_base(b: Color, i: Color) -> Color {
    Color { r: b.r, g: b.g, b: i.b }
}

fn mix_rg_base(b: Color, i: Color) -> (c: Color)
    ensures
        c == spec_mix_rg_base(b, i),
{
        Color {
            r: b.r,
            g: b.g,
            b: i.b,
        }
}

/// Green and blue from the base, red from the input.
pub open spec fn spec_mix_gb_base(b: Color, i: Color) -> Color {
    Color { r: i.r, g: b.g, b: b.b }
}

fn mix_gb_base(b: Color, i: Color) -> (c: Color)
    ensures
        c == spec_mix_gb_base(b, i),
{
        Color {
            r: i.r,
            g: b.g,
            b: b.b,
        }
}

/// Red and blue from the base, green from the input.
pub open spec fn spec_mix_rb_base(b: Color, i: Color) -> Color {
    Color { r: b.r, g: i.g, b: b.b }
}

fn mix_rb_base(b: Color, i: Color) -> (c: Color)
    ensures
        c == spec_mix_rb_base(b, i),
{
        Color {
            r: b.r,
            g: i.g,
            b: b.b,
        }
}

/// Multiply blend: the channel product scaled back to 0..=255.
pub open spec fn spec_multiply_blend(b: Color, i: Color) -> Color {
    Color { r: ((b.r * i.r) / 255) as u8, g: ((b.g * i.g) / 255) as u8, b: ((b.b * i.b) / 255) as u8 }
}

fn multiply_blend(b: Color, i: Color) -> (c: Color)
    ensures
        c == spec_multiply_blend(b, i),
{
        proof {
            lemma_product_bound(b.r as int, i.r as int);
            lemma_product_bound(b.g as int, i.g as int);
            lemma_product_bound(b.b as int, i.b as int);
        }
        Color {
            r: ((b.r as u16 * i.r as u16) / 255) as u8,
            g: ((b.g as u16 * i.g as u16) / 255) as u8,
            b: ((b.b as u16 * i.b as u16) / 255) as u8,
        }
}

/// Screen blend: the complement of the product of the complements.
pub open spec fn spec_screen_blend(b: Color, i: Color) -> Color {
    Color { r: (255 - ((255 - b.r) * (255 - i.r)) / 255) as u8, g: (255 - ((255 - b.g) * (255 - i.g)) / 255) as u8, b: (255 - ((255 - b.b) * (255 - i.b)) / 255) as u8 }
}

fn screen_blend(b: Color, i: Color) -> (c: Color)
    ensures
        c == spec_screen_blend(b, i),
{
        proof {
            lemma_product_bound(255 - b.r, 255 - i.r);
            lemma_product_bound(255 - b.g, 255 - i.g);
            lemma_product_bound(255 - b.b, 255 - i.b);
        }
        Color {
            r: 255 - (((255 - b.r as u16) * (255 - i.r as u16)) / 255) as u8,
            g: 255 - (((255 - b.g as u16) * (255 - i.g as u16)) / 255) as u8,
            b: 255 - (((255 - b.b as u16) * (255 - i.b as u16)) / 255) as u8,
        }
}

/// Overlay blend, switching on the base channel.
pub open spec fn spec_overlay_approx(b: Color, i: Color) -> Color {
    Color { r: overlay8(b.r, i.r), g: overlay8(b.g, i.g), b: overlay8(b.b, i.b) }
}

fn overlay_approx(b: Color, i: Color) -> (c: Color)
    ensures
        c == spec_overlay_approx(b, i),
{
        Color {
            r: overlay_channel(b.r, i.r),
            g: overlay_channel(b.g, i.g),
            b: overlay_channel(b.b, i.b),
        }
}

/// Difference blend: channel-wise absolute difference.
pub open spec fn spec_difference_blend(b: Color, i: Color) -> Color {
    Color { r: abs_diff8(b.r, i.r), g: abs_diff8(b.g, i.g), b: abs_diff8(b.b, i.b) }
}

fn difference_blend(b: Color, i: Color) -> (c: Color)
    ensures
        c == spec_difference_blend(b, i),
{
        Color {
            r: u8_abs_diff(b.r, i.r),
            g: u8_abs_diff(b.g, i.g),
            b: u8_abs_diff(b.b, i.b),
        }
}

/// Half the base plus the input, modulo 256.
pub open spec fn spec_half_base_add_input(b: Color, i: Color) -> Color {
    Color { r: wrapping_add8((b.r / 2) as u8, i.r), g: wrapping_add8((b.g / 2) as u8, i.g), b: wrapping_add8((b.b / 2) as u8, i.b) }
}

fn half_base_add_input(b: Color, i: Color) -> (c: Color)
    ensures
        c == spec_half_base_add_input(b, i),
{
        proof {
            lemma_u8_shr1(b.r);
            lemma_u8_shr1(b.g);
            lemma_u8_shr1(b.b);
        }
        Color {
            r: (b.r >> 1).wrapping_add(i.r),
            g: (b.g >> 1).wrapping_add(i.g),
            b: (b.b >> 1).wrapping_add(i.b),
        }
}

/// The base plus half the input, modulo 256.
pub open spec fn spec_half_input_add_base(b: Color, i: Color) -> Color {
    Color { r: wrapping_add8(b.r, (i.r / 2) as u8), g: wrapping_add8(b.g, (i.g / 2) as u8), b: wrapping_add8(b.b, (i.b / 2) as u8) }
}

fn half_input_add_base(b: Color, i: Color) -> (c: Color)
    ensures
        c == spec_half_input_add_base(b, i),
{
        proof {
            lemma_u8_shr1(i.r);
            lemma_u8_shr1(i.g);
            lemma_u8_shr1(i.b);
        }
        Color {
            r: b.r.wrapping_add(i.r >> 1),
            g: b.g.wrapping_add(i.g >> 1),
            b: b.b.wrapping_add(i.b >> 1),
        }
}

/// The base doubled, modulo 256.
pub open spec fn spec_bit_shift_left(b: Color, i: Color) -> Color {
    Color { r: ((2 * b.r) % 256) as u8, g: ((2 * b.g) % 256) as u8, b: ((2 * b.b) % 256) as u8 }
}

fn bit_shift_left(b: Color, i: Color) -> (c: Color)
    ensures
        c == spec_bit_shift_left(b, i),
{
        proof {
            lemma_u8_shl1(b.r);
            lemma_u8_shl1(b.g);
            lemma_u8_shl1(b.b);
        }
        Color {
            r: b.r << 1,
            g: b.g << 1,
            b: b.b << 1,
        }
}

/// The base halved, rounded down.
pub open spec fn spec_bit_shift_right(b: Color, i: Color) -> Color {
    Color { r: (b.r / 2) as u8, g: (b.g / 2) as u8, b: (b.b / 2) as u8 }
}

fn bit_shift_right(b: Color, i: Color) -> (c: Color)
    ensures
        c == spec_bit_shift_right(b, i),
{
        proof {
            lemma_u8_shr1(b.r);
            lemma_u8_shr1(b.g);
            lemma_u8_shr1(b.b);
        }
        Color {
            r: b.r >> 1,
            g: b.g >> 1,
            b: b.b >> 1,
        }
}

/// The base's mean brightness added to each input channel, clamped at 255.
pub open spec fn spec_base_luma_to_input(b: Color, i: Color) -> Color {
    Color { r: saturating_add8(luma3(b), i.r), g: saturating_add8(luma3(b), i.g), b: saturating_add8(luma3(b), i.b) }
}

fn base_luma_to_input(b: Color, i: Color) -> (c: Color)
    ensures
        c == spec_base_luma_to_input(b, i),
{
        let luma = ((b.r as u16 + b.g as u16 + b.b as u16) / 3) as u8;
        Color {
            r: u8_min(luma.saturating_add(i.r), 255),
            g: u8_min(luma.saturating_add(i.g), 255),
            b: u8_min(luma.saturating_add(i.b), 255),
        }
}

/// Input minus base, clamped at 0.
pub open spec fn spec_sat_reverse_sub(b: Color, i: Color) -> Color {
    Color { r: saturating_sub8(i.r, b.r), g: saturating_sub8(i.g, b.g), b: saturating_sub8(i.b, b.b) }
}

fn sat_reverse_sub(b: Color, i: Color) -> (c: Color)
    ensures
        c == spec_sat_reverse_sub(b, i),
{
        Color {
            r: i.r.saturating_sub(b.r),
            g: i.g.saturating_sub(b.g),
            b: i.b.saturating_sub(b.b),
        }
}

/// Half the base plus half the input, each rounded down.
pub open spec fn spec_add_half_half(b: Color, i: Color) -> Color {
    Color { r: (b.r / 2 + i.r / 2) as u8, g: (b.g / 2 + i.g / 2) as u8, b: (b.b / 2 + i.b / 2) as u8 }
}

fn add_half_half(b: Color, i: Color) -> (c: Color)
    ensures
        c == spec_add_half_half(b, i),
{
        proof {
            lemma_u8_shr1(b.r);
            lemma_u8_shr1(b.g);
            lemma_u8_shr1(b.b);
            lemma_u8_shr1(i.r);
            lemma_u8_shr1(i.g);
            lemma_u8_shr1(i.b);
        }
        Color {
            r: (b.r >> 1) + (i.r >> 1),
            g: (b.g >> 1) + (i.g >> 1),
            b: (b.b >> 1) + (i.b >> 1),
        }
}

/// Half the base minus half the input, modulo 256.
pub open spec fn spec_sub_half_half(b: Color, i: Color) -> Color {
    Color { r: wrapping_sub8((b.r / 2) as u8, (i.r / 2) as u8), g: wrapping_sub8((b.g / 2) as u8, (i.g / 2) as u8), b: wrapping_sub8((b.b / 2) as u8, (i.b / 2) as u8) }
}

fn sub_half_half(b: Color, i: Color) -> (c: Color)
    ensures
        c == spec_sub_half_half(b, i),
{
        proof {
            lemma_u8_shr1(b.r);
            lemma_u8_shr1(b.g);
            lemma_u8_shr1(b.b);
            lemma_u8_shr1(i.r);
            lemma_u8_shr1(i.g);
            lemma_u8_shr1(i.b);
        }
        Color {
            r: (b.r >> 1).wrapping_sub(i.r >> 1),
            g: (b.g >> 1).wrapping_sub(i.g >> 1),
            b: (b.b >> 1).wrapping_sub(i.b >> 1),
        }
}

/// Twice the multiply blend, clamped at 255.
pub open spec fn spec_sat_mult_2x(b: Color, i: Color) -> Color {
    Color { r: min_int((b.r * i.r * 2) / 255, 255) as u8, g: min_int((b.g * i.g * 2) / 255, 255) as u8, b: min_int((b.b * i.b * 2) / 255, 255) as u8 }
}

fn sat_mult_2x(b: Color, i: Color) -> (c: Color)
    ensures
        c == spec_sat_mult_2x(b, i),
{
        proof {
            lemma_product_bound(b.r as int, i.r as int);
            lemma_product_bound(b.g as int, i.g as int);
            lemma_product_bound(b.b as int, i.b as int);
        }
        Color {
            r: u32_min((b.r as u32 * i.r as u32 * 2) / 255, 255) as u8,
            g: u32_min((b.g as u32 * i.g as u32 * 2) / 255, 255) as u8,
            b: u32_min((b.b as u32 * i.b as u32 * 2) / 255, 255) as u8,
        }
}

/// The squared channel difference divided by 16, clamped at 255.
pub open spec fn spec_sq_diff(b: Color, i: Color) -> Color {
    Color { r: sq_diff8(b.r, i.r), g: sq_diff8(b.g, i.g), b: sq_diff8(b.b, i.b) }
}

fn sq_diff(b: Color, i: Color) -> (c: Color)
    ensures
        c == spec_sq_diff(b, i),
{
        Color {
            r: sq_diff_channel(b.r, i.r),
            g: sq_diff_channel(b.g, i.g),
            b: sq_diff_channel(b.b, i.b),
        }
}

/// Channel-wise mean weighted 7:1 towards the base.
pub open spec fn spec_weight_7_1(b: Color, i: Color) -> Color {
    Color { r: ((7 * b.r + 1 * i.r) / 8) as u8, g: ((7 * b.g + 1 * i.g) / 8) as u8, b: ((7 * b.b + 1 * i.b) / 8) as u8 }
}

fn weight_7_1(b: Color, i: Color) -> (c: Color)
    ensures
        c == spec_weight_7_1(b, i),
{
        Color {
            r: ((b.r as u16 * 7 + i.r as u16) / 8) as u8,
            g: ((b.g as u16 * 7 + i.g as u16) / 8) as u8,
            b: ((b.b as u16 * 7 + i.b as u16) / 8) as u8,
        }
}

/// Channel-wise mean weighted 1:7 towards the input.
pub open spec fn spec_weight_1_7(b: Color, i: Color) -> Color {
    Color { r: ((1 * b.r + 7 * i.r) / 8) as u8, g: ((1 * b.g + 7 * i.g) / 8) as u8, b: ((1 * b.b + 7 * i.b) / 8) as u8 }
}

fn weight_1_7(b: Color, i: Color) -> (c: Color)
    ensures
        c == spec_weight_1_7(b, i),
{
        Color {
            r: ((b.r as u16 + i.r as u16 * 7) / 8) as u8,
            g: ((b.g as u16 + i.g as u16 * 7) / 8) as u8,
            b: ((b.b as u16 + i.b as u16 * 7) / 8) as u8,
        }
}

/// Channel-wise mean weighted 3:5 towards the input.
pub open spec fn spec_weight_3_5(b: Color, i: Color) -> Color {
    Color { r: ((3 * b.r + 5 * i.r) / 8) as u8, g: ((3 * b.g + 5 * i.g) / 8) as u8, b: ((3 * b.b + 5 * i.b) / 8) as u8 }
}

fn weight_3_5(b: Color, i: Color) -> (c: Color)
    ensures
        c == spec_weight_3_5(b, i),
{
        Color {
            r: ((b.r as u16 * 3 + i.r as u16 * 5) / 8) as u8,
            g: ((b.g as u16 * 3 + i.g as u16 * 5) / 8) as u8,
            b: ((b.b as u16 * 3 + i.b as u16 * 5) / 8) as u8,
        }
}

/// Channel-wise mean weighted 5:3 towards the base.
pub open spec fn spec_weight_5_3(b: Color, i: Color) -> Color {
    Color { r: ((5 * b.r + 3 * i.r) / 8) as u8, g: ((5 * b.g + 3 * i.g) / 8) as u8, b: ((5 * b.b + 3 * i.b) / 8) as u8 }
}

fn weight_5_3(b: Color, i: Color) -> (c: Color)
    ensures
        c == spec_weight_5_3(b, i),
{
        Color {
            r: ((b.r as u16 * 5 + i.r as u16 * 3) / 8) as u8,
            g: ((b.g as u16 * 5 + i.g as u16 * 3) / 8) as u8,
            b: ((b.b as u16 * 5 + i.b as u16 * 3) / 8) as u8,
        }
}

/// Channel-wise mean weighted 15:1 towards the base.
pub open spec fn spec_weight_15_1(b: Color, i: Color) -> Color {
    Color { r: ((15 * b.r + 1 * i.r) / 16) as u8, g: ((15 * b.g + 1 * i.g) / 16) as u8, b: ((15 * b.b + 1 * i.b) / 16) as u8 }
}

fn weight_15_1(b: Color, i: Color) -> (c: Color)
    ensures
        c == spec_weight_15_1(b, i),
{
        Color {
            r: ((b.r as u16 * 15 + i.r as u16) / 16) as u8,
            g: ((b.g as u16 * 15 + i.g as u16) / 16) as u8,
            b: ((b.b as u16 * 15 + i.b as u16) / 16) as u8,
        }
}

/// Colour dodge blend, clamped at 255.
pub open spec fn spec_color_dodge_approx(b: Color, i: Color) -> Color {
    Color { r: color_dodge8(b.r, i.r), g: color_dodge8(b.g, i.g), b: color_dodge8(b.b, i.b) }
}

fn color_dodge_approx(b: Color, i: Color) -> (c: Color)
    ensures
        c == spec_color_dodge_approx(b, i),
{
        Color {
            r: color_dodge_channel(b.r, i.r),
            g: color_dodge_channel(b.g, i.g),
            b: color_dodge_channel(b.b, i.b),
        }
}

/// Colour burn blend, clamped at 0.
pub open spec fn spec_color_burn_approx(b: Color, i: Color) -> Color {
    Color { r: color_burn8(b.r, i.r), g: color_burn8(b.g, i.g), b: color_burn8(b.b, i.b) }
}

fn color_burn_approx(b: Color, i: Color) -> (c: Color)
    ensures
        c == spec_color_burn_approx(b, i),
{
        Color {
            r: color_burn_channel(b.r, i.r),
            g: color_burn_channel(b.g, i.g),
            b: color_burn_channel(b.b, i.b),
        }
}

/// Hard light blend, switching on the input channel.
pub open spec fn spec_hard_light_approx(b: Color, i: Color) -> Color {
    Color { r: hard_light8(b.r, i.r), g: hard_light8(b.g, i.g), b: hard_light8(b.b, i.b) }
}

fn hard_light_approx(b: Color, i: Color) -> (c: Color)
    ensures
        c == spec_hard_light_approx(b, i),
{
        Color {
            r: hard_light_channel(b.r, i.r),
            g: hard_light_channel(b.g, i.g),
            b: hard_light_channel(b.b, i.b),
        }
}

/// Linear burn: the clamped sum less 255, clamped at 0.
pub open spec fn spec_linear_burn_approx(b: Color, i: Color) -> Color {
    Color { r: saturating_sub8(saturating_add8(b.r, i.r), 255), g: saturating_sub8(saturating_add8(b.g, i.g), 255), b: saturating_sub8(saturating_add8(b.b, i.b), 255) }
}

fn linear_burn_approx(b: Color, i: Color) -> (c: Color)
    ensures
        c == spec_linear_burn_approx(b, i),
{
        Color {
            r: b.r.saturating_add(i.r).saturating_sub(255),
            g: b.g.saturating_add(i.g).saturating_sub(255),
            b: b.b.saturating_add(i.b).saturating_sub(255),
        }
}

/// Linear light: the sum less 128, clamped to 0..=255.
pub open spec fn spec_linear_light_approx(b: Color, i: Color) -> Color {
    Color { r: linear_light8(b.r, i.r), g: linear_light8(b.g, i.g), b: linear_light8(b.b, i.b) }
}

fn linear_light_approx(b: Color, i: Color) -> (c: Color)
    ensures
        c == spec_linear_light_approx(b, i),
{
        Color {
            r: linear_light_channel(b.r, i.r),
            g: linear_light_channel(b.g, i.g),
            b: linear_light_channel(b.b, i.b),
        }
}

/// Each base channel plus the next input channel, modulo 256.
pub open spec fn spec_cross_add(b: Color, i: Color) -> Color {
    Color { r: wrapping_add8(b.r, i.g), g: wrapping_add8(b.g, i.b), b: wrapping_add8(b.b, i.r) }
}

fn cross_add(b: Color, i: Color) -> (c: Color)
    ensures
        c == spec_cross_add(b, i),
{
        Color {
            r: b.r.wrapping_add(i.g),
            g: b.g.wrapping_add(i.b),
            b: b.b.wrapping_add(i.r),
        }
}

/// Each base channel minus the next input channel, modulo 256.
pub open spec fn spec_cross_sub(b: Color, i: Color) -> Color {
    Color { r: wrapping_sub8(b.r, i.g), g: wrapping_sub8(b.g, i.b), b: wrapping_sub8(b.b, i.r) }
}

fn cross_sub(b: Color, i: Color) -> (c: Color)
    ensures
        c == spec_cross_sub(b, i),
{
        Color {
            r: b.r.wrapping_sub(i.g),
            g: b.g.wrapping_sub(i.b),
            b: b.b.wrapping_sub(i.r),
        }
}

/// The mean of each base channel and the next input channel.
pub open spec fn spec_cross_avg(b: Color, i: Color) -> Color {
    Color { r: ((b.r + i.g) / 2) as u8, g: ((b.g + i.b) / 2) as u8, b: ((b.b + i.r) / 2) as u8 }
}

fn cross_avg(b: Color, i: Color) -> (c: Color)
    ensures
        c == spec_cross_avg(b, i),
{
        Color {
            r: ((b.r as u16 + i.g as u16) / 2) as u8,
            g: ((b.g as u16 + i.b as u16) / 2) as u8,
            b: ((b.b as u16 + i.r as u16) / 2) as u8,
        }
}

/// The larger of each base channel and the next input channel.
pub open spec fn spec_cross_max(b: Color, i: Color) -> Color {
    Color { r: max8(b.r, i.g), g: max8(b.g, i.b), b: max8(b.b, i.r) }
}

fn cross_max(b: Color, i: Color) -> (c: Color)
    ensures
        c == spec_cross_max(b, i),
{
        Color {
            r: u8_max(b.r, i.g),
            g: u8_max(b.g, i.b),
            b: u8_max(b.b, i.r),
        }
}

/// The smaller of each base channel and the next input channel.
pub open spec fn spec_cross_min(b: Color, i: Color) -> Color {
    Color { r: min8(b.r, i.g), g: min8(b.g, i.b), b: min8(b.b, i.r) }
}

fn cross_min(b: Color, i: Color) -> (c: Color)
    ensures
        c == spec_cross_min(b, i),
{
        Color {
            r: u8_min(b.r, i.g),
            g: u8_min(b.g, i.b),
            b: u8_min(b.b, i.r),
        }
}

/// Each base channel xor the next input channel.
pub open spec fn spec_xor_cross(b: Color, i: Color) -> Color {
    Color { r: b.r ^ i.g, g: b.g ^ i.b, b: b.b ^ i.r }
}

fn xor_cross(b: Color, i: Color) -> (c: Color)
    ensures
        c == spec_xor_cross(b, i),
{
        Color {
            r: b.r ^ i.g,
            g: b.g ^ i.b,
            b: b.b ^ i.r,
        }
}

/// Each base channel and the next input channel, bitwise.
pub open spec fn spec_and_cross(b: Color, i: Color) -> Color {
    Color { r: b.r & i.g, g: b.g & i.b, b: b.b & i.r }
}

fn and_cross(b: Color, i: Color) -> (c: Color)
    ensures
        c == spec_and_cross(b, i),
{
        Color {
            r: b.r & i.g,
            g: b.g & i.b,
            b: b.b & i.r,
        }
}

/// Each base channel or the next input channel, bitwise.
pub open spec fn spec_or_cross(b: Color, i: Color) -> Color {
    Color { r: b.r | i.g, g: b.g | i.b, b: b.b | i.r }
}

fn or_cross(b: Color, i: Color) -> (c: Color)
    ensures
        c == spec_or_cross(b, i),
{
        Color {
            r: b.r | i.g,
            g: b.g | i.b,
            b: b.b | i.r,
        }
}

/// Each base channel shifted left, modulo 256, by the next input channel modulo 8.
pub open spec fn spec_shl_cross(b: Color, i: Color) -> Color {
    Color { r: shl8(b.r, (i.g % 8) as nat), g: shl8(b.g, (i.b % 8) as nat), b: shl8(b.b, (i.r % 8) as nat) }
}

fn shl_cross(b: Color, i: Color) -> (c: Color)
    ensures
        c == spec_shl_cross(b, i),
{
        proof {
            lemma_u8_shl(b.r, (i.g % 8) as u32);
            lemma_u8_shl(b.g, (i.b % 8) as u32);
            lemma_u8_shl(b.b, (i.r % 8) as u32);
        }
        Color {
            r: b.r.wrapping_shl((i.g % 8) as u32),
            g: b.g.wrapping_shl((i.b % 8) as u32),
            b: b.b.wrapping_shl((i.r % 8) as u32),
        }
}

/// Each base channel shifted right by the next input channel modulo 8.
pub open spec fn spec_shr_cross(b: Color, i: Color) -> Color {
    Color { r: (b.r as nat / pow2((i.g % 8) as nat)) as u8, g: (b.g as nat / pow2((i.b % 8) as nat)) as u8, b: (b.b as nat / pow2((i.r % 8) as nat)) as u8 }
}

fn shr_cross(b: Color, i: Color) -> (c: Color)
    ensures
        c == spec_shr_cross(b, i),
{
        proof {
            lemma_u8_shr(b.r, (i.g % 8) as u32);
            lemma_u8_shr(b.g, (i.b % 8) as u32);
            lemma_u8_shr(b.b, (i.r % 8) as u32);
        }
        Color {
            r: b.r.wrapping_shr((i.g % 8) as u32),
            g: b.g.wrapping_shr((i.b % 8) as u32),
            b: b.b.wrapping_shr((i.r % 8) as u32),
        }
}

/// The base plus the input modulo 64, modulo 256.
pub open spec fn spec_mod_add(b: Color, i: Color) -> Color {
    Color { r: wrapping_add8(b.r, (i.r % 64) as u8), g: wrapping_add8(b.g, (i.g % 64) as u8), b: wrapping_add8(b.b, (i.b % 64) as u8) }
}

fn mod_add(b: Color, i: Color) -> (c: Color)
    ensures
        c == spec_mod_add(b, i),
{
        proof {
            lemma_wrapping8(b.r, i.r % 64);
            lemma_wrapping8(b.g, i.g % 64);
            lemma_wrapping8(b.b, i.b % 64);
        }
        Color {
            r: b.r.wrapping_add(i.r % 64),
            g: b.g.wrapping_add(i.g % 64),
            b: b.b.wrapping_add(i.b % 64),
        }
}

/// The base minus the input modulo 64, modulo 256.
pub open spec fn spec_mod_sub(b: Color, i: Color) -> Color {
    Color { r: wrapping_sub8(b.r, (i.r % 64) as u8), g: wrapping_sub8(b.g, (i.g % 64) as u8), b: wrapping_sub8(b.b, (i.b % 64) as u8) }
}

fn mod_sub(b: Color, i: Color) -> (c: Color)
    ensures
        c == spec_mod_sub(b, i),
{
        proof {
            lemma_wrapping8(b.r, i.r % 64);
            lemma_wrapping8(b.g, i.g % 64);
            lemma_wrapping8(b.b, i.b % 64);
        }
        Color {
            r: b.r.wrapping_sub(i.r % 64),
            g: b.g.wrapping_sub(i.g % 64),
            b: b.b.wrapping_sub(i.b % 64),
        }
}

/// The base divided by one more than a sixteenth of the input.
pub open spec fn spec_mod_div(b: Color, i: Color) -> Color {
    Color { r: (b.r as int / (i.r as int / 16 + 1)) as u8, g: (b.g as int / (i.g as int / 16 + 1)) as u8, b: (b.b as int / (i.b as int / 16 + 1)) as u8 }
}

fn mod_div(b: Color, i: Color) -> (c: Color)
    ensures
        c == spec_mod_div(b, i),
{
        Color {
            r: b.r / (i.r / 16 + 1),
            g: b.g / (i.g / 16 + 1),
            b: b.b / (i.b / 16 + 1),
        }
}

/// The base reduced to its top two bits per channel.
pub open spec fn spec_posterize_4_b(b: Color, i: Color) -> Color {
    Color { r: b.r & 0xC0, g: b.g & 0xC0, b: b.b & 0xC0 }
}

fn posterize_4_b(b: Color, i: Color) -> (c: Color)
    ensures
        c == spec_posterize_4_b(b, i),
{
        Color {
            r: b.r & 0xC0,
            g: b.g & 0xC0,
            b: b.b & 0xC0,
        }
}

/// The input reduced to its top two bits per channel.
pub open spec fn spec_posterize_4_i(b: Color, i: Color) -> Color {
    Color { r: i.r & 0xC0, g: i.g & 0xC0, b: i.b & 0xC0 }
}

fn posterize_4_i(b: Color, i: Color) -> (c: Color)
    ensures
        c == spec_posterize_4_i(b, i),
{
        Color {
            r: i.r & 0xC0,
            g: i.g & 0xC0,
            b: i.b & 0xC0,
        }
}

/// The base reduced to its top three bits per channel.
pub open spec fn spec_posterize_8_b(b: Color, i: Color) -> Color {
    Color { r: b.r & 0xE0, g: b.g & 0xE0, b: b.b & 0xE0 }
}

fn posterize_8_b(b: Color, i: Color) -> (c: Color)
    ensures
        c == spec_posterize_8_b(b, i),
{
        Color {
            r: b.r & 0xE0,
            g: b.g & 0xE0,
            b: b.b & 0xE0,
        }
}

/// The input reduced to its top three bits per channel.
pub open spec fn spec_posterize_8_i(b: Color, i: Color) -> Color {
    Color { r: i.r & 0xE0, g: i.g & 0xE0, b: i.b & 0xE0 }
}

fn posterize_8_i(b: Color, i: Color) -> (c: Color)
    ensures
        c == spec_posterize_8_i(b, i),
{
        Color {
            r: i.r & 0xE0,
            g: i.g & 0xE0,
            b: i.b & 0xE0,
        }
}

/// The base thresholded: 255 above 128, else 0.
pub open spec fn spec_thresh_128_b(b: Color, i: Color) -> Color {
    Color { r: threshold8(b.r), g: threshold8(b.g), b: threshold8(b.b) }
}

fn thresh_128_b(b: Color, i: Color) -> (c: Color)
    ensures
        c == spec_thresh_128_b(b, i),
{
        Color {
            r: if b.r > 128 { 255 } else { 0 },
            g: if b.g > 128 { 255 } else { 0 },
            b: if b.b > 128 { 255 } else { 0 },
        }
}

/// The input thresholded: 255 above 128, else 0.
pub open spec fn spec_thresh_128_i(b: Color, i: Color) -> Color {
    Color { r: threshold8(i.r), g: threshold8(i.g), b: threshold8(i.b) }
}

fn thresh_128_i(b: Color, i: Color) -> (c: Color)
    ensures
        c == spec_thresh_128_i(b, i),
{
        Color {
            r: if i.r > 128 { 255 } else { 0 },
            g: if i.g > 128 { 255 } else { 0 },
            b: if i.b > 128 { 255 } else { 0 },
        }
}

/// Per channel, 255 when base plus input exceeds 255, else 0.
pub open spec fn spec_thresh_avg(b: Color, i: Color) -> Color {
    Color { r: (if b.r + i.r > 255 { 255u8 } else { 0u8 }), g: (if b.g + i.g > 255 { 255u8 } else { 0u8 }), b: (if b.b + i.b > 255 { 255u8 } else { 0u8 }) }
}

fn thresh_avg(b: Color, i: Color) -> (c: Color)
    ensures
        c == spec_thresh_avg(b, i),
{
        Color {
            r: if (b.r as u16 + i.r as u16) > 255 { 255 } else { 0 },
            g: if (b.g as u16 + i.g as u16) > 255 { 255 } else { 0 },
            b: if (b.b as u16 + i.b as u16) > 255 { 255 } else { 0 },
        }
}

/// Grey at the mean of the base's channels.
pub open spec fn spec_gray_avg_b(b: Color, i: Color) -> Color {
    Color { r: luma3(b), g: luma3(b), b: luma3(b) }
}

fn gray_avg_b(b: Color, i: Color) -> (c: Color)
    ensures
        c == spec_gray_avg_b(b, i),
{
        let gr = ((b.r as u16 + b.g as u16 + b.b as u16) / 3) as u8;
        Color { r: gr, g: gr, b: gr }
}

/// Grey at the mean of the input's channels.
pub open spec fn spec_gray_avg_i(b: Color, i: Color) -> Color {
    Color { r: luma3(i), g: luma3(i), b: luma3(i) }
}

fn gray_avg_i(b: Color, i: Color) -> (c: Color)
    ensures
        c == spec_gray_avg_i(b, i),
{
        let gr = ((i.r as u16 + i.g as u16 + i.b as u16) / 3) as u8;
        Color { r: gr, g: gr, b: gr }
}

/// Grey at the BT.709-weighted brightness of the base.
pub open spec fn spec_gray_bt709_b(b: Color, i: Color) -> Color {
    Color { r: luma709(b), g: luma709(b), b: luma709(b) }
}

fn gray_bt709_b(b: Color, i: Color) -> (c: Color)
    ensures
        c == spec_gray_bt709_b(b, i),
{
        let gr = ((b.r as u32 * 21 + b.g as u32 * 72 + b.b as u32 * 7) / 100) as u8;
        Color { r: gr, g: gr, b: gr }
}

/// Grey at the BT.709-weighted brightness of the input.
pub open spec fn spec_gray_bt709_i(b: Color, i: Color) -> Color {
    Color { r: luma709(i), g: luma709(i), b: luma709(i) }
}

fn gray_bt709_i(b: Color, i: Color) -> (c: Color)
    ensures
        c == spec_gray_bt709_i(b, i),
{
        let gr = ((i.r as u32 * 21 + i.g as u32 * 72 + i.b as u32 * 7) / 100) as u8;
        Color { r: gr, g: gr, b: gr }
}

/// The input's mean brightness added to each base channel, clamped at 255.
pub open spec fn spec_input_luma_to_base(b: Color, i: Color) -> Color {
    Color { r: saturating_add8(luma3(i), b.r), g: saturating_add8(luma3(i), b.g), b: saturating_add8(luma3(i), b.b) }
}

fn input_luma_to_base(b: Color, i: Color) -> (c: Color)
    ensures
        c == spec_input_luma_to_base(b, i),
{
        let luma = ((i.r as u16 + i.g as u16 + i.b as u16) / 3) as u8;
        Color {
            r: u8_min(luma.saturating_add(b.r), 255),
            g: u8_min(luma.saturating_add(b.g), 255),
            b: u8_min(luma.saturating_add(b.b), 255),
        }
}

/// The base plus twice the step from input to base, modulo 256.
pub open spec fn spec_amplify_diff(b: Color, i: Color) -> Color {
    Color { r: wrapping_add8(b.r, ((2 * wrapping_sub8(b.r, i.r)) % 256) as u8), g: wrapping_add8(b.g, ((2 * wrapping_sub8(b.g, i.g)) % 256) as u8), b: wrapping_add8(b.b, ((2 * wrapping_sub8(b.b, i.b)) % 256) as u8) }
}

fn amplify_diff(b: Color, i: Color) -> (c: Color)
    ensures
        c == spec_amplify_diff(b, i),
{
        proof {
            lemma_wrapping8(b.r, i.r);
            lemma_wrapping8(b.g, i.g);
            lemma_wrapping8(b.b, i.b);
            lemma_wrapping8(b.r, b.r.wrapping_sub(i.r).wrapping_mul(2));
            lemma_wrapping8(b.g, b.g.wrapping_sub(i.g).wrapping_mul(2));
            lemma_wrapping8(b.b, b.b.wrapping_sub(i.b).wrapping_mul(2));
        }
        Color {
            r: b.r.wrapping_add((b.r.wrapping_sub(i.r)).wrapping_mul(2)),
            g: b.g.wrapping_add((b.g.wrapping_sub(i.g)).wrapping_mul(2)),
            b: b.b.wrapping_add((b.b.wrapping_sub(i.b)).wrapping_mul(2)),
        }
}

/// The base plus a quarter of the wrapped step from base to input, modulo 256.
pub open spec fn spec_dampen_diff(b: Color, i: Color) -> Color {
    Color { r: wrapping_add8(b.r, (wrapping_sub8(i.r, b.r) / 4) as u8), g: wrapping_add8(b.g, (wrapping_sub8(i.g, b.g) / 4) as u8), b: wrapping_add8(b.b, (wrapping_sub8(i.b, b.b) / 4) as u8) }
}

fn dampen_diff(b: Color, i: Color) -> (c: Color)
    ensures
        c == spec_dampen_diff(b, i),
{
        proof {
            lemma_wrapping8(i.r, b.r);
            lemma_wrapping8(i.g, b.g);
            lemma_wrapping8(i.b, b.b);
            lemma_wrapping8(b.r, i.r.wrapping_sub(b.r) / 4);
            lemma_wrapping8(b.g, i.g.wrapping_sub(b.g) / 4);
            lemma_wrapping8(b.b, i.b.wrapping_sub(b.b) / 4);
        }
        Color {
            r: b.r.wrapping_add(i.r.wrapping_sub(b.r) / 4),
            g: b.g.wrapping_add(i.g.wrapping_sub(b.g) / 4),
            b: b.b.wrapping_add(i.b.wrapping_sub(b.b) / 4),
        }
}

/// The complement of the base xor half the input.
pub open spec fn spec_not_xor_half(b: Color, i: Color) -> Color {
    Color { r: (255 - (b.r ^ (i.r / 2) as u8)) as u8, g: (255 - (b.g ^ (i.g / 2) as u8)) as u8, b: (255 - (b.b ^ (i.b / 2) as u8)) as u8 }
}

fn not_xor_half(b: Color, i: Color) -> (c: Color)
    ensures
        c == spec_not_xor_half(b, i),
{
        proof {
            lemma_u8_shr1(i.r);
            lemma_u8_shr1(i.g);
            lemma_u8_shr1(i.b);
            lemma_u8_not(b.r ^ (i.r >> 1));
            lemma_u8_not(b.g ^ (i.g >> 1));
            lemma_u8_not(b.b ^ (i.b >> 1));
        }
        Color {
            r: !(b.r ^ (i.r >> 1)),
            g: !(b.g ^ (i.g >> 1)),
            b: !(b.b ^ (i.b >> 1)),
        }
}

/// The base with each channel rotated left one bit.
pub open spec fn spec_rot_left_b(b: Color, i: Color) -> Color {
    Color { r: ((2 * b.r) % 256 + b.r / 128) as u8, g: ((2 * b.g) % 256 + b.g / 128) as u8, b: ((2 * b.b) % 256 + b.b / 128) as u8 }
}

fn rot_left_b(b: Color, i: Color) -> (c: Color)
    ensures
        c == spec_rot_left_b(b, i),
{
        Color {
            r: u8_rotate_left1(b.r),
            g: u8_rotate_left1(b.g),
            b: u8_rotate_left1(b.b),
        }
}

/// The base with each channel rotated right one bit.
pub open spec fn spec_rot_right_b(b: Color, i: Color) -> Color {
    Color { r: (b.r / 2 + (b.r % 2) * 128) as u8, g: (b.g / 2 + (b.g % 2) * 128) as u8, b: (b.b / 2 + (b.b % 2) * 128) as u8 }
}

fn rot_right_b(b: Color, i: Color) -> (c: Color)
    ensures
        c == spec_rot_right_b(b, i),
{
        Color {
            r: u8_rotate_right1(b.r),
            g: u8_rotate_right1(b.g),
            b: u8_rotate_right1(b.b),
        }
}

/// The base pushed 64 away from the middle, clamped to 0..=255.
pub open spec fn spec_extreme_contrast_b(b: Color, i: Color) -> Color {
    Color { r: contrast8(b.r), g: contrast8(b.g), b: contrast8(b.b) }
}

fn extreme_contrast_b(b: Color, i: Color) -> (c: Color)
    ensures
        c == spec_extreme_contrast_b(b, i),
{
        Color {
            r: contrast_channel(b.r),
            g: contrast_channel(b.g),
            b: contrast_channel(b.b),
        }
}

/// The input pushed 64 away from the middle, clamped to 0..=255.
pub open spec fn spec_extreme_contrast_i(b: Color, i: Color) -> Color {
    Color { r: contrast8(i.r), g: contrast8(i.g), b: contrast8(i.b) }
}

fn extreme_contrast_i(b: Color, i: Color) -> (c: Color)
    ensures
        c == spec_extreme_contrast_i(b, i),
{
        Color {
            r: contrast_channel(i.r),
            g: contrast_channel(i.g),
            b: contrast_channel(i.b),
        }
}

/// Each base channel plus the distance of the next channel pair, modulo 256.
pub open spec fn spec_dist_rg_add(b: Color, i: Color) -> Color {
    Color { r: wrapping_add8(b.r, abs_diff8(b.g, i.g)), g: wrapping_add8(b.g, abs_diff8(b.b, i.b)), b: wrapping_add8(b.b, abs_diff8(b.r, i.r)) }
}

fn dist_rg_add(b: Color, i: Color) -> (c: Color)
    ensures
        c == spec_dist_rg_add(b, i),
{
        Color {
            r: b.r.wrapping_add(u8_abs_diff(b.g, i.g)),
            g: b.g.wrapping_add(u8_abs_diff(b.b, i.b)),
            b: b.b.wrapping_add(u8_abs_diff(b.r, i.r)),
        }
}

/// Each base channel plus the distance of the channel pair after next, modulo 256.
pub open spec fn spec_dist_gb_add(b: Color, i: Color) -> Color {
    Color { r: wrapping_add8(b.r, abs_diff8(b.b, i.b)), g: wrapping_add8(b.g, abs_diff8(b.r, i.r)), b: wrapping_add8(b.b, abs_diff8(b.g, i.g)) }
}

fn dist_gb_add(b: Color, i: Color) -> (c: Color)
    ensures
        c == spec_dist_gb_add(b, i),
{
        Color {
            r: b.r.wrapping_add(u8_abs_diff(b.b, i.b)),
            g: b.g.wrapping_add(u8_abs_diff(b.r, i.r)),
            b: b.b.wrapping_add(u8_abs_diff(b.g, i.g)),
        }
}

/// Each base channel plus its distance to the input channel, modulo 256.
pub open spec fn spec_dist_br_add(b: Color, i: Color) -> Color {
    Color { r: wrapping_add8(b.r, abs_diff8(b.r, i.r)), g: wrapping_add8(b.g, abs_diff8(b.g, i.g)), b: wrapping_add8(b.b, abs_diff8(b.b, i.b)) }
}

fn dist_br_add(b: Color, i: Color) -> (c: Color)
    ensures
        c == spec_dist_br_add(b, i),
{
        Color {
            r: b.r.wrapping_add(u8_abs_diff(b.r, i.r)),
            g: b.g.wrapping_add(u8_abs_diff(b.g, i.g)),
            b: b.b.wrapping_add(u8_abs_diff(b.b, i.b)),
        }
}

/// The number of colour operators.
pub const OPERATOR_COUNT: usize = 100;

/// The colour that operator `index` predicts from `base` and `input`.
pub open spec fn spec_apply_operator(index: usize, base: Color, input: Color) -> Color {
    match index {
        0 => spec_add_rgb(base, input),
        1 => spec_sub_rgb(base, input),
        2 => spec_reverse_sub_rgb(base, input),
        3 => spec_base_add_only_r(base, input),
        4 => spec_input_add_only_r(base, input),
        5 => spec_pass_base(base, input),
        6 => spec_pass_input(base, input),
        7 => spec_max_rgb(base, input),
        8 => spec_min_rgb(base, input),
        9 => spec_average_rgb(base, input),
        10 => spec_avg_base_heavy(base, input),
        11 => spec_avg_input_heavy(base, input),
        12 => spec_linear_extrapolate(base, input),
        13 => spec_sat_add_rgb(base, input),
        14 => spec_sat_sub_rgb(base, input),
        15 => spec_abs_diff_rgb(base, input),
        16 => spec_invert_base(base, input),
        17 => spec_invert_input(base, input),
        18 => spec_invert_average(base, input),
        19 => spec_xor_rgb(base, input),
        20 => spec_and_rgb(base, input),
        21 => spec_or_rgb(base, input),
        22 => spec_nand_rgb(base, input),
        23 => spec_nor_rgb(base, input),
        24 => spec_xnor_rgb(base, input),
        25 => spec_swap_gb_base(base, input),
        26 => spec_swap_rb_base(base, input),
        27 => spec_swap_rg_base(base, input),
        28 => spec_shift_rgb_base(base, input),
        29 => spec_shift_bgr_base(base, input),
        30 => spec_swap_gb_input(base, input),
        31 => spec_swap_rb_input(base, input),
        32 => spec_swap_rg_input(base, input),
        33 => spec_shift_rgb_input(base, input),
        34 => spec_shift_bgr_input(base, input),
        35 => spec_mix_r_base(base, input),
        36 => spec_mix_g_base(base, input),
        37 => spec_mix_b_base(base, input),
        38 => spec_mix_rg_base(base, input),
        39 => spec_mix_gb_base(base, input),
        40 => spec_mix_rb_base(base, input),
        41 => spec_multiply_blend(base, input),
        42 => spec_screen_blend(base, input),
        43 => spec_overlay_approx(base, input),
        44 => spec_difference_blend(base, input),
        45 => spec_half_base_add_input(base, input),
        46 => spec_half_input_add_base(base, input),
        47 => spec_bit_shift_left(base, input),
        48 => spec_bit_shift_right(base, input),
        49 => spec_base_luma_to_input(base, input),
        50 => spec_sat_reverse_sub(base, input),
        51 => spec_add_half_half(base, input),
        52 => spec_sub_half_half(base, input),
        53 => spec_sat_mult_2x(base, input),
        54 => spec_sq_diff(base, input),
        55 => spec_weight_7_1(base, input),
        56 => spec_weight_1_7(base, input),
        57 => spec_weight_3_5(base, input),
        58 => spec_weight_5_3(base, input),
        59 => spec_weight_15_1(base, input),
        60 => spec_color_dodge_approx(base, input),
        61 => spec_color_burn_approx(base, input),
        62 => spec_hard_light_approx(base, input),
        63 => spec_linear_burn_approx(base, input),
        64 => spec_linear_light_approx(base, input),
        65 => spec_cross_add(base, input),
        66 => spec_cross_sub(base, input),
        67 => spec_cross_avg(base, input),
        68 => spec_cross_max(base, input),
        69 => spec_cross_min(base, input),
        70 => spec_xor_cross(base, input),
        71 => spec_and_cross(base, input),
        72 => spec_or_cross(base, input),
        73 => spec_shl_cross(base, input),
        74 => spec_shr_cross(base, input),
        75 => spec_mod_add(base, input),
        76 => spec_mod_sub(base, input),
        77 => spec_mod_div(base, input),
        78 => spec_posterize_4_b(base, input),
        79 => spec_posterize_4_i(base, input),
        80 => spec_posterize_8_b(base, input),
        81 => spec_posterize_8_i(base, input),
        82 => spec_thresh_128_b(base, input),
        83 => spec_thresh_128_i(base, input),
        84 => spec_thresh_avg(base, input),
        85 => spec_gray_avg_b(base, input),
        86 => spec_gray_avg_i(base, input),
        87 => spec_gray_bt709_b(base, input),
        88 => spec_gray_bt709_i(base, input),
        89 => spec_input_luma_to_base(base, input),
        90 => spec_amplify_diff(base, input),
        91 => spec_dampen_diff(base, input),
        92 => spec_not_xor_half(base, input),
        93 => spec_rot_left_b(base, input),
        94 => spec_rot_right_b(base, input),
        95 => spec_extreme_contrast_b(base, input),
        96 => spec_extreme_contrast_i(base, input),
        97 => spec_dist_rg_add(base, input),
        98 => spec_dist_gb_add(base, input),
        _ => spec_dist_br_add(base, input),
    }
}

/// Applies operator `index` to `base` and `input`.
pub fn apply_operator(index: usize, base: Color, input: Color) -> (c: Color)
    requires
        index < OPERATOR_COUNT,
    ensures
        c == spec_apply_operator(index, base, input),
{
    match index {
        0 => add_rgb(base, input),
        1 => sub_rgb(base, input),
        2 => reverse_sub_rgb(base, input),
        3 => base_add_only_r(base, input),
        4 => input_add_only_r(base, input),
        5 => pass_base(base, input),
        6 => pass_input(base, input),
        7 => max_rgb(base, input),
        8 => min_rgb(base, input),
        9 => average_rgb(base, input),
        10 => avg_base_heavy(base, input),
        11 => avg_input_heavy(base, input),
        12 => linear_extrapolate(base, input),
        13 => sat_add_rgb(base, input),
        14 => sat_sub_rgb(base, input),
        15 => abs_diff_rgb(base, input),
        16 => invert_base(base, input),
        17 => invert_input(base, input),
        18 => invert_average(base, input),
        19 => xor_rgb(base, input),
        20 => and_rgb(base, input),
        21 => or_rgb(base, input),
        22 => nand_rgb(base, input),
        23 => nor_rgb(base, input),
        24 => xnor_rgb(base, input),
        25 => swap_gb_base(base, input),
        26 => swap_rb_base(base, input),
        27 => swap_rg_base(base, input),
        28 => shift_rgb_base(base, input),
        29 => shift_bgr_base(base, input),
        30 => swap_gb_input(base, input),
        31 => swap_rb_input(base, input),
        32 => swap_rg_input(base, input),
        33 => shift_rgb_input(base, input),
        34 => shift_bgr_input(base, input),
        35 => mix_r_base(base, input),
        36 => mix_g_base(base, input),
        37 => mix_b_base(base, input),
        38 => mix_rg_base(base, input),
        39 => mix_gb_base(base, input),
        40 => mix_rb_base(base, input),
        41 => multiply_blend(base, input),
        42 => screen_blend(base, input),
        43 => overlay_approx(base, input),
        44 => difference_blend(base, input),
        45 => half_base_add_input(base, input),
        46 => half_input_add_base(base, input),
        47 => bit_shift_left(base, input),
        48 => bit_shift_right(base, input),
        49 => base_luma_to_input(base, input),
        50 => sat_reverse_sub(base, input),
        51 => add_half_half(base, input),
        52 => sub_half_half(base, input),
        53 => sat_mult_2x(base, input),
        54 => sq_diff(base, input),
        55 => weight_7_1(base, input),
        56 => weight_1_7(base, input),
        57 => weight_3_5(base, input),
        58 => weight_5_3(base, input),
        59 => weight_15_1(base, input),
        60 => color_dodge_approx(base, input),
        61 => color_burn_approx(base, input),
        62 => hard_light_approx(base, input),
        63 => linear_burn_approx(base, input),
        64 => linear_light_approx(base, input),
        65 => cross_add(base, input),
        66 => cross_sub(base, input),
        67 => cross_avg(base, input),
        68 => cross_max(base, input),
        69 => cross_min(base, input),
        70 => xor_cross(base, input),
        71 => and_cross(base, input),
        72 => or_cross(base, input),
        73 => shl_cross(base, input),
        74 => shr_cross(base, input),
        75 => mod_add(base, input),
        76 => mod_sub(base, input),
        77 => mod_div(base, input),
        78 => posterize_4_b(base, input),
        79 => posterize_4_i(base, input),
        80 => posterize_8_b(base, input),
        81 => posterize_8_i(base, input),
        82 => thresh_128_b(base, input),
        83 => thresh_128_i(base, input),
        84 => thresh_avg(base, input),
        85 => gray_avg_b(base, input),
        86 => gray_avg_i(base, input),
        87 => gray_bt709_b(base, input),
        88 => gray_bt709_i(base, input),
        89 => input_luma_to_base(base, input),
        90 => amplify_diff(base, input),
        91 => dampen_diff(base, input),
        92 => not_xor_half(base, input),
        93 => rot_left_b(base, input),
        94 => rot_right_b(base, input),
        95 => extreme_contrast_b(base, input),
        96 => extreme_contrast_i(base, input),
        97 => dist_rg_add(base, input),
        98 => dist_gb_add(base, input),
        _ => dist_br_add(base, input),
    }
}


/// Thresholding the average treats its two colours alike.
pub proof fn lemma_thresh_avg_symmetric(b: Color, i: Color)
    ensures
        spec_thresh_avg(b, i) == spec_thresh_avg(i, b),
{
}

/// One channel of hard light is overlay with its arguments swapped.
pub proof fn lemma_hard_light_channel(x: u8, y: u8)
    ensures
        hard_light8(x, y) == overlay8(y, x),
{
    assert(2 * x * y == 2 * y * x) by (nonlinear_arith);
    assert(2 * (255 - x) * (255 - y) == 2 * (255 - y) * (255 - x)) by (nonlinear_arith);
}

/// Hard light is overlay with base and input swapped.
pub proof fn lemma_hard_light_is_swapped_overlay(b: Color, i: Color)
    ensures
        spec_hard_light_approx(b, i) == spec_overlay_approx(i, b),
{
    lemma_hard_light_channel(b.r, i.r);
    lemma_hard_light_channel(b.g, i.g);
    lemma_hard_light_channel(b.b, i.b);
}

/// On one channel, wrapping subtraction undoes wrapping addition, and the other
/// way round.
pub proof fn lemma_wrapping_add_sub(x: u8, y: u8)
    ensures
        wrapping_sub8(wrapping_add8(x, y), y) == x,
        wrapping_add8(wrapping_sub8(x, y), y) == x,
{
}

/// Subtracting a colour, channel by channel modulo 256, undoes adding it, and
/// adding it undoes subtracting it.
pub proof fn lemma_add_sub_inverse(b: Color, i: Color)
    ensures
        spec_sub_rgb(spec_add_rgb(b, i), i) == b,
        spec_add_rgb(spec_sub_rgb(b, i), i) == b,
{
    lemma_wrapping_add_sub(b.r, i.r);
    lemma_wrapping_add_sub(b.g, i.g);
    lemma_wrapping_add_sub(b.b, i.b);
}
} // verus!
