//! What each colour operator computes, channel by channel, from its base `b`
//! (two pixels back) and its input `i` (the pixel just before), stated for every
//! operator index apart from the operators' own definitions.

use vstd::prelude::*;
use vstd::arithmetic::power2::pow2;
use crate::color::Color;
use crate::color::operator::{spec_apply_operator, abs_diff8, color_burn8, color_dodge8,
    contrast8, hard_light8, linear_light8, luma3, luma709, max8, min8, min_int, overlay8,
    saturating_add8, saturating_sub8, shl8, sq_diff8, threshold8, wrapping_add8, wrapping_sub8};

verus! {

/// Operators 0 to 9, in order: `add_rgb`, `sub_rgb`, `reverse_sub_rgb`, `base_add_only_r`,
/// `input_add_only_r`, `pass_base`, `pass_input`, `max_rgb`, `min_rgb`, `average_rgb`.
pub proof fn lemma_operators_0_to_9(b: Color, i: Color)
    ensures
        spec_apply_operator(0, b, i).r == wrapping_add8(b.r, i.r),
        spec_apply_operator(0, b, i).g == wrapping_add8(b.g, i.g),
        spec_apply_operator(0, b, i).b == wrapping_add8(b.b, i.b),
        spec_apply_operator(1, b, i).r == wrapping_sub8(b.r, i.r),
        spec_apply_operator(1, b, i).g == wrapping_sub8(b.g, i.g),
        spec_apply_operator(1, b, i).b == wrapping_sub8(b.b, i.b),
        spec_apply_operator(2, b, i).r == wrapping_sub8(i.r, b.r),
        spec_apply_operator(2, b, i).g == wrapping_sub8(i.g, b.g),
        spec_apply_operator(2, b, i).b == wrapping_sub8(i.b, b.b),
        spec_apply_operator(3, b, i).r == wrapping_add8(b.r, i.r),
        spec_apply_operator(3, b, i).g == b.g,
        spec_apply_operator(3, b, i).b == b.b,
        spec_apply_operator(4, b, i).r == wrapping_add8(b.r, i.r),
        spec_apply_operator(4, b, i).g == i.g,
        spec_apply_operator(4, b, i).b == i.b,
        spec_apply_operator(5, b, i).r == b.r,
        spec_apply_operator(5, b, i).g == b.g,
        spec_apply_operator(5, b, i).b == b.b,
        spec_apply_operator(6, b, i).r == i.r,
        spec_apply_operator(6, b, i).g == i.g,
        spec_apply_operator(6, b, i).b == i.b,
        spec_apply_operator(7, b, i).r == max8(b.r, i.r),
        spec_apply_operator(7, b, i).g == max8(b.g, i.g),
        spec_apply_operator(7, b, i).b == max8(b.b, i.b),
        spec_apply_operator(8, b, i).r == min8(b.r, i.r),
        spec_apply_operator(8, b, i).g == min8(b.g, i.g),
        spec_apply_operator(8, b, i).b == min8(b.b, i.b),
        spec_apply_operator(9, b, i).r == ((b.r + i.r) / 2) as u8,
        spec_apply_operator(9, b, i).g == ((b.g + i.g) / 2) as u8,
        spec_apply_operator(9, b, i).b == ((b.b + i.b) / 2) as u8,
{
}

/// Operators 10 to 19, in order: `avg_base_heavy`, `avg_input_heavy`, `linear_extrapolate`,
/// `sat_add_rgb`, `sat_sub_rgb`, `abs_diff_rgb`, `invert_base`, `invert_input`,
/// `invert_average`, `xor_rgb`.
pub proof fn lemma_operators_10_to_19(b: Color, i: Color)
    ensures
        spec_apply_operator(10, b, i).r == ((3 * b.r + i.r) / 4) as u8,
        spec_apply_operator(10, b, i).g == ((3 * b.g + i.g) / 4) as u8,
        spec_apply_operator(10, b, i).b == ((3 * b.b + i.b) / 4) as u8,
        spec_apply_operator(11, b, i).r == ((b.r + 3 * i.r) / 4) as u8,
        spec_apply_operator(11, b, i).g == ((b.g + 3 * i.g) / 4) as u8,
        spec_apply_operator(11, b, i).b == ((b.b + 3 * i.b) / 4) as u8,
        spec_apply_operator(12, b, i).r == wrapping_add8(b.r, wrapping_sub8(b.r, i.r)),
        spec_apply_operator(12, b, i).g == wrapping_add8(b.g, wrapping_sub8(b.g, i.g)),
        spec_apply_operator(12, b, i).b == wrapping_add8(b.b, wrapping_sub8(b.b, i.b)),
        spec_apply_operator(13, b, i).r == saturating_add8(b.r, i.r),
        spec_apply_operator(13, b, i).g == saturating_add8(b.g, i.g),
        spec_apply_operator(13, b, i).b == saturating_add8(b.b, i.b),
        spec_apply_operator(14, b, i).r == saturating_sub8(b.r, i.r),
        spec_apply_operator(14, b, i).g == saturating_sub8(b.g, i.g),
        spec_apply_operator(14, b, i).b == saturating_sub8(b.b, i.b),
        spec_apply_operator(15, b, i).r == abs_diff8(b.r, i.r),
        spec_apply_operator(15, b, i).g == abs_diff8(b.g, i.g),
        spec_apply_operator(15, b, i).b == abs_diff8(b.b, i.b),
        spec_apply_operator(16, b, i).r == (255 - b.r) as u8,
        spec_apply_operator(16, b, i).g == (255 - b.g) as u8,
        spec_apply_operator(16, b, i).b == (255 - b.b) as u8,
        spec_apply_operator(17, b, i).r == (255 - i.r) as u8,
        spec_apply_operator(17, b, i).g == (255 - i.g) as u8,
        spec_apply_operator(17, b, i).b == (255 - i.b) as u8,
        spec_apply_operator(18, b, i).r == (255 - (b.r + i.r) / 2) as u8,
        spec_apply_operator(18, b, i).g == (255 - (b.g + i.g) / 2) as u8,
        spec_apply_operator(18, b, i).b == (255 - (b.b + i.b) / 2) as u8,
        spec_apply_operator(19, b, i).r == b.r ^ i.r,
        spec_apply_operator(19, b, i).g == b.g ^ i.g,
        spec_apply_operator(19, b, i).b == b.b ^ i.b,
{
}

/// Operators 20 to 29, in order: `and_rgb`, `or_rgb`, `nand_rgb`, `nor_rgb`, `xnor_rgb`,
/// `swap_gb_base`, `swap_rb_base`, `swap_rg_base`, `shift_rgb_base`, `shift_bgr_base`.
pub proof fn lemma_operators_20_to_29(b: Color, i: Color)
    ensures
        spec_apply_operator(20, b, i).r == b.r & i.r,
        spec_apply_operator(20, b, i).g == b.g & i.g,
        spec_apply_operator(20, b, i).b == b.b & i.b,
        spec_apply_operator(21, b, i).r == b.r | i.r,
        spec_apply_operator(21, b, i).g == b.g | i.g,
        spec_apply_operator(21, b, i).b == b.b | i.b,
        spec_apply_operator(22, b, i).r == (255 - (b.r & i.r)) as u8,
        spec_apply_operator(22, b, i).g == (255 - (b.g & i.g)) as u8,
        spec_apply_operator(22, b, i).b == (255 - (b.b & i.b)) as u8,
        spec_apply_operator(23, b, i).r == (255 - (b.r | i.r)) as u8,
        spec_apply_operator(23, b, i).g == (255 - (b.g | i.g)) as u8,
        spec_apply_operator(23, b, i).b == (255 - (b.b | i.b)) as u8,
        spec_apply_operator(24, b, i).r == (255 - (b.r ^ i.r)) as u8,
        spec_apply_operator(24, b, i).g == (255 - (b.g ^ i.g)) as u8,
        spec_apply_operator(24, b, i).b == (255 - (b.b ^ i.b)) as u8,
        spec_apply_operator(25, b, i).r == b.r,
        spec_apply_operator(25, b, i).g == b.b,
        spec_apply_operator(25, b, i).b == b.g,
        spec_apply_operator(26, b, i).r == b.b,
        spec_apply_operator(26, b, i).g == b.g,
        spec_apply_operator(26, b, i).b == b.r,
        spec_apply_operator(27, b, i).r == b.g,
        spec_apply_operator(27, b, i).g == b.r,
        spec_apply_operator(27, b, i).b == b.b,
        spec_apply_operator(28, b, i).r == b.b,
        spec_apply_operator(28, b, i).g == b.r,
        spec_apply_operator(28, b, i).b == b.g,
        spec_apply_operator(29, b, i).r == b.g,
        spec_apply_operator(29, b, i).g == b.b,
        spec_apply_operator(29, b, i).b == b.r,
{
}

/// Operators 30 to 39, in order: `swap_gb_input`, `swap_rb_input`, `swap_rg_input`,
/// `shift_rgb_input`, `shift_bgr_input`, `mix_r_base`, `mix_g_base`, `mix_b_base`,
/// `mix_rg_base`, `mix_gb_base`.
pub proof fn lemma_operators_30_to_39(b: Color, i: Color)
    ensures
        spec_apply_operator(30, b, i).r == i.r,
        spec_apply_operator(30, b, i).g == i.b,
        spec_apply_operator(30, b, i).b == i.g,
        spec_apply_operator(31, b, i).r == i.b,
        spec_apply_operator(31, b, i).g == i.g,
        spec_apply_operator(31, b, i).b == i.r,
        spec_apply_operator(32, b, i).r == i.g,
        spec_apply_operator(32, b, i).g == i.r,
        spec_apply_operator(32, b, i).b == i.b,
        spec_apply_operator(33, b, i).r == i.b,
        spec_apply_operator(33, b, i).g == i.r,
        spec_apply_operator(33, b, i).b == i.g,
        spec_apply_operator(34, b, i).r == i.g,
        spec_apply_operator(34, b, i).g == i.b,
        spec_apply_operator(34, b, i).b == i.r,
        spec_apply_operator(35, b, i).r == b.r,
        spec_apply_operator(35, b, i).g == i.g,
        spec_apply_operator(35, b, i).b == i.b,
        spec_apply_operator(36, b, i).r == i.r,
        spec_apply_operator(36, b, i).g == b.g,
        spec_apply_operator(36, b, i).b == i.b,
        spec_apply_operator(37, b, i).r == i.r,
        spec_apply_operator(37, b, i).g == i.g,
        spec_apply_operator(37, b, i).b == b.b,
        spec_apply_operator(38, b, i).r == b.r,
        spec_apply_operator(38, b, i).g == b.g,
        spec_apply_operator(38, b, i).b == i.b,
        spec_apply_operator(39, b, i).r == i.r,
        spec_apply_operator(39, b, i).g == b.g,
        spec_apply_operator(39, b, i).b == b.b,
{
}

/// Operators 40 to 49, in order: `mix_rb_base`, `multiply_blend`, `screen_blend`,
/// `overlay_approx`, `difference_blend`, `half_base_add_input`, `half_input_add_base`,
/// `bit_shift_left`, `bit_shift_right`, `base_luma_to_input`.
pub proof fn lemma_operators_40_to_49(b: Color, i: Color)
    ensures
        spec_apply_operator(40, b, i).r == b.r,
        spec_apply_operator(40, b, i).g == i.g,
        spec_apply_operator(40, b, i).b == b.b,
        spec_apply_operator(41, b, i).r == ((b.r * i.r) / 255) as u8,
        spec_apply_operator(41, b, i).g == ((b.g * i.g) / 255) as u8,
        spec_apply_operator(41, b, i).b == ((b.b * i.b) / 255) as u8,
        spec_apply_operator(42, b, i).r == (255 - ((255 - b.r) * (255 - i.r)) / 255) as u8,
        spec_apply_operator(42, b, i).g == (255 - ((255 - b.g) * (255 - i.g)) / 255) as u8,
        spec_apply_operator(42, b, i).b == (255 - ((255 - b.b) * (255 - i.b)) / 255) as u8,
        spec_apply_operator(43, b, i).r == overlay8(b.r, i.r),
        spec_apply_operator(43, b, i).g == overlay8(b.g, i.g),
        spec_apply_operator(43, b, i).b == overlay8(b.b, i.b),
        spec_apply_operator(44, b, i).r == abs_diff8(b.r, i.r),
        spec_apply_operator(44, b, i).g == abs_diff8(b.g, i.g),
        spec_apply_operator(44, b, i).b == abs_diff8(b.b, i.b),
        spec_apply_operator(45, b, i).r == wrapping_add8((b.r / 2) as u8, i.r),
        spec_apply_operator(45, b, i).g == wrapping_add8((b.g / 2) as u8, i.g),
        spec_apply_operator(45, b, i).b == wrapping_add8((b.b / 2) as u8, i.b),
        spec_apply_operator(46, b, i).r == wrapping_add8(b.r, (i.r / 2) as u8),
        spec_apply_operator(46, b, i).g == wrapping_add8(b.g, (i.g / 2) as u8),
        spec_apply_operator(46, b, i).b == wrapping_add8(b.b, (i.b / 2) as u8),
        spec_apply_operator(47, b, i).r == ((2 * b.r) % 256) as u8,
        spec_apply_operator(47, b, i).g == ((2 * b.g) % 256) as u8,
        spec_apply_operator(47, b, i).b == ((2 * b.b) % 256) as u8,
        spec_apply_operator(48, b, i).r == (b.r / 2) as u8,
        spec_apply_operator(48, b, i).g == (b.g / 2) as u8,
        spec_apply_operator(48, b, i).b == (b.b / 2) as u8,
        spec_apply_operator(49, b, i).r == saturating_add8(luma3(b), i.r),
        spec_apply_operator(49, b, i).g == saturating_add8(luma3(b), i.g),
        spec_apply_operator(49, b, i).b == saturating_add8(luma3(b), i.b),
{
}

/// Operators 50 to 59, in order: `sat_reverse_sub`, `add_half_half`, `sub_half_half`,
/// `sat_mult_2x`, `sq_diff`, `weight_7_1`, `weight_1_7`, `weight_3_5`, `weight_5_3`,
/// `weight_15_1`.
pub proof fn lemma_operators_50_to_59(b: Color, i: Color)
    ensures
        spec_apply_operator(50, b, i).r == saturating_sub8(i.r, b.r),
        spec_apply_operator(50, b, i).g == saturating_sub8(i.g, b.g),
        spec_apply_operator(50, b, i).b == saturating_sub8(i.b, b.b),
        spec_apply_operator(51, b, i).r == (b.r / 2 + i.r / 2) as u8,
        spec_apply_operator(51, b, i).g == (b.g / 2 + i.g / 2) as u8,
        spec_apply_operator(51, b, i).b == (b.b / 2 + i.b / 2) as u8,
        spec_apply_operator(52, b, i).r == wrapping_sub8((b.r / 2) as u8, (i.r / 2) as u8),
        spec_apply_operator(52, b, i).g == wrapping_sub8((b.g / 2) as u8, (i.g / 2) as u8),
        spec_apply_operator(52, b, i).b == wrapping_sub8((b.b / 2) as u8, (i.b / 2) as u8),
        spec_apply_operator(53, b, i).r == min_int((b.r * i.r * 2) / 255, 255) as u8,
        spec_apply_operator(53, b, i).g == min_int((b.g * i.g * 2) / 255, 255) as u8,
        spec_apply_operator(53, b, i).b == min_int((b.b * i.b * 2) / 255, 255) as u8,
        spec_apply_operator(54, b, i).r == sq_diff8(b.r, i.r),
        spec_apply_operator(54, b, i).g == sq_diff8(b.g, i.g),
        spec_apply_operator(54, b, i).b == sq_diff8(b.b, i.b),
        spec_apply_operator(55, b, i).r == ((7 * b.r + 1 * i.r) / 8) as u8,
        spec_apply_operator(55, b, i).g == ((7 * b.g + 1 * i.g) / 8) as u8,
        spec_apply_operator(55, b, i).b == ((7 * b.b + 1 * i.b) / 8) as u8,
        spec_apply_operator(56, b, i).r == ((1 * b.r + 7 * i.r) / 8) as u8,
        spec_apply_operator(56, b, i).g == ((1 * b.g + 7 * i.g) / 8) as u8,
        spec_apply_operator(56, b, i).b == ((1 * b.b + 7 * i.b) / 8) as u8,
        spec_apply_operator(57, b, i).r == ((3 * b.r + 5 * i.r) / 8) as u8,
        spec_apply_operator(57, b, i).g == ((3 * b.g + 5 * i.g) / 8) as u8,
        spec_apply_operator(57, b, i).b == ((3 * b.b + 5 * i.b) / 8) as u8,
        spec_apply_operator(58, b, i).r == ((5 * b.r + 3 * i.r) / 8) as u8,
        spec_apply_operator(58, b, i).g == ((5 * b.g + 3 * i.g) / 8) as u8,
        spec_apply_operator(58, b, i).b == ((5 * b.b + 3 * i.b) / 8) as u8,
        spec_apply_operator(59, b, i).r == ((15 * b.r + 1 * i.r) / 16) as u8,
        spec_apply_operator(59, b, i).g == ((15 * b.g + 1 * i.g) / 16) as u8,
        spec_apply_operator(59, b, i).b == ((15 * b.b + 1 * i.b) / 16) as u8,
{
}

/// Operators 60 to 69, in order: `color_dodge_approx`, `color_burn_approx`,
/// `hard_light_approx`, `linear_burn_approx`, `linear_light_approx`, `cross_add`,
/// `cross_sub`, `cross_avg`, `cross_max`, `cross_min`.
pub proof fn lemma_operators_60_to_69(b: Color, i: Color)
    ensures
        spec_apply_operator(60, b, i).r == color_dodge8(b.r, i.r),
        spec_apply_operator(60, b, i).g == color_dodge8(b.g, i.g),
        spec_apply_operator(60, b, i).b == color_dodge8(b.b, i.b),
        spec_apply_operator(61, b, i).r == color_burn8(b.r, i.r),
        spec_apply_operator(61, b, i).g == color_burn8(b.g, i.g),
        spec_apply_operator(61, b, i).b == color_burn8(b.b, i.b),
        spec_apply_operator(62, b, i).r == hard_light8(b.r, i.r),
        spec_apply_operator(62, b, i).g == hard_light8(b.g, i.g),
        spec_apply_operator(62, b, i).b == hard_light8(b.b, i.b),
        spec_apply_operator(63, b, i).r == saturating_sub8(saturating_add8(b.r, i.r), 255),
        spec_apply_operator(63, b, i).g == saturating_sub8(saturating_add8(b.g, i.g), 255),
        spec_apply_operator(63, b, i).b == saturating_sub8(saturating_add8(b.b, i.b), 255),
        spec_apply_operator(64, b, i).r == linear_light8(b.r, i.r),
        spec_apply_operator(64, b, i).g == linear_light8(b.g, i.g),
        spec_apply_operator(64, b, i).b == linear_light8(b.b, i.b),
        spec_apply_operator(65, b, i).r == wrapping_add8(b.r, i.g),
        spec_apply_operator(65, b, i).g == wrapping_add8(b.g, i.b),
        spec_apply_operator(65, b, i).b == wrapping_add8(b.b, i.r),
        spec_apply_operator(66, b, i).r == wrapping_sub8(b.r, i.g),
        spec_apply_operator(66, b, i).g == wrapping_sub8(b.g, i.b),
        spec_apply_operator(66, b, i).b == wrapping_sub8(b.b, i.r),
        spec_apply_operator(67, b, i).r == ((b.r + i.g) / 2) as u8,
        spec_apply_operator(67, b, i).g == ((b.g + i.b) / 2) as u8,
        spec_apply_operator(67, b, i).b == ((b.b + i.r) / 2) as u8,
        spec_apply_operator(68, b, i).r == max8(b.r, i.g),
        spec_apply_operator(68, b, i).g == max8(b.g, i.b),
        spec_apply_operator(68, b, i).b == max8(b.b, i.r),
        spec_apply_operator(69, b, i).r == min8(b.r, i.g),
        spec_apply_operator(69, b, i).g == min8(b.g, i.b),
        spec_apply_operator(69, b, i).b == min8(b.b, i.r),
{
}

/// Operators 70 to 79, in order: `xor_cross`, `and_cross`, `or_cross`, `shl_cross`,
/// `shr_cross`, `mod_add`, `mod_sub`, `mod_div`, `posterize_4_b`, `posterize_4_i`.
pub proof fn lemma_operators_70_to_79(b: Color, i: Color)
    ensures
        spec_apply_operator(70, b, i).r == b.r ^ i.g,
        spec_apply_operator(70, b, i).g == b.g ^ i.b,
        spec_apply_operator(70, b, i).b == b.b ^ i.r,
        spec_apply_operator(71, b, i).r == b.r & i.g,
        spec_apply_operator(71, b, i).g == b.g & i.b,
        spec_apply_operator(71, b, i).b == b.b & i.r,
        spec_apply_operator(72, b, i).r == b.r | i.g,
        spec_apply_operator(72, b, i).g == b.g | i.b,
        spec_apply_operator(72, b, i).b == b.b | i.r,
        spec_apply_operator(73, b, i).r == shl8(b.r, (i.g % 8) as nat),
        spec_apply_operator(73, b, i).g == shl8(b.g, (i.b % 8) as nat),
        spec_apply_operator(73, b, i).b == shl8(b.b, (i.r % 8) as nat),
        spec_apply_operator(74, b, i).r == (b.r as nat / pow2((i.g % 8) as nat)) as u8,
        spec_apply_operator(74, b, i).g == (b.g as nat / pow2((i.b % 8) as nat)) as u8,
        spec_apply_operator(74, b, i).b == (b.b as nat / pow2((i.r % 8) as nat)) as u8,
        spec_apply_operator(75, b, i).r == wrapping_add8(b.r, (i.r % 64) as u8),
        spec_apply_operator(75, b, i).g == wrapping_add8(b.g, (i.g % 64) as u8),
        spec_apply_operator(75, b, i).b == wrapping_add8(b.b, (i.b % 64) as u8),
        spec_apply_operator(76, b, i).r == wrapping_sub8(b.r, (i.r % 64) as u8),
        spec_apply_operator(76, b, i).g == wrapping_sub8(b.g, (i.g % 64) as u8),
        spec_apply_operator(76, b, i).b == wrapping_sub8(b.b, (i.b % 64) as u8),
        spec_apply_operator(77, b, i).r == (b.r as int / (i.r as int / 16 + 1)) as u8,
        spec_apply_operator(77, b, i).g == (b.g as int / (i.g as int / 16 + 1)) as u8,
        spec_apply_operator(77, b, i).b == (b.b as int / (i.b as int / 16 + 1)) as u8,
        spec_apply_operator(78, b, i).r == b.r & 0xC0,
        spec_apply_operator(78, b, i).g == b.g & 0xC0,
        spec_apply_operator(78, b, i).b == b.b & 0xC0,
        spec_apply_operator(79, b, i).r == i.r & 0xC0,
        spec_apply_operator(79, b, i).g == i.g & 0xC0,
        spec_apply_operator(79, b, i).b == i.b & 0xC0,
{
}

/// Operators 80 to 89, in order: `posterize_8_b`, `posterize_8_i`, `thresh_128_b`,
/// `thresh_128_i`, `thresh_avg`, `gray_avg_b`, `gray_avg_i`, `gray_bt709_b`,
/// `gray_bt709_i`, `input_luma_to_base`.
pub proof fn lemma_operators_80_to_89(b: Color, i: Color)
    ensures
        spec_apply_operator(80, b, i).r == b.r & 0xE0,
        spec_apply_operator(80, b, i).g == b.g & 0xE0,
        spec_apply_operator(80, b, i).b == b.b & 0xE0,
        spec_apply_operator(81, b, i).r == i.r & 0xE0,
        spec_apply_operator(81, b, i).g == i.g & 0xE0,
        spec_apply_operator(81, b, i).b == i.b & 0xE0,
        spec_apply_operator(82, b, i).r == threshold8(b.r),
        spec_apply_operator(82, b, i).g == threshold8(b.g),
        spec_apply_operator(82, b, i).b == threshold8(b.b),
        spec_apply_operator(83, b, i).r == threshold8(i.r),
        spec_apply_operator(83, b, i).g == threshold8(i.g),
        spec_apply_operator(83, b, i).b == threshold8(i.b),
        spec_apply_operator(84, b, i).r == (if b.r + i.r > 255 { 255u8 } else { 0u8 }),
        spec_apply_operator(84, b, i).g == (if b.g + i.g > 255 { 255u8 } else { 0u8 }),
        spec_apply_operator(84, b, i).b == (if b.b + i.b > 255 { 255u8 } else { 0u8 }),
        spec_apply_operator(85, b, i).r == luma3(b),
        spec_apply_operator(85, b, i).g == luma3(b),
        spec_apply_operator(85, b, i).b == luma3(b),
        spec_apply_operator(86, b, i).r == luma3(i),
        spec_apply_operator(86, b, i).g == luma3(i),
        spec_apply_operator(86, b, i).b == luma3(i),
        spec_apply_operator(87, b, i).r == luma709(b),
        spec_apply_operator(87, b, i).g == luma709(b),
        spec_apply_operator(87, b, i).b == luma709(b),
        spec_apply_operator(88, b, i).r == luma709(i),
        spec_apply_operator(88, b, i).g == luma709(i),
        spec_apply_operator(88, b, i).b == luma709(i),
        spec_apply_operator(89, b, i).r == saturating_add8(luma3(i), b.r),
        spec_apply_operator(89, b, i).g == saturating_add8(luma3(i), b.g),
        spec_apply_operator(89, b, i).b == saturating_add8(luma3(i), b.b),
{
}

/// Operators 90 to 99, in order: `amplify_diff`, `dampen_diff`, `not_xor_half`,
/// `rot_left_b`, `rot_right_b`, `extreme_contrast_b`, `extreme_contrast_i`, `dist_rg_add`,
/// `dist_gb_add`, `dist_br_add`.
pub proof fn lemma_operators_90_to_99(b: Color, i: Color)
    ensures
        spec_apply_operator(90, b, i).r == wrapping_add8(b.r, ((2 * wrapping_sub8(b.r, i.r)) % 256) as u8),
        spec_apply_operator(90, b, i).g == wrapping_add8(b.g, ((2 * wrapping_sub8(b.g, i.g)) % 256) as u8),
        spec_apply_operator(90, b, i).b == wrapping_add8(b.b, ((2 * wrapping_sub8(b.b, i.b)) % 256) as u8),
        spec_apply_operator(91, b, i).r == wrapping_add8(b.r, (wrapping_sub8(i.r, b.r) / 4) as u8),
        spec_apply_operator(91, b, i).g == wrapping_add8(b.g, (wrapping_sub8(i.g, b.g) / 4) as u8),
        spec_apply_operator(91, b, i).b == wrapping_add8(b.b, (wrapping_sub8(i.b, b.b) / 4) as u8),
        spec_apply_operator(92, b, i).r == (255 - (b.r ^ (i.r / 2) as u8)) as u8,
        spec_apply_operator(92, b, i).g == (255 - (b.g ^ (i.g / 2) as u8)) as u8,
        spec_apply_operator(92, b, i).b == (255 - (b.b ^ (i.b / 2) as u8)) as u8,
        spec_apply_operator(93, b, i).r == ((2 * b.r) % 256 + b.r / 128) as u8,
        spec_apply_operator(93, b, i).g == ((2 * b.g) % 256 + b.g / 128) as u8,
        spec_apply_operator(93, b, i).b == ((2 * b.b) % 256 + b.b / 128) as u8,
        spec_apply_operator(94, b, i).r == (b.r / 2 + (b.r % 2) * 128) as u8,
        spec_apply_operator(94, b, i).g == (b.g / 2 + (b.g % 2) * 128) as u8,
        spec_apply_operator(94, b, i).b == (b.b / 2 + (b.b % 2) * 128) as u8,
        spec_apply_operator(95, b, i).r == contrast8(b.r),
        spec_apply_operator(95, b, i).g == contrast8(b.g),
        spec_apply_operator(95, b, i).b == contrast8(b.b),
        spec_apply_operator(96, b, i).r == contrast8(i.r),
        spec_apply_operator(96, b, i).g == contrast8(i.g),
        spec_apply_operator(96, b, i).b == contrast8(i.b),
        spec_apply_operator(97, b, i).r == wrapping_add8(b.r, abs_diff8(b.g, i.g)),
        spec_apply_operator(97, b, i).g == wrapping_add8(b.g, abs_diff8(b.b, i.b)),
        spec_apply_operator(97, b, i).b == wrapping_add8(b.b, abs_diff8(b.r, i.r)),
        spec_apply_operator(98, b, i).r == wrapping_add8(b.r, abs_diff8(b.b, i.b)),
        spec_apply_operator(98, b, i).g == wrapping_add8(b.g, abs_diff8(b.r, i.r)),
        spec_apply_operator(98, b, i).b == wrapping_add8(b.b, abs_diff8(b.g, i.g)),
        spec_apply_operator(99, b, i).r == wrapping_add8(b.r, abs_diff8(b.r, i.r)),
        spec_apply_operator(99, b, i).g == wrapping_add8(b.g, abs_diff8(b.g, i.g)),
        spec_apply_operator(99, b, i).b == wrapping_add8(b.b, abs_diff8(b.b, i.b)),
{
}


/// One channel of bitwise and: no larger than either argument, and idempotent.
proof fn lemma_and8(x: u8, y: u8)
    ensures
        x & y <= x,
        x & y <= y,
        x & x == x,
        x & 0 == 0,
{
    assert(x & y <= x) by (bit_vector);
    assert(x & y <= y) by (bit_vector);
    assert(x & x == x) by (bit_vector);
    assert(x & 0 == 0) by (bit_vector);
}

/// Operator 20 is the channel-wise bitwise and: each channel of the result is the
/// and of the two channels, so no larger than either; and-ing a colour with
/// itself gives it back, and with black gives black.
pub proof fn lemma_operator_and(b: Color, i: Color)
    ensures
        spec_apply_operator(20, b, i).r == b.r & i.r,
        spec_apply_operator(20, b, i).g == b.g & i.g,
        spec_apply_operator(20, b, i).b == b.b & i.b,
        spec_apply_operator(20, b, i).r <= b.r && spec_apply_operator(20, b, i).r <= i.r,
        spec_apply_operator(20, b, i).g <= b.g && spec_apply_operator(20, b, i).g <= i.g,
        spec_apply_operator(20, b, i).b <= b.b && spec_apply_operator(20, b, i).b <= i.b,
        spec_apply_operator(20, b, b) == b,
        spec_apply_operator(20, b, Color { r: 0, g: 0, b: 0 }) == (Color { r: 0, g: 0, b: 0 }),
{
    lemma_operators_20_to_29(b, i);
    lemma_operators_20_to_29(b, b);
    lemma_operators_20_to_29(b, Color { r: 0, g: 0, b: 0 });
    lemma_and8(b.r, i.r);
    lemma_and8(b.g, i.g);
    lemma_and8(b.b, i.b);
}

/// One channel of bitwise or: no smaller than either argument, and idempotent.
proof fn lemma_or8(x: u8, y: u8)
    ensures
        x | y >= x,
        x | y >= y,
        x | x == x,
{
    assert(x | y >= x) by (bit_vector);
    assert(x | y >= y) by (bit_vector);
    assert(x | x == x) by (bit_vector);
}

/// Operator 21 is the channel-wise bitwise or: each channel of the result is the or
/// of the two channels, so no smaller than either; or-ing a colour with itself
/// gives it back.
pub proof fn lemma_operator_or(b: Color, i: Color)
    ensures
        spec_apply_operator(21, b, i).r == b.r | i.r,
        spec_apply_operator(21, b, i).g == b.g | i.g,
        spec_apply_operator(21, b, i).b == b.b | i.b,
        spec_apply_operator(21, b, i).r >= b.r && spec_apply_operator(21, b, i).r >= i.r,
        spec_apply_operator(21, b, i).g >= b.g && spec_apply_operator(21, b, i).g >= i.g,
        spec_apply_operator(21, b, i).b >= b.b && spec_apply_operator(21, b, i).b >= i.b,
        spec_apply_operator(21, b, b) == b,
{
    lemma_operators_20_to_29(b, i);
    lemma_operators_20_to_29(b, b);
    lemma_or8(b.r, i.r);
    lemma_or8(b.g, i.g);
    lemma_or8(b.b, i.b);
}

/// One channel of exclusive or: undone by a second one, and zero against itself.
proof fn lemma_xor8(x: u8, y: u8)
    ensures
        (x ^ y) ^ y == x,
        x ^ x == 0,
{
    assert((x ^ y) ^ y == x) by (bit_vector);
    assert(x ^ x == 0) by (bit_vector);
}

/// Operator 19 is the channel-wise exclusive or: applying it twice with the same
/// input gives the base back, and a colour against itself gives black.
pub proof fn lemma_operator_xor(b: Color, i: Color)
    ensures
        spec_apply_operator(19, spec_apply_operator(19, b, i), i) == b,
        spec_apply_operator(19, b, b) == (Color { r: 0, g: 0, b: 0 }),
{
    lemma_operators_10_to_19(b, i);
    lemma_operators_10_to_19(spec_apply_operator(19, b, i), i);
    lemma_operators_10_to_19(b, b);
    lemma_xor8(b.r, i.r);
    lemma_xor8(b.g, i.g);
    lemma_xor8(b.b, i.b);
}

/// Operator 17 is the complement of the input: each channel of the result and of
/// the input add up to 255, and the base plays no part.
pub proof fn lemma_operator_invert_input(b: Color, other: Color, i: Color)
    ensures
        spec_apply_operator(17, b, i).r + i.r == 255,
        spec_apply_operator(17, b, i).g + i.g == 255,
        spec_apply_operator(17, b, i).b + i.b == 255,
        spec_apply_operator(17, b, i) == spec_apply_operator(17, other, i),
{
    lemma_operators_10_to_19(b, i);
    lemma_operators_10_to_19(other, i);
}

/// Operator 16 is the complement of the base: each channel of the result and of
/// the base add up to 255, and the input plays no part.
pub proof fn lemma_operator_invert_base(b: Color, i: Color, other: Color)
    ensures
        spec_apply_operator(16, b, i).r + b.r == 255,
        spec_apply_operator(16, b, i).g + b.g == 255,
        spec_apply_operator(16, b, i).b + b.b == 255,
        spec_apply_operator(16, b, i) == spec_apply_operator(16, b, other),
{
    lemma_operators_10_to_19(b, i);
    lemma_operators_10_to_19(b, other);
}

/// Operators 5 and 6 pass one argument through: 5 gives the base, 6 the input.
pub proof fn lemma_operator_pass(b: Color, i: Color)
    ensures
        spec_apply_operator(5, b, i) == b,
        spec_apply_operator(6, b, i) == i,
{
    lemma_operators_0_to_9(b, i);
}
} // verus!
