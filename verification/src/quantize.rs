//! Quantizing: from the scaled values of the frequency terms to the small
//! integers that the hash holds.
//!
//! A scaled value is the whole number that the floor of a scaled measurement
//! gives; here it is cut to the range of its digit and packed with its
//! neighbours into one number.
use vstd::prelude::*;

use crate::Component;

verus! {

/// The highest digit that the largest frequency term can be given.
pub const MAX_DIGIT_TOP: usize = 82;

/// The highest digit that one channel of a frequency term can be given.
pub const AC_DIGIT_TOP: usize = 18;

/// `scaled` cut to the range `0..=top`.
pub open spec fn clamped(scaled: int, top: int) -> int {
    if scaled < 0 {
        0
    } else if scaled > top {
        top
    } else {
        scaled
    }
}

/// The size flag of a component: `(x - 1) + (y - 1) * 9`.
pub open spec fn size_flag_of(component: Component) -> int {
    (component@.0 - 1) + (component@.1 - 1) * 9
}

/// The digit that stands for the largest frequency term: 0 where there is no
/// frequency term, else `max_scaled` cut to `0..=82`.
pub open spec fn max_digit_of(max_scaled: int, ac_len: nat) -> int {
    if ac_len == 0 {
        0
    } else {
        clamped(max_scaled, 82)
    }
}

/// The number that stands for an average colour: red in the top byte of
/// three, green in the middle, blue in the low one.
pub open spec fn dc_value_of(dc: (u8, u8, u8)) -> int {
    dc.0 * 65536 + dc.1 * 256 + dc.2
}

/// The number that stands for a frequency term: its three channel digits,
/// each cut to `0..=18`, as the digits of a number in base 19.
pub open spec fn ac_value_of(term: (i64, i64, i64)) -> int {
    clamped(term.0 as int, 18) * 361 + clamped(term.1 as int, 18) * 19 + clamped(
        term.2 as int,
        18,
    )
}

/// `scaled` cut to `0..=top`.
fn clamp(scaled: i64, top: usize) -> (digit: usize)
    requires
        top <= 82,
    ensures
        digit == clamped(scaled as int, top as int),
        digit <= top,
{
    if scaled < 0 {
        0
    } else if scaled > top as i64 {
        top
    } else {
        scaled as usize
    }
}

/// The size flag of `component`, which is at most 80.
pub fn size_flag(component: Component) -> (flag: usize)
    ensures
        flag == size_flag_of(component),
        flag <= 80,
        component.wf(),
{
    let x = component.x();
    let y = component.y();
    (x as usize - 1) + (y as usize - 1) * 9
}

/// The digit of the largest frequency term, from its scaled value
/// `floor(max * 166 - 0.5)`: that value cut to `0..=82`.
pub fn quantize_max(max_scaled: i64) -> (digit: usize)
    ensures
        digit == clamped(max_scaled as int, 82),
        digit <= 82,
{
    clamp(max_scaled, MAX_DIGIT_TOP)
}

/// The digit of one channel of a frequency term, from its scaled value
/// `floor(sign(t) * sqrt(|t|) * 9 + 9.5)`: that value cut to `0..=18`.
pub fn quantize_ac(scaled: i64) -> (digit: usize)
    ensures
        digit == clamped(scaled as int, 18),
        digit <= 18,
{
    clamp(scaled, AC_DIGIT_TOP)
}

/// Packs the three bytes of the average colour into one number below `2^24`.
pub fn encode_dc(dc: (u8, u8, u8)) -> (value: usize)
    ensures
        value == dc_value_of(dc),
        value < 16777216,
{
    let r = dc.0 as usize;
    let g = dc.1 as usize;
    let b = dc.2 as usize;
    r * 65536 + g * 256 + b
}

/// Packs the scaled channels of one frequency term into one number below
/// `19^3`.
pub fn encode_ac(term: (i64, i64, i64)) -> (value: usize)
    ensures
        value == ac_value_of(term),
        value < 6859,
{
    let r = quantize_ac(term.0);
    let g = quantize_ac(term.1);
    let b = quantize_ac(term.2);
    r * 19 * 19 + g * 19 + b
}

/// The packed average colour is the colour's bytes side by side: shifting and
/// masking gives each byte back.
pub proof fn lemma_dc_bytes(dc: (u8, u8, u8))
    ensures
        0 <= dc_value_of(dc) < 16777216,
        dc_value_of(dc) == ((dc.0 as u32) << 16 | (dc.1 as u32) << 8 | dc.2 as u32),
        (dc_value_of(dc) as u32 >> 16) & 0xff == dc.0,
        (dc_value_of(dc) as u32 >> 8) & 0xff == dc.1,
        dc_value_of(dc) as u32 & 0xff == dc.2,
{
    let r = dc.0 as u32;
    let g = dc.1 as u32;
    let b = dc.2 as u32;
    let v: u32 = (r * 65536 + g * 256 + b) as u32;
    assert(v == (r << 16 | g << 8 | b) && (v >> 16) & 0xff == r && (v >> 8) & 0xff == g && v & 0xff
        == b) by (bit_vector)
        requires
            r < 256,
            g < 256,
            b < 256,
            v == r * 65536 + g * 256 + b,
    ;
}

} // verus!
