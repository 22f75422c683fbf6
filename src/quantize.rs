use vstd::arithmetic::div_mod::{
    lemma_div_is_ordered, lemma_div_multiples_vanish, lemma_fundamental_div_mod_converse,
    lemma_mod_multiples_basic,
};
use vstd::arithmetic::mul::lemma_mul_inequality;
use vstd::prelude::*;

verus! {

/// An RGB colour with 8-bit channels.
#[derive(Clone, Copy, Debug, PartialEq, Eq, Structural)]
pub struct Colour {
    pub red: u8,
    pub green: u8,
    pub blue: u8,
}

/// Number of levels per channel that the converter uses unless told otherwise.
pub const DEFAULT_COMBINATIONS: u8 = 3;

/// Distance between two neighbouring levels when a channel may take `n` levels.
pub open spec fn block_size_of(n: u8) -> int {
    255int / (n as int)
}

/// `num / step` rounded to the nearest integer, ties upward.
pub open spec fn nearest_quotient(num: int, step: int) -> int {
    (2 * num + step) / (2 * step)
}

/// `num` rounded to the nearest multiple of `step`, clamped to 255.
pub open spec fn round_spec(num: int, step: int) -> int {
    let m = nearest_quotient(num, step) * step;
    if m > 255 {
        255
    } else {
        m
    }
}

/// A channel quantized to `n` levels: the rounded value itself, or in bus
/// mode the index of its level.
pub open spec fn quantize_spec(value: u8, n: u8, bus_mode: bool) -> int {
    let rounded = round_spec(value as int, block_size_of(n));
    if bus_mode {
        rounded / block_size_of(n)
    } else {
        rounded
    }
}

/// Rounds `num` to the nearest multiple of `to_nearest` (ties upward); a
/// multiple above 255 becomes 255.
pub fn round(num: u8, to_nearest: u8) -> (r: u8)
    requires
        to_nearest > 0,
    ensures
        r == round_spec(num as int, to_nearest as int),
{
    let step: u32 = to_nearest as u32;
    let q: u32 = (2 * num as u32 + step) / (2 * step);
    assert(q <= 765) by (nonlinear_arith)
        requires
            q == (2 * num as u32 + step) / (2 * step),
            step >= 1,
            num <= 255,
    ;
    assert(q * step <= 765 * 255) by (nonlinear_arith)
        requires
            q <= 765,
            step <= 255,
    ;
    let m: u32 = q * step;
    if m > 255 {
        255
    } else {
        m as u8
    }
}


/// Whether rounding `value` to the nearest level of `n` overshoots 255, so
/// that the result is clamped.
pub open spec fn is_clamped(value: u8, n: u8) -> bool {
    nearest_quotient(value as int, block_size_of(n)) * block_size_of(n) > 255
}

/// A colour with each channel quantized to `n` levels.
pub open spec fn quantize_colour_spec(c: Colour, n: u8, bus_mode: bool) -> Colour {
    Colour {
        red: quantize_spec(c.red, n, bus_mode) as u8,
        green: quantize_spec(c.green, n, bus_mode) as u8,
        blue: quantize_spec(c.blue, n, bus_mode) as u8,
    }
}

/// Quantizes one channel value to `n` levels. Outside bus mode the result is
/// the value rounded to the nearest multiple of `255 / n`, clamped to 255; in
/// bus mode it is that rounded value divided by `255 / n`, a level index in
/// `0..=n`.
pub fn quantize(value: u8, n: u8, bus_mode: bool) -> (r: u8)
    requires
        n > 0,
    ensures
        r == quantize_spec(value, n, bus_mode),
{
    let block_size: u8 = u8::MAX / n;
    proof {
        lemma_block_size_bounds(n);
    }
    let rounded = round(value, block_size);
    if bus_mode {
        rounded / block_size
    } else {
        rounded
    }
}

/// Quantizes each channel of `input` independently to `combinations` levels.
pub fn clamp_colour(input: Colour, combinations: u8, bus_mode: bool) -> (r: Colour)
    requires
        combinations > 0,
    ensures
        r == quantize_colour_spec(input, combinations, bus_mode),
{
    Colour {
        red: quantize(input.red, combinations, bus_mode),
        green: quantize(input.green, combinations, bus_mode),
        blue: quantize(input.blue, combinations, bus_mode),
    }
}

proof fn lemma_block_size_bounds(n: u8)
    requires
        n > 0,
    ensures
        1 <= block_size_of(n) <= 255,
{
    assert(1 <= 255int / (n as int) <= 255) by (nonlinear_arith)
        requires
            1 <= n <= 255,
    ;
}

proof fn lemma_nearest_of_multiple(q: int, step: int)
    requires
        q >= 0,
        step >= 1,
    ensures
        nearest_quotient(q * step, step) == q,
{
    assert(2 * (q * step) + step == q * (2 * step) + step) by (nonlinear_arith);
    lemma_fundamental_div_mod_converse(2 * (q * step) + step, 2 * step, q, step);
}

proof fn lemma_nearest_bounds(value: int, step: int)
    requires
        0 <= value,
        step >= 1,
    ensures
        nearest_quotient(value, step) >= 0,
{
    assert((2 * value + step) / (2 * step) >= 0) by (nonlinear_arith)
        requires
            2 * value + step >= 0,
            2 * step > 0,
    ;
}

/// With `n` levels, an expanded value is at most 255, and it is a multiple of
/// `255 / n` unless rounding overshot 255 and it was clamped to 255.
pub proof fn lemma_expanded_is_level(value: u8, n: u8)
    requires
        n > 0,
    ensures
        quantize_spec(value, n, false) <= 255,
        !is_clamped(value, n) ==> quantize_spec(value, n, false) % block_size_of(n) == 0,
        is_clamped(value, n) ==> quantize_spec(value, n, false) == 255,
{
    let b = block_size_of(n);
    lemma_block_size_bounds(n);
    let q = nearest_quotient(value as int, b);
    lemma_nearest_bounds(value as int, b);
    lemma_mod_multiples_basic(q, b);
}

/// Quantizing an already quantized (expanded) value with the same `n` gives
/// it back unchanged.
pub proof fn lemma_quantize_idempotent(value: u8, n: u8)
    requires
        n > 0,
    ensures
        quantize_spec(quantize_spec(value, n, false) as u8, n, false) == quantize_spec(
            value,
            n,
            false,
        ),
{
    let b = block_size_of(n);
    lemma_block_size_bounds(n);
    let q = nearest_quotient(value as int, b);
    let r = quantize_spec(value, n, false);
    lemma_nearest_bounds(value as int, b);
    lemma_nearest_bounds(r, b);
    if q * b > 255 {
        let top = nearest_quotient(255, b);
        lemma_div_is_ordered(2 * value + b, 2 * 255 + b, 2 * b);
        lemma_mul_inequality(q, top, b);
        assert(r == 255);
    } else {
        lemma_nearest_of_multiple(q, b);
        assert(r == q * b);
    }
}

/// Where no clamping happened, the expanded value is the bus index times
/// `255 / n`.
pub proof fn lemma_bus_index_times_block(value: u8, n: u8)
    requires
        n > 0,
        !is_clamped(value, n),
    ensures
        quantize_spec(value, n, false) == quantize_spec(value, n, true) * block_size_of(n),
{
    let b = block_size_of(n);
    lemma_block_size_bounds(n);
    let q = nearest_quotient(value as int, b);
    lemma_nearest_bounds(value as int, b);
    lemma_div_multiples_vanish(q, b);
    assert(q * b == b * q) by (nonlinear_arith);
}

} // verus!
