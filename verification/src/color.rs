//! The colour of a position: a hue on a wheel of 1530 steps, and the wheel's
//! colours at full saturation and value.
//!
//! The hue of a character, counted in sixths of a turn, is
//! `frequency * (column / spread + line) + 6 * seed / 256 + time_offset`.
//! A sixth of a turn is one sector of the wheel, 255 steps, so that every
//! step changes exactly one channel by one.

use crate::opts::Parameters;
use vstd::arithmetic::div_mod::{
    lemma_fundamental_div_mod_converse, lemma_hoist_over_denominator, lemma_mod_bound,
    lemma_mod_breakdown, lemma_mul_mod_noop_right,
};
use vstd::prelude::*;

verus! {

/// Steps in one sector of the hue wheel.
pub const SECTOR: u16 = 255;

/// Steps in one turn of the hue wheel.
pub const TURN: u16 = 1530;

/// A colour with one byte per channel.
#[derive(Clone, Copy, Debug, PartialEq, Eq, Structural)]
pub struct Rgb {
    pub r: u8,
    pub g: u8,
    pub b: u8,
}

/// The colour at step `hue` of the wheel: red at 0, then yellow, green, cyan,
/// blue and magenta at the sector borders, and a linear ramp of one channel
/// in between. This is the conversion from hue, saturation and value with
/// saturation and value at their maximum.
pub open spec fn wheel(hue: int) -> Rgb
    recommends
        0 <= hue < TURN,
{
    let ramp = (hue % 255) as u8;
    let fall = (255 - hue % 255) as u8;
    let sector = hue / 255;
    if sector == 0 {
        Rgb { r: 255, g: ramp, b: 0 }
    } else if sector == 1 {
        Rgb { r: fall, g: 255, b: 0 }
    } else if sector == 2 {
        Rgb { r: 0, g: 255, b: ramp }
    } else if sector == 3 {
        Rgb { r: 0, g: fall, b: 255 }
    } else if sector == 4 {
        Rgb { r: ramp, g: 0, b: 255 }
    } else {
        Rgb { r: 255, g: 0, b: fall }
    }
}

/// Wheel steps that line and column contribute:
/// `255 * frequency * (column / spread + line)`, rounded down once.
pub open spec fn position_steps(line: nat, column: nat, params: Parameters) -> nat {
    let spread = params.spread as nat;
    let frequency = params.frequency as nat;
    (255 * frequency * (1000 * column + line * spread)) / (1000 * spread)
}

/// Wheel steps that the seed contributes: 256 seeds make one turn.
pub open spec fn seed_steps(seed: nat) -> nat {
    seed * 1530 / 256
}

/// Wheel steps that a phase offset in thousandths contributes.
pub open spec fn time_steps(time_offset: nat) -> nat {
    255 * time_offset / 1000
}

/// The hue of a character, in steps of the wheel.
pub open spec fn hue(line: nat, column: nat, time_offset: nat, params: Parameters) -> nat {
    (position_steps(line, column, params) + seed_steps(params.seed as nat) + time_steps(
        time_offset,
    )) % 1530
}

/// The colour of a character.
pub open spec fn color_at(line: nat, column: nat, time_offset: nat, params: Parameters) -> Rgb {
    wheel(hue(line, column, time_offset, params) as int)
}

/// The absolute difference of two channels.
pub open spec fn channel_gap(a: u8, b: u8) -> int {
    if a <= b {
        b - a
    } else {
        a - b
    }
}

/// Sum of the channel differences of two colours.
pub open spec fn color_gap(a: Rgb, b: Rgb) -> int {
    channel_gap(a.r, b.r) + channel_gap(a.g, b.g) + channel_gap(a.b, b.b)
}

/// The colour at one step of the wheel.
pub fn hue_to_rgb(hue: u16) -> (rgb: Rgb)
    requires
        hue < TURN,
    ensures
        rgb == wheel(hue as int),
{
    let ramp: u8 = (hue % SECTOR) as u8;
    let fall: u8 = 255 - ramp;
    let sector: u16 = hue / SECTOR;
    if sector == 0 {
        Rgb { r: 255, g: ramp, b: 0 }
    } else if sector == 1 {
        Rgb { r: fall, g: 255, b: 0 }
    } else if sector == 2 {
        Rgb { r: 0, g: 255, b: ramp }
    } else if sector == 3 {
        Rgb { r: 0, g: fall, b: 255 }
    } else if sector == 4 {
        Rgb { r: ramp, g: 0, b: 255 }
    } else {
        Rgb { r: 255, g: 0, b: fall }
    }
}

/// Reducing the numerator modulo a whole number of turns of the denominator
/// keeps the quotient's place on the wheel.
proof fn lemma_quotient_on_wheel(numerator: int, denominator: int)
    requires
        0 <= numerator,
        0 < denominator,
    ensures
        (numerator % (denominator * 1530)) / denominator == (numerator / denominator) % 1530,
{
    lemma_mod_breakdown(numerator, denominator, 1530);
    let q = (numerator / denominator) % 1530;
    let r = numerator % denominator;
    lemma_mod_bound(numerator, denominator);
    assert(denominator * q == q * denominator) by (nonlinear_arith);
    lemma_fundamental_div_mod_converse(numerator % (denominator * 1530), denominator, q, r);
}

/// The hue of a character, in steps of the wheel.
pub fn hue_of(line: u64, column: u64, time_offset: u64, params: &Parameters) -> (h: u16)
    requires
        params.valid(),
    ensures
        h == hue(line as nat, column as nat, time_offset as nat, *params),
        h < TURN,
{
    let spread: u128 = params.spread as u128;
    let frequency: u128 = params.frequency as u128;
    let denominator: u128 = 1000 * spread;
    let modulus: u128 = denominator * 1530;
    let weight: u128 = 255 * frequency;
    assert((line as u128) * spread <= 0xffff_ffff_ffff_ffff * 0xffff_ffff) by (nonlinear_arith)
        requires
            line <= 0xffff_ffff_ffff_ffff,
            spread <= 0xffff_ffff,
    ;
    let place: u128 = 1000 * (column as u128) + (line as u128) * spread;
    let reduced: u128 = place % modulus;
    assert(weight * reduced <= 255 * 0xffff_ffff * (1530 * 1000 * 0xffff_ffff)) by (nonlinear_arith)
        requires
            weight <= 255 * 0xffff_ffff,
            reduced <= 1530 * 1000 * 0xffff_ffff,
    ;
    let position: u128 = (weight * reduced % modulus) / denominator;
    proof {
        let numerator = (weight * place) as int;
        assert(0 <= numerator) by (nonlinear_arith)
            requires
                numerator == weight * place,
        ;
        lemma_mul_mod_noop_right(weight as int, place as int, modulus as int);
        lemma_quotient_on_wheel(numerator, denominator as int);
    }
    let seed: u128 = (params.seed as u128) * 1530 / 256;
    let time: u128 = 255 * (time_offset as u128) / 1000;
    let total: u128 = (position + seed + time) % 1530;
    total as u16
}

/// The colour of the character at `column` of `line`, with the animation's
/// phase at `time_offset` thousandths.
pub fn compute(line: u64, column: u64, time_offset: u64, params: &Parameters) -> (rgb: Rgb)
    requires
        params.valid(),
    ensures
        rgb == color_at(line as nat, column as nat, time_offset as nat, *params),
{
    hue_to_rgb(hue_of(line, column, time_offset, params))
}

/// Every colour of the wheel has one channel at 255 and one at 0: saturation
/// and value are at their maximum.
pub proof fn lemma_wheel_saturated(hue: int)
    requires
        0 <= hue < TURN,
    ensures
        wheel(hue).r == 255 || wheel(hue).g == 255 || wheel(hue).b == 255,
        wheel(hue).r == 0 || wheel(hue).g == 0 || wheel(hue).b == 0,
{
}

/// The wheel is continuous, also where it wraps: one step further, exactly
/// one channel has moved, and by one.
pub proof fn lemma_wheel_continuous(hue: int)
    requires
        0 <= hue < TURN,
    ensures
        color_gap(wheel(hue), wheel((hue + 1) % 1530)) == 1,
{
}

/// Adding whole turns of the denominator to a numerator moves the quotient
/// by whole turns of the wheel.
proof fn lemma_whole_turns(numerator: int, denominator: int, turns: int)
    requires
        0 <= numerator,
        0 < denominator,
        0 <= turns,
    ensures
        ((numerator + turns * 1530 * denominator) / denominator) % 1530 == (numerator
            / denominator) % 1530,
{
    lemma_hoist_over_denominator(numerator, turns * 1530, denominator as nat);
}

/// The hue is periodic in the line: `lines` further down the colour is the
/// same whenever `frequency * lines` is a whole number of turns, that is a
/// multiple of six units.
pub proof fn lemma_hue_line_period(
    line: nat,
    column: nat,
    time_offset: nat,
    params: Parameters,
    lines: nat,
)
    requires
        params.valid(),
        (params.frequency * lines) % 6000 == 0,
    ensures
        hue(line + lines, column, time_offset, params) == hue(line, column, time_offset, params),
{
    let spread = params.spread as int;
    let frequency = params.frequency as int;
    let turns = (frequency * lines) / 6000;
    let numerator = 255 * frequency * (1000 * column + line * spread);
    let shifted = 255 * frequency * (1000 * column + (line + lines) * spread);
    assert(shifted == numerator + turns * 1530 * (1000 * spread)) by (nonlinear_arith)
        requires
            frequency * lines == 6000 * turns,
            numerator == 255 * frequency * (1000 * column + line * spread),
            shifted == 255 * frequency * (1000 * column + (line + lines) * spread),
    ;
    assert(0 <= numerator && 0 <= turns) by (nonlinear_arith)
        requires
            numerator == 255 * frequency * (1000 * column + line * spread),
            turns == (frequency * lines) / 6000,
            0 <= frequency,
            0 <= spread,
    ;
    lemma_whole_turns(numerator, 1000 * spread, turns);
}

/// The hue is periodic in the column: `columns` further right the colour is
/// the same whenever `frequency * columns / spread` is a whole number of
/// turns, that is a multiple of six units.
pub proof fn lemma_hue_column_period(
    line: nat,
    column: nat,
    time_offset: nat,
    params: Parameters,
    columns: nat,
    turns: nat,
)
    requires
        params.valid(),
        params.frequency * columns == 6 * turns * params.spread,
    ensures
        hue(line, column + columns, time_offset, params) == hue(line, column, time_offset, params),
{
    let spread = params.spread as int;
    let frequency = params.frequency as int;
    let numerator = 255 * frequency * (1000 * column + line * spread);
    let shifted = 255 * frequency * (1000 * (column + columns) + line * spread);
    assert(shifted == numerator + turns * 1530 * (1000 * spread)) by (nonlinear_arith)
        requires
            frequency * columns == 6 * turns * spread,
            numerator == 255 * frequency * (1000 * column + line * spread),
            shifted == 255 * frequency * (1000 * (column + columns) + line * spread),
    ;
    assert(0 <= numerator) by (nonlinear_arith)
        requires
            numerator == 255 * frequency * (1000 * column + line * spread),
            0 <= frequency,
            0 <= spread,
    ;
    lemma_whole_turns(numerator, 1000 * spread, turns as int);
}

/// The hue is periodic in the phase offset, with a period of six units.
pub proof fn lemma_hue_time_period(
    line: nat,
    column: nat,
    time_offset: nat,
    params: Parameters,
    turns: nat,
)
    ensures
        hue(line, column, time_offset + 6000 * turns, params) == hue(
            line,
            column,
            time_offset,
            params,
        ),
{
    assert(time_steps(time_offset + 6000 * turns) == time_steps(time_offset) + 1530 * turns);
}

/// Of two fractions with positive denominators, the one that is not the
/// smaller has a whole part that is not the smaller.
proof fn lemma_fractions_ordered(a: int, b: int, c: int, d: int)
    by (nonlinear_arith)
    requires
        0 <= a,
        0 <= c,
        0 < b,
        0 < d,
        a * d <= c * b,
    ensures
        a / b <= c / d,
{
    let low = a / b;
    let high = c / d;
    if high < low {
        assert(d * low * b <= a * d);
    }
}

/// Further down and further right the rainbow never runs backwards: the
/// steps that a place contributes grow with its line and its column.
pub proof fn lemma_position_advances(
    line: nat,
    column: nat,
    lines: nat,
    columns: nat,
    params: Parameters,
)
    requires
        params.valid(),
    ensures
        position_steps(line, column, params) <= position_steps(
            line + lines,
            column + columns,
            params,
        ),
{
    let spread = params.spread as int;
    let frequency = params.frequency as int;
    let here = 255 * frequency * (1000 * column + line * spread);
    let there = 255 * frequency * (1000 * (column + columns) + (line + lines) * spread);
    assert(0 <= here <= there) by (nonlinear_arith)
        requires
            here == 255 * frequency * (1000 * column + line * spread),
            there == 255 * frequency * (1000 * (column + columns) + (line + lines) * spread),
            0 <= frequency,
            0 <= spread,
    ;
    vstd::arithmetic::div_mod::lemma_div_is_ordered(here, there, 1000 * spread);
}

/// The quotient of a sum is the sum of the quotients, or one more.
proof fn lemma_quotient_of_sum(a: int, b: int, d: int)
    by (nonlinear_arith)
    requires
        0 <= a,
        0 <= b,
        0 < d,
    ensures
        a / d + b / d <= (a + b) / d <= a / d + b / d + 1,
{
    assert(a == d * (a / d) + a % d && 0 <= a % d < d);
    assert(b == d * (b / d) + b % d && 0 <= b % d < d);
    assert(a + b == d * ((a + b) / d) + (a + b) % d && 0 <= (a + b) % d < d);
    assert(d * ((a + b) / d - a / d - b / d) == a % d + b % d - (a + b) % d);
}

/// The sweep is smooth: from one column to the next the rainbow advances
/// by `255 * frequency / spread` steps of the wheel, or by one more.
pub proof fn lemma_column_step(line: nat, column: nat, params: Parameters)
    requires
        params.valid(),
    ensures
        position_steps(line, column, params) + (255 * params.frequency) / (params.spread as int)
            <= position_steps(line, column + 1, params),
        position_steps(line, column + 1, params) <= position_steps(line, column, params) + (255
            * params.frequency) / (params.spread as int) + 1,
{
    let spread = params.spread as int;
    let frequency = params.frequency as int;
    let here = 255 * frequency * (1000 * column + line * spread);
    let there = 255 * frequency * (1000 * (column + 1) + line * spread);
    assert(0 <= here && there == here + 1000 * (255 * frequency)) by (nonlinear_arith)
        requires
            here == 255 * frequency * (1000 * column + line * spread),
            there == 255 * frequency * (1000 * (column + 1) + line * spread),
            0 <= frequency,
            0 <= spread,
    ;
    lemma_quotient_of_sum(here, 1000 * (255 * frequency), 1000 * spread);
    vstd::arithmetic::div_mod::lemma_div_multiples_vanish_quotient(1000, 255 * frequency, spread);
}

/// A larger spread makes the colour change more slowly: at every place the
/// rainbow has advanced no further than with the smaller spread.
pub proof fn lemma_spread_slows(line: nat, column: nat, narrow: Parameters, wide: Parameters)
    requires
        narrow.valid(),
        wide.valid(),
        narrow.frequency == wide.frequency,
        narrow.spread <= wide.spread,
    ensures
        position_steps(line, column, wide) <= position_steps(line, column, narrow),
{
    let frequency = narrow.frequency as int;
    let small = narrow.spread as int;
    let large = wide.spread as int;
    let slow = 255 * frequency * (1000 * column + line * large);
    let fast = 255 * frequency * (1000 * column + line * small);
    assert(0 <= slow && 0 <= fast && slow * (1000 * small) <= fast * (1000 * large))
        by (nonlinear_arith)
        requires
            slow == 255 * frequency * (1000 * column + line * large),
            fast == 255 * frequency * (1000 * column + line * small),
            0 <= frequency,
            0 < small <= large,
    ;
    lemma_fractions_ordered(slow, 1000 * large, fast, 1000 * small);
}

/// A seed brought below 256 by whole turns of the wheel gives the same hue
/// at every place.
pub proof fn lemma_seed_in_range(
    line: nat,
    column: nat,
    time_offset: nat,
    params: Parameters,
    reduced: Parameters,
)
    requires
        reduced.seed == params.seed % 256,
        reduced.spread == params.spread,
        reduced.frequency == params.frequency,
    ensures
        hue(line, column, time_offset, reduced) == hue(line, column, time_offset, params),
{
    let rest = (params.seed % 256) as int;
    let turns = (params.seed / 256) as int;
    lemma_hoist_over_denominator(rest * 1530, 1530 * turns, 256);
    assert(seed_steps(params.seed as nat) == seed_steps(reduced.seed as nat) + 1530 * turns);
}

/// Seeds that differ by 256 give the same hue.
pub proof fn lemma_seed_period(seed: nat)
    ensures
        seed_steps(seed + 256) % 1530 == seed_steps(seed) % 1530,
{
    lemma_hoist_over_denominator((seed * 1530) as int, 1530, 256);
}

} // verus!
