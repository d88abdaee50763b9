//! The animation clock: from the time that has passed to the phase offset of
//! a frame, and to the decision whether another frame is due.
//!
//! Time is counted in milliseconds and the phase in thousandths, so that a
//! speed of `20 * SCALE` advances the phase by twenty units per second.

use crate::opts::Parameters;
use vstd::arithmetic::div_mod::lemma_div_is_ordered;
use vstd::arithmetic::mul::lemma_mul_inequality;
use vstd::prelude::*;

verus! {

/// Frames per second that an animation aims at, whatever its speed.
pub const FRAME_RATE: u64 = 20;

/// Milliseconds to sleep between two frames.
pub const FRAME_INTERVAL_MS: u64 = 1000 / FRAME_RATE;

/// What to do at one moment of an animation.
#[derive(Clone, Copy, Debug, PartialEq, Eq, Structural)]
pub enum Frame {
    /// Render all lines again at this phase offset, then sleep.
    Draw { phase: u64 },
    /// The animation's time is up.
    Stop,
}

/// The phase offset after `elapsed_ms` milliseconds: seconds times speed,
/// and zero where nothing is animated.
pub open spec fn phase_at(elapsed_ms: nat, params: Parameters) -> nat {
    if params.animate {
        elapsed_ms * params.speed as nat / 1000
    } else {
        0
    }
}

/// The animation has a time limit and `elapsed_ms` has reached it.
pub open spec fn is_over(elapsed_ms: nat, params: Parameters) -> bool {
    params.duration > 0 && elapsed_ms >= params.duration * 1000
}

/// `n`, or the largest `u64` where `n` is larger.
pub open spec fn saturate(n: nat) -> u64 {
    if n <= u64::MAX {
        n as u64
    } else {
        u64::MAX
    }
}

/// The phase offset after `elapsed_ms` milliseconds of animation, held at
/// the largest `u64` where it would be larger.
pub fn tick(elapsed_ms: u64, params: &Parameters) -> (phase: u64)
    ensures
        phase == saturate(phase_at(elapsed_ms as nat, *params)),
{
    if !params.animate {
        return 0;
    }
    assert((elapsed_ms as u128) * (params.speed as u128) <= 0xffff_ffff_ffff_ffff * 0xffff_ffff)
        by (nonlinear_arith)
        requires
            elapsed_ms <= 0xffff_ffff_ffff_ffff,
            params.speed <= 0xffff_ffff,
    ;
    let exact: u128 = (elapsed_ms as u128) * (params.speed as u128) / 1000;
    if exact > u64::MAX as u128 {
        u64::MAX
    } else {
        exact as u64
    }
}

/// True once an animation with a time limit has run for that long. One
/// without a limit never expires.
pub fn expired(elapsed_ms: u64, params: &Parameters) -> (over: bool)
    ensures
        over == is_over(elapsed_ms as nat, *params),
{
    params.duration > 0 && elapsed_ms as u128 >= (params.duration as u128) * 1000
}

/// Decides what an animation does `elapsed_ms` milliseconds after its start:
/// stop once the time limit is reached, else draw at the phase of `tick`.
pub fn frame_at(elapsed_ms: u64, params: &Parameters) -> (frame: Frame)
    ensures
        frame == if is_over(elapsed_ms as nat, *params) {
            Frame::Stop
        } else {
            Frame::Draw { phase: saturate(phase_at(elapsed_ms as nat, *params)) }
        },
{
    if expired(elapsed_ms, params) {
        Frame::Stop
    } else {
        Frame::Draw { phase: tick(elapsed_ms, params) }
    }
}

/// The phase never runs backwards as time passes.
pub proof fn lemma_phase_monotonic(earlier: nat, later: nat, params: Parameters)
    requires
        earlier <= later,
    ensures
        phase_at(earlier, params) <= phase_at(later, params),
        saturate(phase_at(earlier, params)) <= saturate(phase_at(later, params)),
{
    if params.animate {
        let speed = params.speed as int;
        lemma_mul_inequality(earlier as int, later as int, speed);
        lemma_div_is_ordered(earlier * speed, later * speed, 1000);
    }
}

/// While an animation with a time limit runs, its phase stays below the
/// limit's seconds times the speed.
pub proof fn lemma_phase_bounded(elapsed_ms: nat, params: Parameters)
    requires
        params.duration > 0,
        !is_over(elapsed_ms, params),
    ensures
        phase_at(elapsed_ms, params) <= params.duration * params.speed,
{
    if params.animate {
        let speed = params.speed as int;
        let limit = params.duration * 1000;
        lemma_mul_inequality(elapsed_ms as int, limit as int, speed);
        lemma_div_is_ordered(elapsed_ms * speed, limit * speed, 1000);
        assert(limit * speed == (params.duration * speed) * 1000) by (nonlinear_arith)
            requires
                limit == params.duration * 1000,
        ;
    }
}

} // verus!
