use vstd::arithmetic::div_mod::{lemma_add_mod_noop, lemma_fundamental_div_mod};
use vstd::prelude::*;

use crate::encoder::{levels_valid, PwmData, LED_COUNT, PERIOD};

verus! {

/// Positions count hundredths of an LED: position `p` stands for `p / 100` LEDs along the row.
pub const POSITION_SCALE: u32 = 100;

/// The row wraps after eight LEDs.
pub const POSITION_WRAP: u32 = 800;

/// How far the comet moves on each tick, in hundredths of an LED.
pub const STEP_SIZE: u32 = 3;

/// Time between two ticks of the animation, in milliseconds.
pub const TICK_MILLIS: u64 = 15;

/// `n / d` rounded to the nearest integer, halves rounded up.
pub open spec fn round_div(n: int, d: int) -> int {
    (2 * n + d) / (2 * d)
}

/// Level of the LED under the comet's head: `round(255 * (1 - frac))`.
pub open spec fn head_level(frac: int) -> int {
    round_div(PERIOD * (POSITION_SCALE - frac), POSITION_SCALE as int)
}

/// Level of the LED ahead of the head: `round(255 * (frac - 0.4) * 1.667)`, and 0 where
/// that is negative.
pub open spec fn tail_level(frac: int) -> int {
    if frac <= 40 {
        0
    } else {
        round_div(PERIOD * (frac - 40) * 1667, 100_000)
    }
}

/// The position one move of `step` further on, wrapping at the end of the row.
pub open spec fn advance_spec(position: int, step: int) -> int {
    (position + step) % (POSITION_WRAP as int)
}

/// The position reached from 0 after `n` moves of `step`.
pub open spec fn position_after(step: int, n: nat) -> int
    decreases n,
{
    if n == 0 {
        0
    } else {
        advance_spec(position_after(step, (n - 1) as nat), step)
    }
}

/// The position one move of `step` further on.
pub fn advance(position: u32, step: u32) -> (r: u32)
    requires
        position < POSITION_WRAP,
        step < POSITION_WRAP,
    ensures
        r == advance_spec(position as int, step as int),
        r < POSITION_WRAP,
{
    (position + step) % POSITION_WRAP
}

/// Level of the LED under the head for a fraction `frac` of an LED past it.
pub fn head_for(frac: u32) -> (r: u32)
    requires
        frac < POSITION_SCALE,
    ensures
        r == head_level(frac as int),
        r <= PERIOD,
{
    (2 * PERIOD * (POSITION_SCALE - frac) + POSITION_SCALE) / (2 * POSITION_SCALE)
}

/// Level of the LED ahead of the head for a fraction `frac` of an LED past it.
pub fn tail_for(frac: u32) -> (r: u32)
    requires
        frac < POSITION_SCALE,
    ensures
        r == tail_level(frac as int),
        r <= PERIOD,
{
    if frac <= 40 {
        0
    } else {
        let rise: u64 = (frac - 40) as u64;
        let r = (510 * rise * 1667 + 100_000) / 200_000;
        r as u32
    }
}

/// Sets the levels for the comet at `position` and rebuilds the step table, then
/// returns the position for the next tick.
pub fn update_data(data: &mut PwmData, position: u32) -> (next: u32)
    requires
        old(data).wf(),
        position < POSITION_WRAP,
    ensures
        final(data).wf(),
        next == advance_spec(position as int, STEP_SIZE as int),
        ({
            let idx = position as int / 100;
            let frac = position as int % 100;
            let prev = (idx + 7) % 8;
            let ahead = (idx + 1) % 8;
            &&& final(data).pwm_levels[prev] == 0
            &&& final(data).pwm_levels[idx] == head_level(frac)
            &&& final(data).pwm_levels[ahead] == tail_level(frac)
            &&& forall|k: int|
                0 <= k < LED_COUNT && k != prev && k != idx && k != ahead
                    ==> final(data).pwm_levels[k] == old(data).pwm_levels[k]
        }),
{
    let idx = (position / POSITION_SCALE) as usize;
    let frac = position % POSITION_SCALE;
    let prev = (idx + LED_COUNT - 1) % LED_COUNT;
    let ahead = (idx + 1) % LED_COUNT;
    data.pwm_levels[prev] = 0;
    data.pwm_levels[idx] = head_for(frac);
    data.pwm_levels[ahead] = tail_for(frac);
    data.reflect();
    advance(position, STEP_SIZE)
}

proof fn lemma_position_after(step: int, n: nat)
    requires
        0 < step < POSITION_WRAP,
    ensures
        position_after(step, n) == (n * step) % (POSITION_WRAP as int),
    decreases n,
{
    if n == 0 {
        assert(n * step == 0);
    } else {
        lemma_position_after(step, (n - 1) as nat);
        let m = (n - 1) as nat;
        assert(n * step == m * step + step) by (nonlinear_arith)
            requires
                n == m + 1,
        ;
        lemma_add_mod_noop(m * step, step, 800);
        vstd::arithmetic::div_mod::lemma_small_mod(step as nat, 800);
        assert(step % 800 == step);
        assert((m * step + step) % 800 == (n * step) % 800);
        assert(position_after(step, n) == (position_after(step, m) + step) % 800);
        assert(position_after(step, m) == (m * step) % 800);
    }
}

/// Starting from 0, after as many moves of `step` as fit into the row (`800 / step`),
/// the position is back within one step of 0: at most `step - 1` before the end of the
/// row, or at 0 itself.
pub proof fn lemma_wraparound(step: int)
    requires
        0 < step < POSITION_WRAP,
    ensures
        ({
            let p = position_after(step, (POSITION_WRAP as int / step) as nat);
            0 <= p < POSITION_WRAP && (p == 0 || POSITION_WRAP as int - p < step)
        }),
{
    let n = (POSITION_WRAP as int / step) as nat;
    lemma_position_after(step, n);
    lemma_fundamental_div_mod(POSITION_WRAP as int, step);
    let rem = POSITION_WRAP as int % step;
    assert(n * step == 800 - rem);
    if rem == 0 {
        assert((n * step) % 800 == 0);
    } else {
        assert((n * step) % 800 == n * step) by {
            vstd::arithmetic::div_mod::lemma_small_mod((n * step) as nat, 800);
        }
    }
}

} // verus!
