//! Easing the fan towards its target speed.
use vstd::prelude::*;

verus! {

/// How much the speed may change in one second.
pub const RAMP_RATE_PER_SEC: u64 = 20;

/// How much the speed may change at once, however long the interval.
pub const MAX_RAMP_STEP: u8 = 80;

/// How much the speed may change after `interval` seconds.
pub open spec fn step_limit(interval: nat) -> nat {
    if RAMP_RATE_PER_SEC * interval < MAX_RAMP_STEP {
        RAMP_RATE_PER_SEC as nat * interval
    } else {
        MAX_RAMP_STEP as nat
    }
}

/// How much the speed may change after `interval` seconds.
pub fn max_step(interval: u64) -> (r: u8)
    ensures
        r == step_limit(interval as nat),
        interval <= 4 ==> r == 20 * interval,
        interval >= 4 ==> r == 80,
        r <= MAX_RAMP_STEP,
        r <= RAMP_RATE_PER_SEC * interval,
{
    match interval.checked_mul(RAMP_RATE_PER_SEC) {
        Some(change) => if change < MAX_RAMP_STEP as u64 {
            change as u8
        } else {
            MAX_RAMP_STEP
        },
        None => MAX_RAMP_STEP,
    }
}

/// The speed that follows `actual` on the way to `target`: the target itself
/// if it is no more than `step` away, and `step` closer otherwise.
pub open spec fn eased(actual: int, target: int, step: int) -> int {
    if target > actual + step {
        actual + step
    } else if target < actual - step {
        actual - step
    } else {
        target
    }
}

/// The speed that follows `actual` on the way to `target`.
pub fn next_pwm(actual: u8, target: u8, step: u8) -> (r: u8)
    ensures
        r == eased(actual as int, target as int, step as int),
        actual + step <= target ==> r == actual + step,
        actual - step >= target ==> r == actual - step,
        actual - step <= target <= actual + step ==> r == target,
{
    if target > actual {
        let raised: u8 = actual.saturating_add(step);
        if raised < target {
            raised
        } else {
            target
        }
    } else {
        let lowered: u8 = actual.saturating_sub(step);
        if lowered > target {
            lowered
        } else {
            target
        }
    }
}

/// How far apart two speeds are.
pub open spec fn distance(a: int, b: int) -> int {
    if a < b {
        b - a
    } else {
        a - b
    }
}

/// The speed never changes by more than the step.
pub proof fn law_change_is_limited(actual: int, target: int, step: int)
    requires
        step >= 0,
    ensures
        distance(actual, eased(actual, target, step)) <= step,
{
}

/// The speed never goes away from the target nor past it.
pub proof fn law_no_overshoot(actual: int, target: int, step: int)
    requires
        step >= 0,
    ensures
        actual <= target ==> actual <= eased(actual, target, step) <= target,
        actual >= target ==> actual >= eased(actual, target, step) >= target,
{
}

/// The speed `n` rounds on, while the target stays.
pub open spec fn eased_rounds(actual: int, target: int, step: int, n: nat) -> int
    decreases n,
{
    if n == 0 {
        actual
    } else {
        eased(eased_rounds(actual, target, step, (n - 1) as nat), target, step)
    }
}

/// While the target stays, each round brings the speed closer by the step, and
/// once it is there it stays.
pub proof fn law_rounds_close_in(actual: int, target: int, step: int, n: nat)
    requires
        step >= 0,
    ensures
        distance(eased_rounds(actual, target, step, n), target) == if distance(actual, target) > n
            * step {
            distance(actual, target) - n * step
        } else {
            0
        },
    decreases n,
{
    if n > 0 {
        let m = (n - 1) as nat;
        law_rounds_close_in(actual, target, step, m);
        assert(n * step == m * step + step) by (nonlinear_arith)
            requires
                n == m + 1,
        ;
    } else {
        assert(n * step == 0) by (nonlinear_arith)
            requires
                n == 0,
        ;
    }
}

/// With any interval but zero, the speed reaches a target that stays, and does
/// so within thirteen rounds.
pub proof fn law_target_is_reached(actual: u8, target: u8, interval: nat, n: nat)
    requires
        interval > 0,
        n >= 13,
    ensures
        eased_rounds(actual as int, target as int, step_limit(interval) as int, n) == target,
{
    let step = step_limit(interval) as int;
    assert(step >= 20);
    law_rounds_close_in(actual as int, target as int, step, n);
    assert(n * step >= 260) by (nonlinear_arith)
        requires
            n >= 13,
            step >= 20,
    ;
}

/// The speed may change by 20 for each second of the interval, up to 80, which
/// it may from 4 seconds on; a longer interval never allows less.
pub proof fn law_step_limit(interval: nat, longer: nat)
    ensures
        interval <= 4 ==> step_limit(interval) == 20 * interval,
        interval >= 4 ==> step_limit(interval) == 80,
        interval <= longer ==> step_limit(interval) <= step_limit(longer),
{
}

/// The speed moves straight towards its target, by the whole step or all the
/// way, whichever is less.
pub proof fn law_one_round(actual: int, target: int, step: int)
    requires
        step >= 0,
    ensures
        distance(actual, target) <= step ==> eased(actual, target, step) == target,
        actual + step <= target ==> eased(actual, target, step) == actual + step,
        actual - step >= target ==> eased(actual, target, step) == actual - step,
        eased(-actual, -target, step) == -eased(actual, target, step),
{
}

} // verus!
