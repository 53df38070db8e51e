//! The rounds of the controller: from samples to fan speeds.
use crate::double::Double;
use crate::history::FanState;
use crate::profile::FanProfile;
use crate::ramp::{
    distance, eased, eased_rounds, law_change_is_limited, law_no_overshoot, law_target_is_reached,
    max_step, next_pwm, step_limit, MAX_RAMP_STEP, RAMP_RATE_PER_SEC,
};
use crate::steps::speed_at;
use crate::system::{advance, cpu_usage, more_idle_than_time};
use vstd::prelude::*;

verus! {

/// What a round decided.
#[derive(Clone, Copy, Debug, PartialEq, Eq, Structural)]
pub struct Round {
    /// The speed before the round.
    pub previous: u8,
    /// The speed that the profile asks for.
    pub target: u8,
    /// The speed from now on.
    pub actual: u8,
}

impl Round {
    /// The speed to write to the fan, if it has changed.
    pub open spec fn command(self) -> Option<u8> {
        if self.actual != self.previous {
            Some(self.actual)
        } else {
            None
        }
    }

    /// The speed that stands after the round, for one who heard `before` and
    /// hears of changes alone.
    pub open spec fn heard(self, before: u8) -> u8 {
        match self.command() {
            Some(pwm) => pwm,
            None => before,
        }
    }

    /// The speed to write to the fan, if it has changed.
    pub fn to_write(&self) -> (r: Option<u8>)
        ensures
            r == self.command(),
            r is Some <==> self.actual != self.previous,
            r is Some ==> r->0 == self.actual,
    {
        if self.actual != self.previous {
            Some(self.actual)
        } else {
            None
        }
    }
}

/// What the smoothed temperature of a round is made of.
#[derive(Clone, Copy, Debug, PartialEq, Eq, Structural)]
pub enum Smoothing {
    /// The temperature alone.
    AsItIs(Double),
    /// The temperature and the smoothed one of the round before.
    Blend { previous: Double, temp: Double },
}

/// What the controller remembers from round to round.
#[derive(Clone, Copy, Debug, PartialEq, Eq)]
pub struct Controller {
    /// The speed that the fan was last told.
    pub actual_pwm: u8,
    /// The smoothed temperature of the last round, if there was one.
    pub smooth_temp: Option<Double>,
    /// The processor times of the last round, if they could be had.
    pub prev_cpu: Option<(u64, u64)>,
}

impl Controller {
    /// A controller before its first round. The fan has to be told to rest.
    pub fn new() -> (r: Controller)
        ensures
            r.actual_pwm == 0,
            r.smooth_temp is None,
            r.prev_cpu is None,
    {
        Controller { actual_pwm: 0, smooth_temp: None, prev_cpu: None }
    }

    /// Takes in the processor times of a round: the busy time since the last
    /// round, and the time in all. None where a round's times are missing or no
    /// time has passed.
    pub fn sample_cpu(&mut self, now: Option<(u64, u64)>) -> (r: Option<(u64, u64)>)
        requires
            !more_idle_than_time(old(self).prev_cpu, now),
        ensures
            final(self).prev_cpu == now,
            final(self).actual_pwm == old(self).actual_pwm,
            final(self).smooth_temp == old(self).smooth_temp,
            match r {
                Some((busy, time)) => {
                    &&& old(self).prev_cpu is Some && now is Some
                    &&& time == advance((old(self).prev_cpu->0).0, (now->0).0)
                    &&& time > 0
                    &&& busy == time - advance((old(self).prev_cpu->0).1, (now->0).1)
                    &&& busy <= time
                },
                None => old(self).prev_cpu is None || now is None || advance(
                    (old(self).prev_cpu->0).0,
                    (now->0).0,
                ) == 0,
            },
            r is Some <==> old(self).prev_cpu is Some && now is Some && (now->0).0 > (
            old(self).prev_cpu->0).0,
            r is Some ==> (r->0).1 == (now->0).0 - (old(self).prev_cpu->0).0,
            r is Some && (now->0).1 >= (old(self).prev_cpu->0).1 ==> (r->0).1 - (r->0).0 == (
            now->0).1 - (old(self).prev_cpu->0).1,
            r is Some && (now->0).1 < (old(self).prev_cpu->0).1 ==> (r->0).0 == (r->0).1,
    {
        let usage = cpu_usage(self.prev_cpu, now);
        self.prev_cpu = now;
        usage
    }

    /// How the temperature of a round is smoothed: the first one counts as it
    /// is, and each later one is blended with the smoothed one before.
    pub fn smoothing(&self, temp: Double) -> (r: Smoothing)
        ensures
            r == match self.smooth_temp {
                None => Smoothing::AsItIs(temp),
                Some(previous) => Smoothing::Blend { previous, temp },
            },
    {
        match self.smooth_temp {
            None => Smoothing::AsItIs(temp),
            Some(previous) => Smoothing::Blend { previous, temp },
        }
    }

    /// One round: looks up the speed for the smoothed temperature, and eases
    /// the fan towards it.
    pub fn drive(&mut self, profile: &FanProfile, smooth: Double, interval: u64) -> (r: Round)
        ensures
            r == next_round(profile@, old(self).actual_pwm, smooth, interval as nat),
            r.previous == old(self).actual_pwm,
            r.target == speed_at(profile@, smooth),
            r.actual == eased(
                r.previous as int,
                r.target as int,
                step_limit(interval as nat) as int,
            ),
            final(self).actual_pwm == r.actual,
            final(self).smooth_temp == Some(smooth),
            final(self).prev_cpu == old(self).prev_cpu,
    {
        let previous = self.actual_pwm;
        let target = profile.get_pwm(smooth);
        let actual = next_pwm(previous, target, max_step(interval));
        self.actual_pwm = actual;
        self.smooth_temp = Some(smooth);
        Round { previous, target, actual }
    }
}

impl FanState {
    /// Shows what a round decided.
    pub fn publish(&mut self, round: &Round)
        ensures
            final(self).current_pwm == round.heard(old(self).current_pwm),
            round.actual != round.previous ==> final(self).current_pwm == round.actual,
            round.actual == round.previous ==> final(self).current_pwm == old(self).current_pwm,
            final(self).history == old(self).history,
            final(self).cpu == old(self).cpu,
            final(self).mem == old(self).mem,
            final(self).disk == old(self).disk,
    {
        if let Some(pwm) = round.to_write() {
            self.current_pwm = pwm;
        }
    }
}

/// The round that follows a speed, as `drive` decides it.
pub open spec fn next_round(
    steps: Seq<(Double, u8)>,
    actual: u8,
    smooth: Double,
    interval: nat,
) -> Round {
    let target = speed_at(steps, smooth);
    Round {
        previous: actual,
        target,
        actual: eased(actual as int, target as int, step_limit(interval) as int) as u8,
    }
}

/// A round starts from the speed before it and heads for the speed of the
/// temperature: it comes closer by 20 for each second of the interval, up to 80,
/// or gets there, and never goes past it.
pub proof fn law_round_heads_for_the_target(
    steps: Seq<(Double, u8)>,
    actual: u8,
    smooth: Double,
    interval: nat,
)
    ensures
        ({
            let r = next_round(steps, actual, smooth, interval);
            let way = distance(actual as int, speed_at(steps, smooth) as int);
            let step = if interval < 4 {
                20 * interval as int
            } else {
                80
            };
            &&& r.previous == actual
            &&& r.target == speed_at(steps, smooth)
            &&& distance(actual as int, r.actual as int) == if way < step {
                way
            } else {
                step
            }
            &&& distance(actual as int, r.actual as int) + distance(
                r.actual as int,
                r.target as int,
            ) == way
        }),
{
    law_no_overshoot(
        actual as int,
        speed_at(steps, smooth) as int,
        step_limit(interval) as int,
    );
}

/// The speed after rounds with the given smoothed temperatures, from rest.
pub open spec fn driven(steps: Seq<(Double, u8)>, smooths: Seq<Double>, interval: nat) -> u8
    decreases smooths.len(),
{
    if smooths.len() == 0 {
        0
    } else {
        next_round(
            steps,
            driven(steps, smooths.drop_last(), interval),
            smooths.last(),
            interval,
        ).actual
    }
}

/// The speed that stands after those rounds for one who heard of the fan at
/// rest and then of changes alone, as the fan and the page do.
pub open spec fn heard_of(steps: Seq<(Double, u8)>, smooths: Seq<Double>, interval: nat) -> u8
    decreases smooths.len(),
{
    if smooths.len() == 0 {
        0
    } else {
        next_round(
            steps,
            driven(steps, smooths.drop_last(), interval),
            smooths.last(),
            interval,
        ).heard(heard_of(steps, smooths.drop_last(), interval))
    }
}

/// After any rounds, the fan and the page, which hear of changes alone, stand
/// at the speed that the controller goes by.
pub proof fn law_fan_and_page_agree(
    steps: Seq<(Double, u8)>,
    smooths: Seq<Double>,
    interval: nat,
)
    ensures
        heard_of(steps, smooths, interval) == driven(steps, smooths, interval),
    decreases smooths.len(),
{
    if smooths.len() > 0 {
        law_fan_and_page_agree(steps, smooths.drop_last(), interval);
    }
}

/// From round to round the speed changes by no more than the interval allows.
pub proof fn law_speed_changes_gently(
    steps: Seq<(Double, u8)>,
    smooths: Seq<Double>,
    interval: nat,
)
    requires
        smooths.len() > 0,
    ensures
        distance(
            driven(steps, smooths.drop_last(), interval) as int,
            driven(steps, smooths, interval) as int,
        ) <= step_limit(interval),
        step_limit(interval) <= MAX_RAMP_STEP,
        step_limit(interval) <= RAMP_RATE_PER_SEC * interval,
{
    let before = driven(steps, smooths.drop_last(), interval) as int;
    let target = speed_at(steps, smooths.last()) as int;
    law_change_is_limited(before, target, step_limit(interval) as int);
    law_no_overshoot(before, target, step_limit(interval) as int);
}

/// Rounds at one temperature ease the fan towards the speed of that temperature.
proof fn lemma_steady_rounds(
    steps: Seq<(Double, u8)>,
    smooths: Seq<Double>,
    temp: Double,
    n: nat,
    interval: nat,
)
    ensures
        driven(steps, smooths + Seq::new(n, |i: int| temp), interval) == eased_rounds(
            driven(steps, smooths, interval) as int,
            speed_at(steps, temp) as int,
            step_limit(interval) as int,
            n,
        ),
    decreases n,
{
    let all = smooths + Seq::new(n, |i: int| temp);
    if n == 0 {
        assert(all =~= smooths);
    } else {
        let m = (n - 1) as nat;
        lemma_steady_rounds(steps, smooths, temp, m, interval);
        assert(all.drop_last() =~= smooths + Seq::new(m, |i: int| temp));
        let before = driven(steps, all.drop_last(), interval) as int;
        law_no_overshoot(before, speed_at(steps, temp) as int, step_limit(interval) as int);
    }
}

/// With any interval but zero, a temperature that stays brings the fan to its
/// speed, whatever went before, and within thirteen rounds.
pub proof fn law_steady_temperature_settles(
    steps: Seq<(Double, u8)>,
    smooths: Seq<Double>,
    temp: Double,
    n: nat,
    interval: nat,
)
    requires
        interval > 0,
        n >= 13,
    ensures
        driven(steps, smooths + Seq::new(n, |i: int| temp), interval) == speed_at(steps, temp),
{
    lemma_steady_rounds(steps, smooths, temp, n, interval);
    law_target_is_reached(
        driven(steps, smooths, interval),
        speed_at(steps, temp),
        interval,
        n,
    );
}

} // verus!
