use fan::controller::{Controller, Round, Smoothing};
use fan::double::Double;
use fan::history::{push_capped, FanState};
use fan::profile::FanProfile;
use fan::ramp::{max_step, next_pwm, MAX_RAMP_STEP};
use std::collections::VecDeque;

fn d(x: f64) -> Double {
    Double { bits: x.to_bits() }
}

fn profile() -> FanProfile {
    FanProfile::parse("0:0,45:100,60:255", &vec![Some(d(0.0)), Some(d(45.0)), Some(d(60.0))])
        .unwrap()
}

#[test]
fn the_step_follows_the_interval() {
    assert_eq!(max_step(0), 0);
    assert_eq!(max_step(1), 20);
    assert_eq!(max_step(2), 40);
    assert_eq!(max_step(3), 60);
    assert_eq!(max_step(4), 80);
    assert_eq!(max_step(5), 80);
    for interval in [0u64, 1, 2, 3, 4, 5, 60, 1 << 40, 1 << 60, u64::MAX] {
        let expected = ((20.0 * interval as f64).round() as u32).min(MAX_RAMP_STEP as u32) as u8;
        assert_eq!(max_step(interval), expected);
    }
}

#[test]
fn the_fan_is_eased_both_ways() {
    assert_eq!(next_pwm(0, 255, 80), 80);
    assert_eq!(next_pwm(200, 255, 80), 255);
    assert_eq!(next_pwm(255, 0, 80), 175);
    assert_eq!(next_pwm(50, 0, 80), 0);
    assert_eq!(next_pwm(100, 100, 80), 100);
    assert_eq!(next_pwm(10, 12, 0), 10);
}

#[test]
fn easing_agrees_with_saturating_arithmetic() {
    for actual in 0..=255u8 {
        for target in 0..=255u8 {
            for step in [0u8, 1, 20, 80, 255] {
                let expected = if target > actual {
                    actual.saturating_add(step).min(target)
                } else {
                    actual.saturating_sub(step).max(target)
                };
                let next = next_pwm(actual, target, step);
                assert_eq!(next, expected);
                assert!(next.abs_diff(actual) <= step);
            }
        }
    }
}

#[test]
fn every_target_is_reached_within_thirteen_rounds() {
    for start in [0u8, 100, 255] {
        for target in 0..=255u8 {
            let mut actual = start;
            for _ in 0..13 {
                actual = next_pwm(actual, target, max_step(1));
            }
            assert_eq!(actual, target);
        }
    }
}

#[test]
fn a_round_looks_up_and_eases() {
    let p = profile();
    let mut c = Controller::new();
    assert_eq!(c.actual_pwm, 0);
    assert_eq!(c.smooth_temp, None);
    let r = c.drive(&p, d(61.0), 2);
    assert_eq!(r, Round { previous: 0, target: 255, actual: 40 });
    assert_eq!(r.to_write(), Some(40));
    assert_eq!(c.actual_pwm, 40);
    assert_eq!(c.smooth_temp, Some(d(61.0)));
    let r = c.drive(&p, d(10.0), 5);
    assert_eq!(r, Round { previous: 40, target: 0, actual: 0 });
    let r = c.drive(&p, d(10.0), 5);
    assert_eq!(r.to_write(), None);
}

#[test]
fn fan_and_page_agree_round_by_round() {
    let p = profile();
    let mut c = Controller::new();
    let mut state = FanState::new(4);
    let mut hardware = c.actual_pwm;
    for t in [10.0, 50.0, 50.0, 70.0, 70.0, 20.0, 20.0, 20.0, 46.0, 46.0] {
        let r = c.drive(&p, d(t), 3);
        if let Some(pwm) = r.to_write() {
            hardware = pwm;
        }
        state.publish(&r);
        assert_eq!(hardware, c.actual_pwm);
        assert_eq!(state.current_pwm, c.actual_pwm);
    }
    assert_eq!(c.actual_pwm, 100);
}

#[test]
fn a_steady_temperature_settles() {
    let p = profile();
    let mut c = Controller::new();
    for _ in 0..13 {
        c.drive(&p, d(80.0), 1);
    }
    assert_eq!(c.actual_pwm, 255);
}

#[test]
fn a_zero_interval_keeps_the_speed() {
    let p = profile();
    let mut c = Controller::new();
    for _ in 0..50 {
        assert_eq!(c.drive(&p, d(80.0), 0).actual, 0);
    }
}

#[test]
fn processor_use_needs_two_samples() {
    let mut c = Controller::new();
    assert_eq!(c.sample_cpu(Some((1000, 800))), None);
    assert_eq!(c.sample_cpu(Some((1400, 900))), Some((300, 400)));
    assert_eq!(c.sample_cpu(Some((1400, 900))), None);
    assert_eq!(c.sample_cpu(None), None);
    assert_eq!(c.sample_cpu(Some((1500, 950))), None);
    assert_eq!(c.sample_cpu(Some((1600, 950))), Some((100, 100)));
    assert_eq!(c.prev_cpu, Some((1600, 950)));
}

#[test]
fn the_window_holds_the_latest() {
    for cap in 0..6usize {
        let mut buf: VecDeque<Double> = VecDeque::new();
        let mut all = Vec::new();
        for i in 0..12 {
            all.push(d(i as f64));
            push_capped(&mut buf, d(i as f64), cap);
            let skipped = if all.len() > cap { all.len() - cap } else { 0 };
            let latest: Vec<Double> = all[skipped..].to_vec();
            assert_eq!(Vec::from(buf.clone()), latest);
        }
    }
}

#[test]
fn missing_figures_leave_their_window() {
    let mut s = FanState::new(2);
    assert_eq!(s.current_pwm, 0);
    s.record(d(40.0), None, Some(d(50.0)), Some(d(7.0)), 2);
    s.record(d(41.0), Some(d(3.0)), None, Some(d(8.0)), 2);
    s.record(d(42.0), Some(d(4.0)), None, Some(d(9.0)), 2);
    assert_eq!(Vec::from(s.history), vec![d(41.0), d(42.0)]);
    assert_eq!(Vec::from(s.cpu), vec![d(3.0), d(4.0)]);
    assert_eq!(Vec::from(s.mem), vec![d(50.0)]);
    assert_eq!(Vec::from(s.disk), vec![d(8.0), d(9.0)]);
    assert_eq!(s.current_pwm, 0);
}

#[test]
fn the_first_temperature_counts_as_it_is() {
    let mut c = Controller::new();
    assert_eq!(c.smoothing(d(50.0)), Smoothing::AsItIs(d(50.0)));
    c.drive(&profile(), d(50.0), 1);
    assert_eq!(
        c.smoothing(d(60.0)),
        Smoothing::Blend { previous: d(50.0), temp: d(60.0) }
    );
}
