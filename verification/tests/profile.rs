use fan::double::Double;
use fan::profile::{FanProfile, ProfileError};
use fan::steps::sort_by_temperature;

fn d(x: f64) -> Double {
    Double { bits: x.to_bits() }
}

fn temps_of(config: &str) -> Vec<Option<Double>> {
    FanProfile::entries(config)
        .iter()
        .map(|(text, _)| text.parse::<f64>().ok().map(d))
        .collect()
}

fn profile(config: &str) -> FanProfile {
    let temps = temps_of(config);
    assert!(FanProfile::can_order(config, &temps));
    FanProfile::parse(config, &temps).unwrap()
}

fn entries(config: &str) -> Vec<(String, u8)> {
    FanProfile::entries(config)
}

fn pair(text: &str, pwm: u8) -> (String, u8) {
    (text.to_string(), pwm)
}

#[test]
fn the_seven_steps_of_the_usage_line() {
    let p = profile("0:0,46:50,50:100,55:150,60:200,65:230,68:255");
    assert_eq!(p.len(), 7);
    let expected = [
        (-5.0, 0),
        (0.0, 0),
        (45.9, 0),
        (46.0, 50),
        (49.999, 50),
        (50.0, 100),
        (55.0, 150),
        (59.0, 150),
        (60.0, 200),
        (65.0, 230),
        (67.9, 230),
        (68.0, 255),
        (120.0, 255),
    ];
    for (temp, pwm) in expected {
        assert_eq!(p.get_pwm(d(temp)), pwm, "{}", temp);
    }
}

#[test]
fn entries_are_read_leniently() {
    assert_eq!(
        entries(" 40 : 60 , 50:70:90,, bad ,60:,:5,70:256,80:-1, 90 :+255"),
        vec![pair("40", 60), pair("50", 70), pair("", 5), pair("90", 255)]
    );
    assert_eq!(entries(""), vec![]);
    assert_eq!(entries("40"), vec![]);
    assert_eq!(entries("4o:10"), vec![pair("4o", 10)]);
}

#[test]
fn configurations_add_up() {
    let (a, b) = ("40:10,x,50:20", " 60:30 ,70:40");
    let mut expected = entries(a);
    expected.extend(entries(b));
    assert_eq!(entries(&format!("{},{}", a, b)), expected);
}

#[test]
fn a_written_configuration_reads_back() {
    let written = vec![pair("0", 0), pair("45.5", 100), pair("-3", 7)];
    let texts: Vec<String> = written.iter().map(|(t, p)| format!("{}:{}", t, p)).collect();
    assert_eq!(entries(&texts.join(",")), written);
}

#[test]
fn entries_without_a_temperature_are_passed_over() {
    let p = profile("x:9,40:10,:7");
    assert_eq!(p.len(), 1);
    assert_eq!(p.get_pwm(d(90.0)), 10);
}

#[test]
fn no_entry_is_an_error() {
    for config in ["", ",,", "x:9", "40", "40:999"] {
        let temps = temps_of(config);
        assert!(FanProfile::can_order(config, &temps));
        let error = FanProfile::parse(config, &temps).unwrap_err();
        assert_eq!(error, ProfileError::NoSteps);
        assert_eq!(
            error.message(),
            "Invalid config: no valid temperature:pwm pairs found"
        );
    }
}

#[test]
fn entries_may_come_in_any_order() {
    let p = profile("60:200,0:10,45:100");
    let q = profile("0:10,45:100,60:200");
    for t in [-1.0, 0.0, 44.0, 45.0, 59.9, 60.0, 99.0] {
        assert_eq!(p.get_pwm(d(t)), q.get_pwm(d(t)));
    }
    assert_eq!(p.get_pwm(d(46.0)), 100);
}

#[test]
fn the_last_of_equal_temperatures_decides() {
    let p = profile("40:1,50:20,50:30,40:2");
    assert_eq!(p.get_pwm(d(50.0)), 30);
    assert_eq!(p.get_pwm(d(45.0)), 2);
}

#[test]
fn the_first_of_the_coldest_is_the_floor() {
    let p = profile("50:9,40:1,40:2");
    assert_eq!(p.get_pwm(d(39.0)), 1);
    assert_eq!(p.get_pwm(d(f64::NAN)), 1);
}

#[test]
fn warmer_is_no_slower() {
    let p = profile("0:0,40:40,45:100,50:150");
    let mut last = 0;
    let mut t = -10.0;
    while t < 80.0 {
        let pwm = p.get_pwm(d(t));
        assert!(pwm >= last);
        last = pwm;
        t += 0.25;
    }
    assert_eq!(last, 150);
}

#[test]
fn a_single_step_needs_no_number() {
    let p = profile("nan:5");
    assert_eq!(p.get_pwm(d(100.0)), 5);
}

#[test]
fn two_steps_need_numbers() {
    let config = "40:1,nan:5";
    assert!(!FanProfile::can_order(config, &temps_of(config)));
    let config = "inf:1,-inf:5";
    assert!(FanProfile::can_order(config, &temps_of(config)));
    assert_eq!(profile(config).get_pwm(d(0.0)), 5);
}

#[test]
fn ordering_agrees_with_a_stable_sort() {
    let temps = [50.0, -0.0, 40.0, 50.0, 0.0, f64::INFINITY, 40.0, -7.5, 50.0];
    let mut expected: Vec<(f64, u8)> = Vec::new();
    for (i, t) in temps.iter().enumerate() {
        expected.push((*t, i as u8));
    }
    let ours = sort_by_temperature(&expected.iter().map(|(t, p)| (d(*t), *p)).collect());
    expected.sort_by(|a, b| a.0.partial_cmp(&b.0).unwrap());
    let theirs: Vec<(Double, u8)> = expected.iter().map(|(t, p)| (d(*t), *p)).collect();
    assert_eq!(ours, theirs);
}

#[test]
fn a_written_profile_reads_back() {
    let steps = vec![(d(-7.5), 3), (d(0.1), 9), (d(45.0), 100), (d(45.0), 90), (d(1e21), 255)];
    let texts: Vec<String> = steps
        .iter()
        .map(|(t, p)| format!("{}:{}", f64::from_bits(t.bits), p))
        .collect();
    let p = profile(&texts.join(","));
    assert_eq!(p.len(), 5);
    assert_eq!(sort_by_temperature(&steps), steps);
    for (t, pwm) in [(-8.0, 3), (-7.5, 3), (0.1, 9), (44.9, 9), (45.0, 90), (1e21, 255)] {
        assert_eq!(p.get_pwm(d(t)), pwm, "{}", t);
    }
}
