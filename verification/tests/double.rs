use fan::double::{get_cpu_temp, Double};

fn d(x: f64) -> Double {
    Double { bits: x.to_bits() }
}

fn samples() -> Vec<f64> {
    vec![
        f64::NEG_INFINITY,
        f64::MIN,
        -1000.5,
        -1.0,
        -f64::MIN_POSITIVE,
        -5e-324,
        -0.0,
        0.0,
        5e-324,
        1e-310,
        f64::MIN_POSITIVE,
        0.2,
        1.0,
        1.0000000000000002,
        44.999,
        45.0,
        1e300,
        f64::MAX,
        f64::INFINITY,
        f64::NAN,
        -f64::NAN,
    ]
}

#[test]
fn comparisons_agree_with_the_machine() {
    for x in samples() {
        for y in samples() {
            assert_eq!(d(x).at_least(d(y)), x >= y, "{} >= {}", x, y);
            assert_eq!(d(x).above(d(y)), x > y, "{} > {}", x, y);
        }
    }
}

#[test]
fn what_is_no_number_is_told() {
    for x in samples() {
        assert_eq!(d(x).is_nan(), x.is_nan(), "{}", x);
    }
}

#[test]
fn the_warmer_zone_counts() {
    assert_eq!(get_cpu_temp(d(41.5), d(47.25)), d(47.25));
    assert_eq!(get_cpu_temp(d(47.25), d(41.5)), d(47.25));
    assert_eq!(get_cpu_temp(d(-3.0), d(-7.0)), d(-3.0));
    assert_eq!(get_cpu_temp(d(50.0), d(50.0)), d(50.0));
}

#[test]
fn a_zone_without_a_number_gives_way() {
    assert_eq!(get_cpu_temp(d(f64::NAN), d(40.0)), d(40.0));
    assert_eq!(get_cpu_temp(d(40.0), d(f64::NAN)), d(40.0));
    assert!(get_cpu_temp(d(f64::NAN), d(f64::NAN)).is_nan());
}

#[test]
fn the_warmer_zone_agrees_with_the_machine() {
    for x in samples() {
        for y in samples() {
            let ours = f64::from_bits(get_cpu_temp(d(x), d(y)).bits);
            let theirs = x.max(y);
            assert!(ours == theirs || (ours.is_nan() && theirs.is_nan()), "{} {}", x, y);
        }
    }
}
