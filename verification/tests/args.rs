use fan::args::{parse_args, ArgError, Flag, Settings, DEFAULT_ALPHA_BITS, EXAMPLE, USAGE};
use fan::decimal::IntError;
use fan::double::Double;

fn list(line: &[&str]) -> Vec<String> {
    line.iter().map(|s| s.to_string()).collect()
}

fn run(line: &[&str]) -> Result<Settings, ArgError> {
    let args = list(line);
    let doubles = args
        .iter()
        .map(|a| a.parse::<f64>().ok().map(|x| Double { bits: x.to_bits() }))
        .collect();
    parse_args(&args, &doubles)
}

fn error(line: &[&str]) -> ArgError {
    run(line).unwrap_err()
}

fn message(line: &[&str]) -> Option<String> {
    error(line).message(&list(line), "invalid float literal")
}

#[test]
fn a_profile_is_enough() {
    let s = run(&["fan", "-c", "0:0"]).unwrap();
    assert_eq!(s.config, "0:0");
    assert_eq!(s.interval, 5);
    assert_eq!(s.history_size, 10);
    assert_eq!(s.port, 60006);
    assert_eq!(s.alpha.bits, 0.2f64.to_bits());
    assert_eq!(s.alpha.bits, DEFAULT_ALPHA_BITS);
}

#[test]
fn every_option_is_taken() {
    let s = run(&[
        "fan", "-i", "2", "-p", "8080", "-n", "200", "-c", "0:0,46:50", "-a", "0.3",
    ])
    .unwrap();
    assert_eq!(s.interval, 2);
    assert_eq!(s.port, 8080);
    assert_eq!(s.history_size, 200);
    assert_eq!(s.config, "0:0,46:50");
    assert_eq!(s.alpha.bits, 0.3f64.to_bits());
}

#[test]
fn options_may_come_in_any_order() {
    let a = run(&["fan", "-i", "7", "-c", "x", "-n", "3"]).unwrap();
    let b = run(&["fan", "-n", "3", "-i", "7", "-c", "x"]).unwrap();
    assert_eq!((a.interval, a.config, a.history_size), (b.interval, b.config, b.history_size));
}

#[test]
fn the_second_value_counts() {
    let s = run(&["fan", "-i", "7", "-c", "x", "-i", "9", "-c", "y"]).unwrap();
    assert_eq!(s.interval, 9);
    assert_eq!(s.config, "y");
}

#[test]
fn an_option_needs_a_value() {
    let cases = [
        ("-i", Flag::Interval),
        ("-c", Flag::Config),
        ("-n", Flag::HistorySize),
        ("-p", Flag::Port),
        ("-a", Flag::Alpha),
    ];
    for (text, flag) in cases {
        assert_eq!(error(&["fan", text]), ArgError::MissingValue(flag));
        assert_eq!(message(&["fan", text]), Some(format!("Missing value for {}", text)));
    }
}

#[test]
fn numbers_are_checked() {
    assert_eq!(
        error(&["fan", "-i", "two"]),
        ArgError::InvalidInterval(IntError::InvalidDigit)
    );
    assert_eq!(
        message(&["fan", "-i", "two"]).unwrap(),
        "Invalid interval: invalid digit found in string"
    );
    assert_eq!(
        error(&["fan", "-n", ""]),
        ArgError::InvalidHistorySize(IntError::Empty)
    );
    assert_eq!(
        message(&["fan", "-n", ""]).unwrap(),
        "Invalid history size: cannot parse integer from empty string"
    );
    assert_eq!(
        error(&["fan", "-p", "65536"]),
        ArgError::InvalidPort(IntError::TooLarge)
    );
    assert_eq!(
        message(&["fan", "-p", "65536"]).unwrap(),
        "Invalid port: number too large to fit in target type"
    );
    assert_eq!(run(&["fan", "-p", "65535", "-c", "x"]).unwrap().port, 65535);
}

#[test]
fn a_history_holds_something() {
    assert_eq!(error(&["fan", "-n", "0"]), ArgError::ZeroHistorySize);
    assert_eq!(message(&["fan", "-n", "0"]).unwrap(), "History size must be >= 1");
    assert!(!ArgError::ZeroHistorySize.shows_usage());
}

#[test]
fn the_weight_is_above_zero_and_up_to_one() {
    for a in ["0", "-0", "-0.1", "1.0000001", "2", "inf", "-inf"] {
        assert_eq!(error(&["fan", "-a", a]), ArgError::AlphaOutOfRange, "{}", a);
    }
    for a in ["1", "0.15", "1e-300", "nan"] {
        assert!(run(&["fan", "-a", a, "-c", "x"]).is_ok(), "{}", a);
    }
    assert_eq!(message(&["fan", "-a", "2"]).unwrap(), "Alpha must be in (0, 1]");
    assert_eq!(error(&["fan", "-c", "x", "-a", "y"]), ArgError::InvalidAlpha(4));
    assert_eq!(
        message(&["fan", "-a", "y"]).unwrap(),
        "Invalid alpha: invalid float literal"
    );
}

#[test]
fn help_and_unknown_arguments_show_the_usage() {
    assert_eq!(error(&["fan", "-h"]), ArgError::Help);
    assert_eq!(error(&["fan", "-c", "x", "--help"]), ArgError::Help);
    assert_eq!(message(&["fan", "-h"]), None);
    assert_eq!(error(&["fan", "-c", "x", "-z"]), ArgError::UnknownArgument(3));
    assert_eq!(message(&["fan", "-z"]).unwrap(), "Unknown argument: -z");
    assert!(ArgError::Help.shows_usage());
    assert!(ArgError::UnknownArgument(1).shows_usage());
    assert!(USAGE.starts_with("Usage: fan -i <interval_secs>"));
    assert!(EXAMPLE.starts_with("Example: fan -i 5 -c 0:0,40:40,45:100"));
}

#[test]
fn a_profile_is_required() {
    for line in [vec!["fan"], vec![], vec!["fan", "-i", "3"], vec!["fan", "-c", ""]] {
        assert_eq!(error(&line), ArgError::MissingConfig);
        assert_eq!(
            message(&line).unwrap(),
            "Missing required argument: -c <config>"
        );
    }
}

#[test]
fn the_first_error_is_reported() {
    assert_eq!(error(&["fan", "-a", "x", "-i"]), ArgError::InvalidAlpha(2));
    assert_eq!(
        error(&["fan", "-i", "-n", "-n", "0"]),
        ArgError::InvalidInterval(IntError::InvalidDigit)
    );
    assert_eq!(error(&["fan", "-c", "-h", "-q"]), ArgError::UnknownArgument(3));
}
