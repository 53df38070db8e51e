//! The command line.
use crate::decimal::{decimal, law_decimal_reads_back, parse_unsigned, reading, IntError};
use crate::double::{lemma_rank_orders, Double, FRACTION_RANGE};
use crate::text::{chars_of, spells, string_views};
use vstd::arithmetic::power2::{lemma2_to64_rest, lemma_pow2_adds, pow2};
use vstd::prelude::*;

verus! {

/// Seconds between two rounds, where the command line names none.
pub const DEFAULT_INTERVAL: u64 = 5;

/// Samples in the history, where the command line names none.
pub const DEFAULT_HISTORY_SIZE: usize = 10;

/// The port of the web page, where the command line names none.
pub const DEFAULT_PORT: u16 = 60006;

/// The bit pattern of 0.2, the weight of a new temperature where the command
/// line names none.
pub const DEFAULT_ALPHA_BITS: u64 = 0x3FC9_9999_9999_999A;

/// The bit pattern of 1.
pub const ONE_BITS: u64 = 0x3FF0_0000_0000_0000;

/// How to call the program.
pub const USAGE: &'static str =
    "Usage: fan -i <interval_secs> -c <config> -n <history_size> -p <port> -a <ema_alpha>";

/// A call of the program.
pub const EXAMPLE: &'static str =
    "Example: fan -i 5 -c 0:0,40:40,45:100,48:150,50:200,55:230,60:255 -n 10 -p 60006 -a 0.3";

/// The options that take a value.
#[derive(Clone, Copy, Debug, PartialEq, Eq, Structural)]
pub enum Flag {
    Interval,
    Config,
    HistorySize,
    Port,
    Alpha,
}

/// Why a command line is refused.
#[derive(Clone, Copy, Debug, PartialEq, Eq, Structural)]
pub enum ArgError {
    /// Nothing follows the option.
    MissingValue(Flag),
    /// The interval is no number.
    InvalidInterval(IntError),
    /// The history size is no number.
    InvalidHistorySize(IntError),
    /// The history would hold nothing.
    ZeroHistorySize,
    /// The port is no port number.
    InvalidPort(IntError),
    /// The argument at this place, the weight of new temperatures, is no number.
    InvalidAlpha(usize),
    /// The weight of new temperatures is not above 0 and up to 1.
    AlphaOutOfRange,
    /// Help is asked for.
    Help,
    /// The argument at this place is no option.
    UnknownArgument(usize),
    /// No profile is given.
    MissingConfig,
}

/// What the command line settles.
#[derive(Debug)]
pub struct Settings {
    pub interval: u64,
    pub config: String,
    pub history_size: usize,
    pub port: u16,
    pub alpha: Double,
}

/// What settings hold.
pub struct SettingsView {
    pub interval: u64,
    pub config: Seq<char>,
    pub history_size: usize,
    pub port: u16,
    pub alpha: Double,
}

impl View for Settings {
    type V = SettingsView;

    open spec fn view(&self) -> SettingsView {
        SettingsView {
            interval: self.interval,
            config: self.config@,
            history_size: self.history_size,
            port: self.port,
            alpha: self.alpha,
        }
    }
}

/// The settings of a command line that says nothing.
pub open spec fn defaults() -> SettingsView {
    SettingsView {
        interval: DEFAULT_INTERVAL,
        config: Seq::empty(),
        history_size: DEFAULT_HISTORY_SIZE,
        port: DEFAULT_PORT,
        alpha: Double { bits: DEFAULT_ALPHA_BITS },
    }
}

/// The option that an argument names, if any.
pub open spec fn flag_of(arg: Seq<char>) -> Option<Flag> {
    if arg == "-i"@ {
        Some(Flag::Interval)
    } else if arg == "-c"@ {
        Some(Flag::Config)
    } else if arg == "-n"@ {
        Some(Flag::HistorySize)
    } else if arg == "-p"@ {
        Some(Flag::Port)
    } else if arg == "-a"@ {
        Some(Flag::Alpha)
    } else {
        None
    }
}

/// Whether a weight of new temperatures is refused: 0 and less, and more than 1.
/// What is not a number is neither.
pub open spec fn refused_alpha(alpha: Double) -> bool {
    Double { bits: 0 }.ge(alpha) || alpha.gt(Double { bits: ONE_BITS })
}

/// The settings with the value of one option taken in. `double` is the number
/// that the value spells, if any, and `place` is where the value stands.
pub open spec fn with_option(
    s: SettingsView,
    flag: Flag,
    value: Seq<char>,
    double: Option<Double>,
    place: usize,
) -> Result<SettingsView, ArgError> {
    match flag {
        Flag::Interval => match reading(value, u64::MAX as nat) {
            Ok(v) => Ok(SettingsView { interval: v as u64, ..s }),
            Err(e) => Err(ArgError::InvalidInterval(e)),
        },
        Flag::Config => Ok(SettingsView { config: value, ..s }),
        Flag::HistorySize => match reading(value, usize::MAX as nat) {
            Ok(v) => if v == 0 {
                Err(ArgError::ZeroHistorySize)
            } else {
                Ok(SettingsView { history_size: v as usize, ..s })
            },
            Err(e) => Err(ArgError::InvalidHistorySize(e)),
        },
        Flag::Port => match reading(value, u16::MAX as nat) {
            Ok(v) => Ok(SettingsView { port: v as u16, ..s }),
            Err(e) => Err(ArgError::InvalidPort(e)),
        },
        Flag::Alpha => match double {
            Some(a) => if refused_alpha(a) {
                Err(ArgError::AlphaOutOfRange)
            } else {
                Ok(SettingsView { alpha: a, ..s })
            },
            None => Err(ArgError::InvalidAlpha(place)),
        },
    }
}

/// The settings with the arguments from place `i` on taken in, left to right,
/// or the first thing wrong with them.
pub open spec fn scanned(
    args: Seq<Seq<char>>,
    doubles: Seq<Option<Double>>,
    i: int,
    s: SettingsView,
) -> Result<SettingsView, ArgError>
    decreases args.len() - i,
{
    if i >= args.len() {
        Ok(s)
    } else {
        match flag_of(args[i]) {
            Some(flag) => if i + 1 >= args.len() {
                Err(ArgError::MissingValue(flag))
            } else {
                match with_option(s, flag, args[i + 1], doubles[i + 1], (i + 1) as usize) {
                    Ok(t) => scanned(args, doubles, i + 2, t),
                    Err(e) => Err(e),
                }
            },
            None => if args[i] == "-h"@ || args[i] == "--help"@ {
                Err(ArgError::Help)
            } else {
                Err(ArgError::UnknownArgument(i as usize))
            },
        }
    }
}

/// What a command line settles, or why it is refused. The first argument is
/// the program's name.
pub open spec fn settled(args: Seq<Seq<char>>, doubles: Seq<Option<Double>>) -> Result<
    SettingsView,
    ArgError,
> {
    match scanned(args, doubles, 1, defaults()) {
        Ok(s) => if s.config.len() == 0 {
            Err(ArgError::MissingConfig)
        } else {
            Ok(s)
        },
        Err(e) => Err(e),
    }
}

/// Whether settings are such that the controller can go by them.
pub open spec fn usable(s: SettingsView) -> bool {
    s.history_size >= 1 && !refused_alpha(s.alpha)
}

fn read_flag(arg: &[char]) -> (r: Option<Flag>)
    ensures
        r == flag_of(arg@),
{
    if spells(arg, "-i") {
        Some(Flag::Interval)
    } else if spells(arg, "-c") {
        Some(Flag::Config)
    } else if spells(arg, "-n") {
        Some(Flag::HistorySize)
    } else if spells(arg, "-p") {
        Some(Flag::Port)
    } else if spells(arg, "-a") {
        Some(Flag::Alpha)
    } else {
        None
    }
}

/// Takes in the value of one option; on an error the settings stay as they are.
fn take_option(
    s: &mut Settings,
    flag: Flag,
    value: &String,
    double: Option<Double>,
    place: usize,
) -> (r: Result<(), ArgError>)
    ensures
        match r {
            Ok(()) => with_option(old(s)@, flag, value@, double, place) == Ok::<
                SettingsView,
                ArgError,
            >(final(s)@),
            Err(e) => with_option(old(s)@, flag, value@, double, place) == Err::<
                SettingsView,
                ArgError,
            >(e) && final(s)@ == old(s)@,
        },
        usable(old(s)@) ==> usable(final(s)@),
{
    match flag {
        Flag::Interval => match parse_unsigned(chars_of(value.as_str()).as_slice(), u64::MAX) {
            Ok(v) => {
                s.interval = v;
                Ok(())
            },
            Err(e) => Err(ArgError::InvalidInterval(e)),
        },
        Flag::Config => {
            s.config = value.clone();
            Ok(())
        },
        Flag::HistorySize => match parse_unsigned(
            chars_of(value.as_str()).as_slice(),
            usize::MAX as u64,
        ) {
            Ok(v) => if v == 0 {
                Err(ArgError::ZeroHistorySize)
            } else {
                s.history_size = v as usize;
                Ok(())
            },
            Err(e) => Err(ArgError::InvalidHistorySize(e)),
        },
        Flag::Port => match parse_unsigned(
            chars_of(value.as_str()).as_slice(),
            u16::MAX as u64,
        ) {
            Ok(v) => {
                s.port = v as u16;
                Ok(())
            },
            Err(e) => Err(ArgError::InvalidPort(e)),
        },
        Flag::Alpha => match double {
            Some(a) => if (Double { bits: 0 }).at_least(a) || a.above(Double { bits: ONE_BITS }) {
                Err(ArgError::AlphaOutOfRange)
            } else {
                s.alpha = a;
                Ok(())
            },
            None => Err(ArgError::InvalidAlpha(place)),
        },
    }
}

/// What a command line settles. `doubles[i]` is the number that argument `i`
/// spells, if any.
pub fn parse_args(args: &Vec<String>, doubles: &Vec<Option<Double>>) -> (r: Result<
    Settings,
    ArgError,
>)
    requires
        doubles@.len() == args@.len(),
    ensures
        match r {
            Ok(s) => settled(string_views(args@), doubles@) == Ok::<SettingsView, ArgError>(s@),
            Err(e) => settled(string_views(args@), doubles@) == Err::<SettingsView, ArgError>(e),
        },
        r is Ok ==> usable(r->Ok_0@) && r->Ok_0@.config.len() > 0,
        r is Err ==> r->Err_0.within(args@.len()),
{
    let ghost all = string_views(args@);
    let mut s = Settings {
        interval: DEFAULT_INTERVAL,
        config: String::new(),
        history_size: DEFAULT_HISTORY_SIZE,
        port: DEFAULT_PORT,
        alpha: Double { bits: DEFAULT_ALPHA_BITS },
    };
    assert(usable(s@)) by {
        lemma_rank_orders(s.alpha, Double { bits: 0 });
        lemma_rank_orders(Double { bits: 0 }, s.alpha);
        lemma_rank_orders(s.alpha, Double { bits: ONE_BITS });
        lemma_rank_orders(Double { bits: ONE_BITS }, s.alpha);
    }
    assert(s@ == defaults());
    proof {
        assert(all.len() == args.len());
        lemma_error_within(all, doubles@, 1, defaults());
    }
    let mut i: usize = 1;
    while i < args.len()
        invariant
            i >= 1,
            all == string_views(args@),
            doubles@.len() == args@.len(),
            scanned(all, doubles@, i as int, s@) == scanned(all, doubles@, 1, defaults()),
            usable(s@),
        decreases args@.len() - i,
    {
        let chars = chars_of(args[i].as_str());
        assert(all[i as int] == args@[i as int]@);
        match read_flag(chars.as_slice()) {
            Some(flag) => {
                if i + 1 >= args.len() {
                    return Err(ArgError::MissingValue(flag));
                }
                assert(all[i + 1] == args@[i + 1]@);
                if let Err(e) = take_option(&mut s, flag, &args[i + 1], doubles[i + 1], i + 1) {
                    return Err(e);
                }
            },
            None => {
                if spells(chars.as_slice(), "-h") || spells(chars.as_slice(), "--help") {
                    return Err(ArgError::Help);
                }
                return Err(ArgError::UnknownArgument(i));
            },
        }
        i += 2;
    }
    if s.config.as_str().is_empty() {
        return Err(ArgError::MissingConfig);
    }
    Ok(s)
}

/// The option as it is written.
pub open spec fn flag_text(flag: Flag) -> Seq<char> {
    match flag {
        Flag::Interval => "-i"@,
        Flag::Config => "-c"@,
        Flag::HistorySize => "-n"@,
        Flag::Port => "-p"@,
        Flag::Alpha => "-a"@,
    }
}

impl ArgError {
    /// The error in words. `reason` says why the weight of new temperatures is
    /// no number. Asking for help is none.
    pub open spec fn words(self, args: Seq<Seq<char>>, reason: Seq<char>) -> Option<Seq<char>> {
        match self {
            ArgError::MissingValue(flag) => Some("Missing value for "@ + flag_text(flag)),
            ArgError::InvalidInterval(e) => Some("Invalid interval: "@ + e.words()),
            ArgError::InvalidHistorySize(e) => Some("Invalid history size: "@ + e.words()),
            ArgError::ZeroHistorySize => Some("History size must be >= 1"@),
            ArgError::InvalidPort(e) => Some("Invalid port: "@ + e.words()),
            ArgError::InvalidAlpha(_) => Some("Invalid alpha: "@ + reason),
            ArgError::AlphaOutOfRange => Some("Alpha must be in (0, 1]"@),
            ArgError::Help => None,
            ArgError::UnknownArgument(i) => Some("Unknown argument: "@ + args[i as int]),
            ArgError::MissingConfig => Some("Missing required argument: -c <config>"@),
        }
    }

    /// Whether the place that the error names is one of `n` arguments.
    pub open spec fn within(self, n: nat) -> bool {
        match self {
            ArgError::InvalidAlpha(i) => i < n,
            ArgError::UnknownArgument(i) => i < n,
            _ => true,
        }
    }

    /// The error in words. `reason` says why the weight of new temperatures is
    /// no number.
    pub fn message(&self, args: &Vec<String>, reason: &str) -> (r: Option<String>)
        requires
            self.within(args@.len()),
        ensures
            match r {
                Some(m) => self.words(string_views(args@), reason@) == Some(m@),
                None => self.words(string_views(args@), reason@) is None,
            },
    {
        match self {
            ArgError::MissingValue(flag) => {
                let name = match flag {
                    Flag::Interval => "-i",
                    Flag::Config => "-c",
                    Flag::HistorySize => "-n",
                    Flag::Port => "-p",
                    Flag::Alpha => "-a",
                };
                Some("Missing value for ".to_owned().concat(name))
            },
            ArgError::InvalidInterval(e) => Some(
                "Invalid interval: ".to_owned().concat(e.message()),
            ),
            ArgError::InvalidHistorySize(e) => Some(
                "Invalid history size: ".to_owned().concat(e.message()),
            ),
            ArgError::ZeroHistorySize => Some("History size must be >= 1".to_owned()),
            ArgError::InvalidPort(e) => Some("Invalid port: ".to_owned().concat(e.message())),
            ArgError::InvalidAlpha(_) => Some("Invalid alpha: ".to_owned().concat(reason)),
            ArgError::AlphaOutOfRange => Some("Alpha must be in (0, 1]".to_owned()),
            ArgError::Help => None,
            ArgError::UnknownArgument(i) => {
                assert(string_views(args@)[*i as int] == args@[*i as int]@);
                Some("Unknown argument: ".to_owned().concat(args[*i].as_str()))
            },
            ArgError::MissingConfig => Some("Missing required argument: -c <config>".to_owned()),
        }
    }

    /// Whether the usage is shown after the error.
    pub fn shows_usage(&self) -> (r: bool)
        ensures
            r == (self !is ZeroHistorySize),
    {
        match self {
            ArgError::ZeroHistorySize => false,
            _ => true,
        }
    }
}

/// An error of a command line names a place in it, if any.
proof fn lemma_error_within(
    args: Seq<Seq<char>>,
    doubles: Seq<Option<Double>>,
    i: int,
    s: SettingsView,
)
    requires
        0 <= i,
        args.len() <= usize::MAX,
    ensures
        scanned(args, doubles, i, s) is Err ==> scanned(args, doubles, i, s)->Err_0.within(
            args.len(),
        ),
    decreases args.len() - i,
{
    if i + 1 < args.len() && flag_of(args[i]) is Some {
        let next = with_option(
            s,
            flag_of(args[i])->0,
            args[i + 1],
            doubles[i + 1],
            (i + 1) as usize,
        );
        if next is Ok {
            lemma_error_within(args, doubles, i + 2, next->Ok_0);
        }
    }
}

/// The options can be given in any order: where two different ones are
/// accepted, taking them in the other way round settles the same.
pub proof fn law_options_in_any_order(
    s: SettingsView,
    f: Flag,
    v: Seq<char>,
    dv: Option<Double>,
    g: Flag,
    w: Seq<char>,
    dw: Option<Double>,
    place: usize,
    other_place: usize,
)
    requires
        f != g,
        with_option(s, f, v, dv, place) is Ok,
        with_option(s, g, w, dw, other_place) is Ok,
    ensures
        with_option(with_option(s, f, v, dv, place)->Ok_0, g, w, dw, other_place) == with_option(
            with_option(s, g, w, dw, other_place)->Ok_0,
            f,
            v,
            dv,
            place,
        ),
        with_option(with_option(s, f, v, dv, place)->Ok_0, g, w, dw, other_place) is Ok,
{
}

/// Of an option that is given twice, the second value counts.
pub proof fn law_second_value_counts(
    s: SettingsView,
    f: Flag,
    v: Seq<char>,
    dv: Option<Double>,
    w: Seq<char>,
    dw: Option<Double>,
    place: usize,
    other_place: usize,
)
    requires
        with_option(s, f, v, dv, place) is Ok,
    ensures
        with_option(with_option(s, f, v, dv, place)->Ok_0, f, w, dw, other_place) == with_option(
            s,
            f,
            w,
            dw,
            other_place,
        ),
{
}

/// A profile is all that a command line needs; the rest is settled by default.
pub proof fn law_profile_is_enough(
    program: Seq<char>,
    config: Seq<char>,
    doubles: Seq<Option<Double>>,
)
    requires
        config.len() > 0,
    ensures
        settled(seq![program, "-c"@, config], doubles) == Ok::<SettingsView, ArgError>(
            SettingsView { config, ..defaults() },
        ),
{
    lemma_flags_differ();
    let args = seq![program, "-c"@, config];
    let s = SettingsView { config, ..defaults() };
    assert(scanned(args, doubles, 3, s) == Ok::<SettingsView, ArgError>(s));
    assert(scanned(args, doubles, 1, defaults()) == Ok::<SettingsView, ArgError>(s));
}

/// A weight of new temperatures that is a number is accepted just when it is
/// above 0 and up to 1, which is 2 to the power of 1074 units.
pub proof fn law_accepted_alpha(alpha: Double)
    requires
        !alpha.nan(),
    ensures
        !refused_alpha(alpha) <==> 0 < alpha.value() <= pow2(1074),
{
    let one = Double { bits: ONE_BITS };
    assert(one.value() == pow2(1074)) by {
        lemma2_to64_rest();
        assert(ONE_BITS as nat / (FRACTION_RANGE as nat) == 1023);
        assert(ONE_BITS as nat % (FRACTION_RANGE as nat) == 0);
        assert(pow2(52) == FRACTION_RANGE);
        lemma_pow2_adds(52, 1022);
    }
    assert(Double { bits: 0 }.value() == 0);
}

/// A command line that names every option settles what it names.
pub proof fn law_written_command_line(
    program: Seq<char>,
    s: SettingsView,
    alpha: Seq<char>,
    doubles: Seq<Option<Double>>,
)
    requires
        usable(s),
        s.config.len() > 0,
        doubles.len() == 11,
        doubles[10] == Some(s.alpha),
    ensures
        settled(
            seq![
                program,
                "-i"@,
                decimal(s.interval as nat),
                "-c"@,
                s.config,
                "-n"@,
                decimal(s.history_size as nat),
                "-p"@,
                decimal(s.port as nat),
                "-a"@,
                alpha,
            ],
            doubles,
        ) == Ok::<SettingsView, ArgError>(s),
{
    let args = seq![
        program,
        "-i"@,
        decimal(s.interval as nat),
        "-c"@,
        s.config,
        "-n"@,
        decimal(s.history_size as nat),
        "-p"@,
        decimal(s.port as nat),
        "-a"@,
        alpha,
    ];
    lemma_flags_differ();
    law_decimal_reads_back(s.interval as nat, u64::MAX as nat);
    law_decimal_reads_back(s.history_size as nat, usize::MAX as nat);
    law_decimal_reads_back(s.port as nat, u16::MAX as nat);
    let s1 = SettingsView { interval: s.interval, ..defaults() };
    let s2 = SettingsView { config: s.config, ..s1 };
    let s3 = SettingsView { history_size: s.history_size, ..s2 };
    let s4 = SettingsView { port: s.port, ..s3 };
    assert(scanned(args, doubles, 11, s) == Ok::<SettingsView, ArgError>(s));
    assert(scanned(args, doubles, 9, s4) == Ok::<SettingsView, ArgError>(s));
    assert(scanned(args, doubles, 7, s3) == Ok::<SettingsView, ArgError>(s));
    assert(scanned(args, doubles, 5, s2) == Ok::<SettingsView, ArgError>(s));
    assert(scanned(args, doubles, 3, s1) == Ok::<SettingsView, ArgError>(s));
    assert(scanned(args, doubles, 1, defaults()) == Ok::<SettingsView, ArgError>(s));
}

proof fn lemma_flags_differ()
    ensures
        flag_of("-i"@) == Some(Flag::Interval),
        flag_of("-c"@) == Some(Flag::Config),
        flag_of("-n"@) == Some(Flag::HistorySize),
        flag_of("-p"@) == Some(Flag::Port),
        flag_of("-a"@) == Some(Flag::Alpha),
{
    reveal_strlit("-i");
    reveal_strlit("-c");
    reveal_strlit("-n");
    reveal_strlit("-p");
    reveal_strlit("-a");
    assert("-i"@[1] == 'i' && "-c"@[1] == 'c' && "-n"@[1] == 'n' && "-p"@[1] == 'p' && "-a"@[1]
        == 'a');
}

} // verus!
