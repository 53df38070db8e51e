//! What a command line settles, in terms of the options it is made of.
use crate::args::{
    defaults, flag_of, law_accepted_alpha, refused_alpha, scanned, settled, with_option, ArgError,
    Flag, SettingsView,
};
use crate::decimal::{reading, IntError};
use crate::double::Double;
use vstd::arithmetic::power2::pow2;
use vstd::prelude::*;

verus! {

/// An option with its value, and the number that the value spells, if any.
pub struct Choice {
    pub flag: Flag,
    pub value: Seq<char>,
    pub double: Option<Double>,
}

/// The letter of an option.
pub open spec fn letter(flag: Flag) -> char {
    match flag {
        Flag::Interval => 'i',
        Flag::Config => 'c',
        Flag::HistorySize => 'n',
        Flag::Port => 'p',
        Flag::Alpha => 'a',
    }
}

/// Whether an argument is the option: a dash and its letter.
pub open spec fn writes(arg: Seq<char>, flag: Flag) -> bool {
    arg == seq!['-', letter(flag)]
}

/// Whether the arguments behind the program's name start with those options,
/// each followed by its value.
pub open spec fn starts_with(
    args: Seq<Seq<char>>,
    doubles: Seq<Option<Double>>,
    choices: Seq<Choice>,
) -> bool {
    &&& args.len() > 2 * choices.len()
    &&& forall|k: int|
        0 <= k < choices.len() ==> {
            &&& writes(args[2 * k + 1], (#[trigger] choices[k]).flag)
            &&& args[2 * k + 2] == choices[k].value
            &&& doubles[2 * k + 2] == choices[k].double
        }
}

/// What is wrong with an option's value at a place, if anything: a number that
/// is none or too large, a history of nothing, or a weight that is no number or
/// a number that is not above 0 and up to 1.
pub open spec fn refusal(c: Choice, place: int) -> Option<ArgError> {
    match c.flag {
        Flag::Interval => match reading(c.value, 0xFFFF_FFFF_FFFF_FFFF) {
            Ok(_) => None,
            Err(e) => Some(ArgError::InvalidInterval(e)),
        },
        Flag::Config => None,
        Flag::HistorySize => match reading(c.value, usize::MAX as nat) {
            Ok(n) => if n == 0 {
                Some(ArgError::ZeroHistorySize)
            } else {
                None
            },
            Err(e) => Some(ArgError::InvalidHistorySize(e)),
        },
        Flag::Port => match reading(c.value, 65535) {
            Ok(_) => None,
            Err(e) => Some(ArgError::InvalidPort(e)),
        },
        Flag::Alpha => match c.double {
            Some(a) => if a.nan() || 0 < a.value() <= pow2(1074) {
                None
            } else {
                Some(ArgError::AlphaOutOfRange)
            },
            None => Some(ArgError::InvalidAlpha(place as usize)),
        },
    }
}

/// Whether nothing is wrong with any of the options.
pub open spec fn acceptable(choices: Seq<Choice>) -> bool {
    forall|k: int| 0 <= k < choices.len() ==> refusal(#[trigger] choices[k], 0) is None
}

/// Whether option `k` is the last of its kind.
pub open spec fn last_of(choices: Seq<Choice>, flag: Flag, k: int) -> bool {
    &&& 0 <= k < choices.len()
    &&& choices[k].flag == flag
    &&& forall|j: int| k < j < choices.len() ==> (#[trigger] choices[j]).flag != flag
}

/// Whether no option is of the kind.
pub open spec fn absent(choices: Seq<Choice>, flag: Flag) -> bool {
    forall|j: int| 0 <= j < choices.len() ==> (#[trigger] choices[j]).flag != flag
}

/// Whether each setting is the last one chosen, or else the default: 5 seconds,
/// no profile, 10 samples, port 60006 and the weight 0.2, whose bit pattern
/// stands here.
pub open spec fn settles(s: SettingsView, choices: Seq<Choice>) -> bool {
    &&& forall|k: int| #[trigger]
        last_of(choices, Flag::Interval, k) ==> Ok::<nat, IntError>(s.interval as nat) == reading(
            choices[k].value,
            0xFFFF_FFFF_FFFF_FFFF,
        )
    &&& absent(choices, Flag::Interval) ==> s.interval == 5
    &&& forall|k: int| #[trigger]
        last_of(choices, Flag::Config, k) ==> s.config == choices[k].value
    &&& absent(choices, Flag::Config) ==> s.config == Seq::<char>::empty()
    &&& forall|k: int| #[trigger]
        last_of(choices, Flag::HistorySize, k) ==> Ok::<nat, IntError>(s.history_size as nat)
            == reading(choices[k].value, usize::MAX as nat)
    &&& absent(choices, Flag::HistorySize) ==> s.history_size == 10
    &&& forall|k: int| #[trigger]
        last_of(choices, Flag::Port, k) ==> Ok::<nat, IntError>(s.port as nat) == reading(
            choices[k].value,
            65535,
        )
    &&& absent(choices, Flag::Port) ==> s.port == 60006
    &&& forall|k: int| #[trigger]
        last_of(choices, Flag::Alpha, k) ==> Some(s.alpha) == choices[k].double
    &&& absent(choices, Flag::Alpha) ==> s.alpha == Double { bits: 0x3FC9_9999_9999_999A }
}

/// The settings with the options taken in one by one.
spec fn taken(choices: Seq<Choice>) -> SettingsView
    decreases choices.len(),
{
    if choices.len() == 0 {
        defaults()
    } else {
        let c = choices.last();
        with_option(taken(choices.drop_last()), c.flag, c.value, c.double, 0)->Ok_0
    }
}

proof fn lemma_flag_of(arg: Seq<char>)
    ensures
        forall|f: Flag| #[trigger] writes(arg, f) <==> flag_of(arg) == Some(f),
{
    reveal_strlit("-i");
    reveal_strlit("-c");
    reveal_strlit("-n");
    reveal_strlit("-p");
    reveal_strlit("-a");
    assert("-i"@ =~= seq!['-', 'i']);
    assert("-c"@ =~= seq!['-', 'c']);
    assert("-n"@ =~= seq!['-', 'n']);
    assert("-p"@ =~= seq!['-', 'p']);
    assert("-a"@ =~= seq!['-', 'a']);
    assert forall|f: Flag| #[trigger] writes(arg, f) <==> flag_of(arg) == Some(f) by {
        if writes(arg, f) {
            assert(arg[1] == letter(f));
            assert("-i"@[1] == 'i' && "-c"@[1] == 'c' && "-n"@[1] == 'n' && "-p"@[1] == 'p'
                && "-a"@[1] == 'a');
        }
    }
}

proof fn lemma_refusal(s: SettingsView, c: Choice, place: usize)
    ensures
        match refusal(c, place as int) {
            Some(e) => with_option(s, c.flag, c.value, c.double, place) == Err::<
                SettingsView,
                ArgError,
            >(e),
            None => with_option(s, c.flag, c.value, c.double, place) is Ok,
        },
        refusal(c, place as int) is None <==> refusal(c, 0) is None,
        refusal(c, place as int) is None ==> with_option(s, c.flag, c.value, c.double, place)
            == with_option(s, c.flag, c.value, c.double, 0),
{
    if c.flag == Flag::Alpha && c.double is Some {
        let a = c.double->0;
        if !a.nan() {
            law_accepted_alpha(a);
        }
    }
}

proof fn lemma_reading_within(s: Seq<char>, limit: nat)
    ensures
        reading(s, limit) is Ok ==> reading(s, limit)->Ok_0 <= limit,
{
    let body = crate::decimal::unsigned_part(s);
    let n = crate::text::prefix_len(body, crate::decimal::digits());
    crate::text::lemma_prefix_len(body, crate::decimal::digits(), n);
    if n == body.len() {
        assert(body.take(n as int) =~= body);
    }
}

proof fn lemma_taken_settles(choices: Seq<Choice>)
    requires
        acceptable(choices),
    ensures
        settles(taken(choices), choices),
    decreases choices.len(),
{
    if choices.len() > 0 {
        let front = choices.drop_last();
        let c = choices.last();
        let n = choices.len() - 1;
        assert forall|k: int| 0 <= k < front.len() implies refusal(#[trigger] front[k], 0) is None by {
            assert(front[k] == choices[k]);
        }
        lemma_taken_settles(front);
        assert(choices[n] == c);
        assert(refusal(choices[n], 0) is None);
        lemma_refusal(taken(front), c, 0);
        lemma_reading_within(c.value, 0xFFFF_FFFF_FFFF_FFFF);
        lemma_reading_within(c.value, usize::MAX as nat);
        lemma_reading_within(c.value, 65535);
        assert forall|f: Flag, k: int| #[trigger] last_of(choices, f, k) implies if k == n {
            c.flag == f
        } else {
            c.flag != f && last_of(front, f, k) && choices[k] == front[k]
        } by {
            if k < n {
                assert(choices[n].flag != f);
                assert forall|j: int| k < j < front.len() implies (
                #[trigger] front[j]).flag != f by {
                    assert(front[j] == choices[j]);
                }
            }
        }
        assert forall|f: Flag| #[trigger] absent(choices, f) implies c.flag != f && absent(
            front,
            f,
        ) by {
            assert(choices[n].flag != f);
            assert forall|j: int| 0 <= j < front.len() implies (#[trigger] front[j]).flag != f by {
                assert(front[j] == choices[j]);
            }
        }
    }
}

proof fn lemma_scan_past(
    args: Seq<Seq<char>>,
    doubles: Seq<Option<Double>>,
    choices: Seq<Choice>,
    n: nat,
)
    requires
        starts_with(args, doubles, choices),
        acceptable(choices),
        args.len() <= usize::MAX,
        n <= choices.len(),
    ensures
        scanned(args, doubles, 1, defaults()) == scanned(
            args,
            doubles,
            2 * n as int + 1,
            taken(choices.take(n as int)),
        ),
    decreases n,
{
    if n > 0 {
        let m = (n - 1) as nat;
        lemma_scan_past(args, doubles, choices, m);
        let c = choices[m as int];
        let i = 2 * m as int + 1;
        assert(writes(args[2 * m as int + 1], c.flag));
        lemma_flag_of(args[i]);
        assert(refusal(choices[m as int], 0) is None);
        lemma_refusal(taken(choices.take(m as int)), c, (i + 1) as usize);
        assert(choices.take(n as int).drop_last() =~= choices.take(m as int));
        assert(choices.take(n as int).last() == c);
    }
}

/// A command line of options that are all in order settles for each the last
/// one chosen, and else the default, in whatever order and number they come;
/// only a profile may not be missing.
pub proof fn law_last_choice_settles(
    args: Seq<Seq<char>>,
    doubles: Seq<Option<Double>>,
    choices: Seq<Choice>,
)
    requires
        starts_with(args, doubles, choices),
        args.len() == 2 * choices.len() + 1,
        args.len() <= usize::MAX,
        acceptable(choices),
    ensures
        match settled(args, doubles) {
            Ok(s) => settles(s, choices) && s.config.len() > 0,
            Err(e) => e == ArgError::MissingConfig && (absent(choices, Flag::Config) || exists|
                k: int,
            | #[trigger]
                last_of(choices, Flag::Config, k) && choices[k].value.len() == 0),
        },
{
    let s = taken(choices);
    lemma_scan_past(args, doubles, choices, choices.len());
    assert(choices.take(choices.len() as int) =~= choices);
    lemma_taken_settles(choices);
    if s.config.len() == 0 && !absent(choices, Flag::Config) {
        let j = choose|j: int|
            0 <= j < choices.len() && (#[trigger] choices[j]).flag == Flag::Config;
        let k = lemma_last_exists(choices, Flag::Config, j);
        assert(last_of(choices, Flag::Config, k));
    }
}

proof fn lemma_last_exists(choices: Seq<Choice>, flag: Flag, j: int) -> (k: int)
    requires
        0 <= j < choices.len(),
        choices[j].flag == flag,
    ensures
        last_of(choices, flag, k),
    decreases choices.len(),
{
    let n = choices.len() - 1;
    if choices[n].flag == flag {
        n
    } else {
        let front = choices.drop_last();
        assert(front[j] == choices[j]);
        let k = lemma_last_exists(front, flag, j);
        assert forall|i: int| k < i < choices.len() implies (#[trigger] choices[i]).flag != flag by {
            if i < n {
                assert(front[i] == choices[i]);
            }
        }
        k
    }
}

/// Behind options that are in order, the first that is not is what the command
/// line is refused for, whatever follows it.
pub proof fn law_first_refusal_counts(
    args: Seq<Seq<char>>,
    doubles: Seq<Option<Double>>,
    choices: Seq<Choice>,
    bad: Choice,
)
    requires
        starts_with(args, doubles, choices.push(bad)),
        args.len() <= usize::MAX,
        acceptable(choices),
        refusal(bad, 2 * choices.len() as int + 2) is Some,
    ensures
        settled(args, doubles) == Err::<SettingsView, ArgError>(
            refusal(bad, 2 * choices.len() as int + 2)->0,
        ),
{
    let n = choices.len();
    let all = choices.push(bad);
    assert forall|k: int| 0 <= k < choices.len() implies writes(
        args[2 * k + 1],
        (#[trigger] choices[k]).flag,
    ) && args[2 * k + 2] == choices[k].value && doubles[2 * k + 2] == choices[k].double by {
        assert(all[k] == choices[k]);
    }
    lemma_scan_past(args, doubles, choices, n);
    assert(choices.take(n as int) =~= choices);
    assert(all[n as int] == bad);
    assert(writes(args[2 * n as int + 1], all[n as int].flag));
    lemma_flag_of(args[2 * n as int + 1]);
    lemma_refusal(taken(choices), bad, (2 * n + 2) as usize);
}

/// Behind options that are in order, an option at the end of the command line
/// lacks its value.
pub proof fn law_option_without_value(
    args: Seq<Seq<char>>,
    doubles: Seq<Option<Double>>,
    choices: Seq<Choice>,
    flag: Flag,
)
    requires
        starts_with(args, doubles, choices),
        args.len() == 2 * choices.len() + 2,
        args.len() <= usize::MAX,
        acceptable(choices),
        writes(args.last(), flag),
    ensures
        settled(args, doubles) == Err::<SettingsView, ArgError>(ArgError::MissingValue(flag)),
{
    let n = choices.len();
    lemma_scan_past(args, doubles, choices, n);
    assert(choices.take(n as int) =~= choices);
    lemma_flag_of(args[2 * n as int + 1]);
}

/// Behind options that are in order, an argument that is no option asks for
/// help or is unknown, whatever follows it.
pub proof fn law_other_arguments(
    args: Seq<Seq<char>>,
    doubles: Seq<Option<Double>>,
    choices: Seq<Choice>,
)
    requires
        starts_with(args, doubles, choices),
        args.len() >= 2 * choices.len() + 2,
        args.len() <= usize::MAX,
        acceptable(choices),
        forall|f: Flag| !#[trigger] writes(args[2 * choices.len() as int + 1], f),
    ensures
        ({
            let arg = args[2 * choices.len() as int + 1];
            let help = arg == seq!['-', 'h'] || arg == seq!['-', '-', 'h', 'e', 'l', 'p'];
            settled(args, doubles) == Err::<SettingsView, ArgError>(
                if help {
                    ArgError::Help
                } else {
                    ArgError::UnknownArgument((2 * choices.len() + 1) as usize)
                },
            )
        }),
{
    let n = choices.len();
    let arg = args[2 * n as int + 1];
    lemma_scan_past(args, doubles, choices, n);
    assert(choices.take(n as int) =~= choices);
    lemma_flag_of(arg);
    assert(flag_of(arg) is None) by {
        if flag_of(arg) is Some {
            assert(writes(arg, flag_of(arg)->0));
        }
    }
    reveal_strlit("-h");
    reveal_strlit("--help");
    assert("-h"@ =~= seq!['-', 'h']);
    assert("--help"@ =~= seq!['-', '-', 'h', 'e', 'l', 'p']);
}

/// A weight that is no number is not refused.
pub proof fn law_weight_that_is_no_number(alpha: Double)
    requires
        alpha.nan(),
    ensures
        !refused_alpha(alpha),
{
}

/// No arguments at all, not even a program's name, name no profile.
pub proof fn law_no_arguments(doubles: Seq<Option<Double>>)
    ensures
        settled(Seq::empty(), doubles) == Err::<SettingsView, ArgError>(ArgError::MissingConfig),
{
}

/// A message ends with what is wrong: the option, the argument, or the reason;
/// asking for help is no error.
pub proof fn law_messages(
    flag: Flag,
    e: IntError,
    place: usize,
    args: Seq<Seq<char>>,
    reason: Seq<char>,
)
    ensures
        ArgError::MissingValue(flag).words(args, reason) == Some(
            "Missing value for "@ + seq!['-', letter(flag)],
        ),
        ArgError::UnknownArgument(place).words(args, reason) == Some(
            "Unknown argument: "@ + args[place as int],
        ),
        ArgError::InvalidAlpha(place).words(args, reason) == Some("Invalid alpha: "@ + reason),
        ArgError::InvalidInterval(e).words(args, reason) == Some("Invalid interval: "@ + e.words()),
        ArgError::InvalidHistorySize(e).words(args, reason) == Some(
            "Invalid history size: "@ + e.words(),
        ),
        ArgError::InvalidPort(e).words(args, reason) == Some("Invalid port: "@ + e.words()),
        ArgError::ZeroHistorySize.words(args, reason) == Some("History size must be >= 1"@),
        ArgError::AlphaOutOfRange.words(args, reason) == Some("Alpha must be in (0, 1]"@),
        ArgError::MissingConfig.words(args, reason) == Some(
            "Missing required argument: -c <config>"@,
        ),
        ArgError::Help.words(args, reason) is None,
{
    reveal_strlit("-i");
    reveal_strlit("-c");
    reveal_strlit("-n");
    reveal_strlit("-p");
    reveal_strlit("-a");
    assert("-i"@ =~= seq!['-', 'i']);
    assert("-c"@ =~= seq!['-', 'c']);
    assert("-n"@ =~= seq!['-', 'n']);
    assert("-p"@ =~= seq!['-', 'p']);
    assert("-a"@ =~= seq!['-', 'a']);
}

} // verus!
