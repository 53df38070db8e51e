//! The temperature profile: which fan speed belongs to which temperature.
use crate::decimal::{
    decimal, digit, law_decimal_reads_back, lemma_decimal_digits, lemma_decimal_holds_digits,
    parse_unsigned, reading,
};
use crate::double::Double;
use crate::steps::{
    by_temperature, comparable, law_by_temperature, law_ordered_steps_stay, lemma_speed_below,
    profile_steps, sort_by_temperature, speed_at,
};
use crate::text::{
    chars_of, contents, joined, pieces, space, split, string_of, trim, trimmed, word,
};
use crate::text_laws::{
    blank, law_joined_parts_come_back, law_padding_is_trimmed, law_pieces_of_two, lemma_one_piece,
    lemma_trimmed,
};
use vstd::prelude::*;

verus! {

/// One stretch of the configuration, `temperature:speed`: the text of the
/// temperature, and the speed. None where there is no colon or no speed from 0
/// to 255 behind it. What follows a second colon is ignored.
pub open spec fn entry(piece: Seq<char>) -> Option<(Seq<char>, u8)> {
    let s = trimmed(piece);
    let parts = pieces(s, ':');
    if s.len() == 0 || parts.len() < 2 {
        None
    } else {
        match reading(trimmed(parts[1]), 255) {
            Ok(v) => Some((trimmed(parts[0]), v as u8)),
            Err(_) => None,
        }
    }
}

/// The entries among the stretches, in order.
pub open spec fn entries_of(stretches: Seq<Seq<char>>) -> Seq<(Seq<char>, u8)>
    decreases stretches.len(),
{
    if stretches.len() == 0 {
        Seq::empty()
    } else {
        let before = entries_of(stretches.drop_last());
        match entry(stretches.last()) {
            Some(e) => before.push(e),
            None => before,
        }
    }
}

/// The entries of a configuration, which commas separate.
pub open spec fn config_entries(config: Seq<char>) -> Seq<(Seq<char>, u8)> {
    entries_of(pieces(config, ','))
}

/// The entries by what their texts hold.
pub open spec fn entry_views(v: Seq<(String, u8)>) -> Seq<(Seq<char>, u8)> {
    v.map_values(|e: (String, u8)| (e.0@, e.1))
}

/// The steps of a profile: of each entry whose temperature text is a number,
/// that number and the speed. `temps[i]` is the number of entry `i`, if any.
pub open spec fn steps_of(entries: Seq<(Seq<char>, u8)>, temps: Seq<Option<Double>>) -> Seq<
    (Double, u8),
>
    decreases entries.len(),
{
    if entries.len() == 0 {
        Seq::empty()
    } else {
        let before = steps_of(entries.drop_last(), temps);
        match temps[entries.len() - 1] {
            Some(t) => before.push((t, entries.last().1)),
            None => before,
        }
    }
}

/// Why a configuration gives no profile.
#[derive(Clone, Copy, Debug, PartialEq, Eq, Structural)]
pub enum ProfileError {
    /// No entry is a temperature and a speed.
    NoSteps,
}

/// The fan speeds by temperature.
#[derive(Debug)]
pub struct FanProfile {
    steps: Vec<(Double, u8)>,
}

impl ProfileError {
    /// The error in words.
    pub fn message(&self) -> (r: &'static str)
        ensures
            r@ == "Invalid config: no valid temperature:pwm pairs found"@,
    {
        "Invalid config: no valid temperature:pwm pairs found"
    }
}

impl View for FanProfile {
    type V = Seq<(Double, u8)>;

    closed spec fn view(&self) -> Seq<(Double, u8)> {
        self.steps@
    }
}

impl FanProfile {
    #[verifier::type_invariant]
    spec fn in_order(self) -> bool {
        profile_steps(self.steps@)
    }

    fn read_entry(piece: &[char]) -> (r: Option<(String, u8)>)
        ensures
            match r {
                Some(e) => entry(piece@) == Some((e.0@, e.1)),
                None => entry(piece@) is None,
            },
    {
        let s = trim(piece);
        if s.len() == 0 {
            return None;
        }
        let parts = split(s, ':');
        assert(contents(parts@).len() == parts@.len());
        if parts.len() < 2 {
            return None;
        }
        assert(contents(parts@)[0] == parts@[0]@ && contents(parts@)[1] == parts@[1]@);
        match parse_unsigned(trim(parts[1]), 255) {
            Ok(v) => Some((string_of(trim(parts[0])), v as u8)),
            Err(_) => None,
        }
    }

    /// The entries of a configuration: the text of each temperature, and the speed.
    pub fn entries(config: &str) -> (r: Vec<(String, u8)>)
        ensures
            entry_views(r@) == config_entries(config@),
    {
        let chars = chars_of(config);
        let stretches = split(chars.as_slice(), ',');
        let ghost all = contents(stretches@);
        let mut r: Vec<(String, u8)> = Vec::new();
        let mut i: usize = 0;
        assert(entry_views(r@) =~= entries_of(all.take(0)));
        while i < stretches.len()
            invariant
                i <= stretches@.len(),
                all == contents(stretches@),
                entry_views(r@) == entries_of(all.take(i as int)),
            decreases stretches@.len() - i,
        {
            let ghost before = r@;
            assert(all.take(i + 1).drop_last() =~= all.take(i as int));
            assert(all.take(i + 1).last() == stretches@[i as int]@);
            match Self::read_entry(stretches[i]) {
                Some(e) => {
                    r.push(e);
                    assert(entry_views(r@) =~= entry_views(before).push((e.0@, e.1)));
                },
                None => {},
            }
            i += 1;
        }
        assert(all.take(i as int) =~= all);
        r
    }

    fn read_steps(config: &str, temps: &Vec<Option<Double>>) -> (r: Vec<(Double, u8)>)
        requires
            temps@.len() == config_entries(config@).len(),
        ensures
            r@ == steps_of(config_entries(config@), temps@),
    {
        let entries = Self::entries(config);
        let ghost all = config_entries(config@);
        let mut r: Vec<(Double, u8)> = Vec::new();
        let mut i: usize = 0;
        assert(all.take(0) =~= Seq::empty());
        while i < entries.len()
            invariant
                i <= entries@.len(),
                entries@.len() == temps@.len(),
                all == entry_views(entries@),
                r@ == steps_of(all.take(i as int), temps@),
            decreases entries@.len() - i,
        {
            assert(all.take(i + 1).drop_last() =~= all.take(i as int));
            assert(all.take(i + 1).last().1 == entries@[i as int].1);
            match temps[i] {
                Some(t) => {
                    r.push((t, entries[i].1));
                },
                None => {},
            }
            i += 1;
        }
        assert(all.take(i as int) =~= all);
        r
    }

    /// Whether the steps of the configuration can be put in order.
    pub fn can_order(config: &str, temps: &Vec<Option<Double>>) -> (r: bool)
        requires
            temps@.len() == config_entries(config@).len(),
        ensures
            r == comparable(steps_of(config_entries(config@), temps@)),
    {
        let steps = Self::read_steps(config, temps);
        if steps.len() < 2 {
            return true;
        }
        let mut i: usize = 0;
        while i < steps.len()
            invariant
                i <= steps@.len(),
                forall|j: int| 0 <= j < i ==> !(#[trigger] steps@[j]).0.nan(),
                steps@.len() >= 2,
                steps@ == steps_of(config_entries(config@), temps@),
            decreases steps@.len() - i,
        {
            if steps[i].0.is_nan() {
                assert(steps@[i as int].0.nan());
                return false;
            }
            i += 1;
        }
        true
    }

    /// The profile of a configuration. `temps[i]` is the number that the
    /// temperature text of entry `i` spells, if any.
    pub fn parse(config: &str, temps: &Vec<Option<Double>>) -> (r: Result<
        FanProfile,
        ProfileError,
    >)
        requires
            temps@.len() == config_entries(config@).len(),
            comparable(steps_of(config_entries(config@), temps@)),
        ensures
            ({
                let steps = steps_of(config_entries(config@), temps@);
                match r {
                    Ok(p) => steps.len() > 0 && p@ == by_temperature(steps) && profile_steps(p@),
                    Err(ProfileError::NoSteps) => steps.len() == 0,
                }
            }),
    {
        let steps = Self::read_steps(config, temps);
        if steps.len() == 0 {
            return Err(ProfileError::NoSteps);
        }
        let sorted = sort_by_temperature(&steps);
        proof {
            law_by_temperature(steps@);
        }
        Ok(FanProfile { steps: sorted })
    }

    /// How many steps the profile has.
    pub fn len(&self) -> (r: usize)
        ensures
            r == self@.len(),
    {
        self.steps.len()
    }

    /// The speed at `temp`.
    pub fn get_pwm(&self, temp: Double) -> (r: u8)
        ensures
            r == speed_at(self@, temp),
            profile_steps(self@),
    {
        proof {
            use_type_invariant(self);
        }
        let ghost steps = self.steps@;
        let mut pwm: u8 = self.steps[0].1;
        let mut i: usize = 0;
        while i < self.steps.len() && temp.at_least(self.steps[i].0)
            invariant
                i <= steps.len(),
                steps == self.steps@,
                steps.len() > 0,
                i == 0 ==> pwm == steps[0].1,
                i > 0 ==> pwm == speed_at(steps.take(i as int), temp),
            decreases steps.len() - i,
        {
            pwm = self.steps[i].1;
            i += 1;
            assert(steps.take(i as int).last() == steps[i - 1]);
        }
        proof {
            if i < steps.len() {
                assert forall|j: int| i <= j < steps.len() implies !temp.ge(
                    (#[trigger] steps[j]).0,
                ) by {
                    if j > i {
                        assert(!steps[i as int].0.gt(steps[j].0));
                    }
                }
                lemma_speed_below(steps, temp, i as int);
            } else {
                assert(steps.take(i as int) =~= steps);
            }
        }
        pwm
    }
}

/// Two configurations with a comma between them have the entries of the first
/// and then those of the second.
pub proof fn law_configs_add_up(a: Seq<char>, b: Seq<char>)
    ensures
        config_entries(a.push(',') + b) == config_entries(a) + config_entries(b),
{
    law_pieces_of_two(a, b, ',');
    lemma_entries_of_both(pieces(a, ','), pieces(b, ','));
}

proof fn lemma_entries_of_both(a: Seq<Seq<char>>, b: Seq<Seq<char>>)
    ensures
        entries_of(a + b) == entries_of(a) + entries_of(b),
    decreases b.len(),
{
    if b.len() == 0 {
        assert(a + b =~= a);
        assert(entries_of(a + b) =~= entries_of(a) + entries_of(b));
    } else {
        lemma_entries_of_both(a, b.drop_last());
        assert((a + b).drop_last() =~= a + b.drop_last());
        assert((a + b).last() == b.last());
        assert(entries_of(a + b) =~= entries_of(a) + entries_of(b));
    }
}

/// White space around an entry makes no difference.
pub proof fn law_entry_may_be_padded(before: Seq<char>, piece: Seq<char>, after: Seq<char>)
    requires
        blank(before),
        blank(after),
    ensures
        entry(before + piece + after) == entry(piece),
{
    law_padding_is_trimmed(before, piece, after);
}

/// An entry as it is written.
pub open spec fn entry_text(e: (Seq<char>, u8)) -> Seq<char> {
    e.0.push(':') + decimal(e.1 as nat)
}

/// Whether the text of a temperature can stand in a configuration: it is one
/// word without comma and colon.
pub open spec fn plain(temp: Seq<char>) -> bool {
    word(temp) && !temp.contains(',') && !temp.contains(':')
}

proof fn lemma_word_is_trimmed(w: Seq<char>)
    requires
        w.len() > 0,
        !space(w[0]),
        !space(w.last()),
    ensures
        trimmed(w) == w,
{
    lemma_trimmed(w, 0, w.len() as int);
    assert(w.subrange(0, w.len() as int) =~= w);
}

proof fn lemma_written_entry(e: (Seq<char>, u8))
    requires
        plain(e.0),
    ensures
        entry(entry_text(e)) == Some(e),
        !entry_text(e).contains(','),
{
    let (t, d) = (e.0, decimal(e.1 as nat));
    let s = entry_text(e);
    lemma_decimal_digits(e.1 as nat);
    assert(digit(d[0]) && digit(d[d.len() - 1]));
    assert(s[0] == t[0] && s.last() == d[d.len() - 1]);
    lemma_word_is_trimmed(s);
    lemma_word_is_trimmed(t);
    lemma_word_is_trimmed(d);
    lemma_decimal_holds_digits(e.1 as nat, ':');
    lemma_decimal_holds_digits(e.1 as nat, ',');
    law_pieces_of_two(t, d, ':');
    lemma_one_piece(t, ':');
    lemma_one_piece(d, ':');
    assert(pieces(s, ':') =~= seq![t, d]);
    law_decimal_reads_back(e.1 as nat, 255);
    assert forall|i: int| 0 <= i < s.len() implies s[i] != ',' by {
        if i < t.len() {
            assert(s[i] == t[i]);
            assert(t.contains(t[i]));
        } else if i > t.len() {
            assert(s[i] == d[i - t.len() - 1]);
            assert(d.contains(d[i - t.len() - 1]));
        }
    }
}

/// A configuration that is written entry by entry, with commas between them,
/// reads as those entries.
pub proof fn law_written_config_reads_back(entries: Seq<(Seq<char>, u8)>)
    requires
        entries.len() > 0,
        forall|i: int| 0 <= i < entries.len() ==> plain((#[trigger] entries[i]).0),
    ensures
        config_entries(joined(entries.map_values(|e: (Seq<char>, u8)| entry_text(e)), ','))
            == entries,
{
    let texts = entries.map_values(|e: (Seq<char>, u8)| entry_text(e));
    assert forall|i: int| 0 <= i < texts.len() implies !(#[trigger] texts[i]).contains(',') by {
        lemma_written_entry(entries[i]);
    }
    law_joined_parts_come_back(texts, ',');
    lemma_written_entries(entries);
}

proof fn lemma_written_entries(entries: Seq<(Seq<char>, u8)>)
    requires
        forall|i: int| 0 <= i < entries.len() ==> plain((#[trigger] entries[i]).0),
    ensures
        entries_of(entries.map_values(|e: (Seq<char>, u8)| entry_text(e))) == entries,
    decreases entries.len(),
{
    let f = |e: (Seq<char>, u8)| entry_text(e);
    let texts = entries.map_values(f);
    if entries.len() == 0 {
        assert(entries_of(texts) =~= entries);
    } else {
        let front = entries.drop_last();
        assert forall|i: int| 0 <= i < front.len() implies plain((#[trigger] front[i]).0) by {
            assert(front[i] == entries[i]);
        }
        lemma_written_entries(front);
        assert(texts.drop_last() =~= front.map_values(f));
        assert(plain(entries[entries.len() - 1].0));
        lemma_written_entry(entries.last());
        assert(texts.last() == entry_text(entries.last()));
        assert(front.push(entries.last()) =~= entries);
    }
}

/// The entries of steps whose temperatures are written by `print`.
pub open spec fn written_entries(
    steps: Seq<(Double, u8)>,
    print: spec_fn(Double) -> Seq<char>,
) -> Seq<(Seq<char>, u8)> {
    steps.map_values(|s: (Double, u8)| (print(s.0), s.1))
}

/// The configuration of steps whose temperatures are written by `print`.
pub open spec fn written_config(
    steps: Seq<(Double, u8)>,
    print: spec_fn(Double) -> Seq<char>,
) -> Seq<char> {
    joined(
        written_entries(steps, print).map_values(|e: (Seq<char>, u8)| entry_text(e)),
        ',',
    )
}

proof fn lemma_written_steps(
    steps: Seq<(Double, u8)>,
    print: spec_fn(Double) -> Seq<char>,
    temps: Seq<Option<Double>>,
)
    requires
        temps.len() >= steps.len(),
        forall|i: int| 0 <= i < steps.len() ==> temps[i] == Some((#[trigger] steps[i]).0),
    ensures
        steps_of(written_entries(steps, print), temps) == steps,
    decreases steps.len(),
{
    if steps.len() > 0 {
        let front = steps.drop_last();
        assert forall|i: int| 0 <= i < front.len() implies temps[i] == Some(
            (#[trigger] front[i]).0,
        ) by {
            assert(front[i] == steps[i]);
        }
        lemma_written_steps(front, print, temps);
        assert(written_entries(steps, print).drop_last() =~= written_entries(front, print));
        assert(temps[steps.len() - 1] == Some(steps[steps.len() - 1].0));
        assert(front.push(steps.last()) =~= steps);
    } else {
        assert(steps_of(written_entries(steps, print), temps) =~= steps);
    }
}

/// A profile that is written down reads as the same profile: steps from cold to
/// warm, written entry by entry, are the steps that `parse` gives back. It holds
/// of any way to print a temperature as one word without comma and colon, and
/// any way to read it that gives the temperature back.
pub proof fn law_written_profile_reads_back(
    steps: Seq<(Double, u8)>,
    print: spec_fn(Double) -> Seq<char>,
    read: spec_fn(Seq<char>) -> Option<Double>,
)
    requires
        profile_steps(steps),
        forall|i: int|
            0 <= i < steps.len() ==> plain(print((#[trigger] steps[i]).0)) && read(
                print(steps[i].0),
            ) == Some(steps[i].0),
    ensures
        ({
            let entries = config_entries(written_config(steps, print));
            let temps = entries.map_values(|e: (Seq<char>, u8)| read(e.0));
            &&& entries == written_entries(steps, print)
            &&& comparable(steps_of(entries, temps))
            &&& by_temperature(steps_of(entries, temps)) == steps
        }),
{
    let written = written_entries(steps, print);
    assert forall|i: int| 0 <= i < written.len() implies plain((#[trigger] written[i]).0) by {
        assert(plain(print(steps[i].0)));
    }
    law_written_config_reads_back(written);
    let temps = written.map_values(|e: (Seq<char>, u8)| read(e.0));
    assert forall|i: int| 0 <= i < steps.len() implies temps[i] == Some(
        (#[trigger] steps[i]).0,
    ) by {
        assert(written[i].0 == print(steps[i].0));
    }
    lemma_written_steps(steps, print, temps);
    law_ordered_steps_stay(steps);
}

} // verus!
