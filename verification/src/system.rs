//! The load figures, out of what the kernel and `df` report.
use crate::decimal::{
    decimal, digit, law_decimal_reads_back, lemma_decimal_digits, parse_unsigned, reading, IntError,
};
use crate::layout_laws::law_first_line;
use crate::text::{
    chars_of, contents, just, lemma_prefix_len, lines, other_than, space, spells, split_whitespace,
    string_of, text_lines, trim_end_matches, without_suffix, word, words,
};
use crate::text_laws::{
    law_spaced_words_come_back, lemma_first_word, lemma_spaced_in_one_line, spaced,
};
use crate::utf8::{from_utf8_lossy, lossy_text};
use vstd::prelude::*;
use vstd::utf8::{decode_utf8, valid_utf8};

verus! {

/// The numbers among the words, in order; other words are passed over.
pub open spec fn numbers(ws: Seq<Seq<char>>) -> Seq<u64>
    decreases ws.len(),
{
    if ws.len() == 0 {
        Seq::empty()
    } else {
        let before = numbers(ws.drop_last());
        match reading(ws.last(), u64::MAX as nat) {
            Ok(v) => before.push(v as u64),
            Err(_) => before,
        }
    }
}

/// The sum of the numbers.
pub open spec fn sum(ns: Seq<u64>) -> nat
    decreases ns.len(),
{
    if ns.len() == 0 {
        0
    } else {
        sum(ns.drop_last()) + ns.last() as nat
    }
}

/// The counters in the first line of /proc/stat, if it is the line of all
/// processors together and has the four that every kernel reports.
pub open spec fn cpu_counters(stat: Seq<char>) -> Option<Seq<u64>> {
    let ls = text_lines(stat);
    let ws = words(ls[0]);
    let ns = numbers(ws.skip(1));
    if ls.len() == 0 || ws.len() == 0 || ws[0] != "cpu"@ || ns.len() < 4 {
        None
    } else {
        Some(ns)
    }
}

/// The time that counters report in all, and the idle part of it: the fourth
/// counter and, where there is one, the fifth, which is waiting for devices.
pub open spec fn total_and_idle(ns: Seq<u64>) -> (nat, nat) {
    (
        sum(ns),
        ns[3] as nat + if ns.len() > 4 {
            ns[4] as nat
        } else {
            0
        },
    )
}

/// Whether the times of /proc/stat are too large to count.
pub open spec fn cpu_overflow(stat: Seq<char>) -> bool {
    cpu_counters(stat) is Some && sum(cpu_counters(stat)->0) > u64::MAX
}

proof fn lemma_sum_at_least(ns: Seq<u64>, k: int)
    requires
        0 <= k <= ns.len(),
    ensures
        sum(ns.take(k)) <= sum(ns),
    decreases ns.len(),
{
    if k < ns.len() {
        lemma_sum_at_least(ns.drop_last(), k);
        assert(ns.drop_last().take(k) =~= ns.take(k));
    } else {
        assert(ns.take(k) =~= ns);
    }
}

/// The idle part is no more than the whole.
pub proof fn law_idle_is_part_of_total(ns: Seq<u64>)
    requires
        ns.len() >= 4,
    ensures
        total_and_idle(ns).1 <= total_and_idle(ns).0,
{
    let k: int = if ns.len() > 4 {
        5
    } else {
        4
    };
    lemma_sum_at_least(ns, k);
    assert(ns.take(4).drop_last() =~= ns.take(3));
    assert(ns.take(4).last() == ns[3]);
    assert(sum(ns.take(4)) >= ns[3]);
    if k == 5 {
        assert(ns.take(5).drop_last() =~= ns.take(4));
        assert(ns.take(5).last() == ns[4]);
    }
}

/// The counters in decimal.
pub open spec fn in_decimal(ns: Seq<u64>) -> Seq<Seq<char>> {
    ns.map_values(|n: u64| decimal(n as nat))
}

proof fn lemma_numbers_read_back(ns: Seq<u64>)
    ensures
        numbers(in_decimal(ns)) == ns,
    decreases ns.len(),
{
    if ns.len() == 0 {
        assert(numbers(in_decimal(ns)) =~= ns);
    } else {
        lemma_numbers_read_back(ns.drop_last());
        assert(in_decimal(ns).drop_last() =~= in_decimal(ns.drop_last()));
        law_decimal_reads_back(ns.last() as nat, u64::MAX as nat);
        assert(ns.drop_last().push(ns.last()) =~= ns);
    }
}

/// Counters that stand behind `cpu` in the first line, with spaces between
/// them, are the ones that are read, whatever the other lines hold.
pub proof fn law_written_counters_read_back(ns: Seq<u64>, rest: Seq<char>)
    requires
        ns.len() >= 4,
    ensures
        cpu_counters(("cpu"@ + spaced(in_decimal(ns))).push('\n') + rest) == Some(ns),
{
    reveal_strlit("cpu");
    let ws = in_decimal(ns);
    assert forall|i: int| 0 <= i < ws.len() implies word(#[trigger] ws[i]) by {
        lemma_decimal_word(ns[i] as nat);
    }
    let line = "cpu"@ + spaced(ws);
    let text = line.push('\n') + rest;
    assert(!line.contains('\n')) by {
        lemma_spaced_in_one_line(ws);
        assert forall|i: int| 0 <= i < line.len() implies line[i] != '\n' by {
            if i >= 3 {
                assert(line[i] == spaced(ws)[i - 3]);
                assert(spaced(ws).contains(spaced(ws)[i - 3]));
            }
        }
    }
    law_first_line(line, seq!['\n'] + rest);
    assert(text =~= line + (seq!['\n'] + rest));
    assert(words(line) == seq!["cpu"@] + ws) by {
        law_spaced_words_come_back(ws);
        lemma_first_word("cpu"@, spaced(ws));
    }
    assert((seq!["cpu"@] + ws).skip(1) =~= ws);
    lemma_numbers_read_back(ns);
}

fn read_numbers(ws: &Vec<&[char]>, from: usize) -> (r: Vec<u64>)
    requires
        from <= ws@.len(),
    ensures
        r@ == numbers(contents(ws@).skip(from as int)),
{
    let ghost all = contents(ws@).skip(from as int);
    let mut r: Vec<u64> = Vec::new();
    let mut i: usize = from;
    assert(all.take(0) =~= Seq::empty());
    while i < ws.len()
        invariant
            from <= i <= ws@.len(),
            all == contents(ws@).skip(from as int),
            r@ == numbers(all.take(i - from)),
        decreases ws@.len() - i,
    {
        assert(all.take(i + 1 - from).drop_last() =~= all.take(i - from));
        assert(all.take(i + 1 - from).last() == ws@[i as int]@);
        match parse_unsigned(ws[i], u64::MAX) {
            Ok(v) => {
                r.push(v);
            },
            Err(_) => {},
        }
        i += 1;
    }
    assert(all.take(i - from) =~= all);
    r
}

fn read_cpu_counters(stat: &str) -> (r: Option<Vec<u64>>)
    ensures
        match r {
            Some(ns) => cpu_counters(stat@) == Some(ns@),
            None => cpu_counters(stat@) is None,
        },
{
    let chars = chars_of(stat);
    let ls = lines(chars.as_slice());
    assert(contents(ls@).len() == ls@.len());
    if ls.len() == 0 {
        return None;
    }
    assert(contents(ls@)[0] == ls@[0]@);
    let ws = split_whitespace(ls[0]);
    assert(contents(ws@).len() == ws@.len());
    if ws.len() == 0 {
        return None;
    }
    assert(contents(ws@)[0] == ws@[0]@);
    if !spells(ws[0], "cpu") {
        return None;
    }
    let ns = read_numbers(&ws, 1);
    if ns.len() < 4 {
        return None;
    }
    Some(ns)
}

/// Whether the times of /proc/stat are too large to count.
pub fn cpu_times_overflow(stat: &str) -> (r: bool)
    ensures
        r == cpu_overflow(stat@),
{
    match read_cpu_counters(stat) {
        Some(ns) => add_up(&ns).is_none(),
        None => false,
    }
}

fn add_up(ns: &Vec<u64>) -> (r: Option<u64>)
    ensures
        match r {
            Some(t) => t == sum(ns@),
            None => sum(ns@) > u64::MAX,
        },
{
    let mut t: u64 = 0;
    let mut i: usize = 0;
    assert(ns@.take(0) =~= Seq::empty());
    while i < ns.len()
        invariant
            i <= ns@.len(),
            t == sum(ns@.take(i as int)),
        decreases ns@.len() - i,
    {
        proof {
            assert(ns@.take(i + 1).drop_last() =~= ns@.take(i as int));
            lemma_sum_at_least(ns@, i + 1);
        }
        match t.checked_add(ns[i]) {
            Some(v) => {
                t = v;
            },
            None => {
                return None;
            },
        }
        i += 1;
    }
    assert(ns@.take(i as int) =~= ns@);
    Some(t)
}

/// The time of all processors together and the idle part of it, out of the
/// text of /proc/stat.
pub fn read_cpu_times(stat: &str) -> (r: Option<(u64, u64)>)
    requires
        !cpu_overflow(stat@),
    ensures
        match r {
            Some((total, idle)) => cpu_counters(stat@) is Some && (
                total as nat,
                idle as nat,
            ) == total_and_idle(cpu_counters(stat@)->0) && idle <= total,
            None => cpu_counters(stat@) is None,
        },
        r is Some ==> (r->0).0 == sum(cpu_counters(stat@)->0),
{
    let ns = match read_cpu_counters(stat) {
        Some(ns) => ns,
        None => {
            return None;
        },
    };
    let total: u64 = match add_up(&ns) {
        Some(t) => t,
        None => {
            return None;
        },
    };
    proof {
        law_idle_is_part_of_total(ns@);
    }
    let waiting: u64 = if ns.len() > 4 {
        ns[4]
    } else {
        0
    };
    Some((total, ns[3] + waiting))
}

/// How far a counter has come; none where it went back.
pub open spec fn advance(from: u64, to: u64) -> nat {
    if to > from {
        (to - from) as nat
    } else {
        0
    }
}

/// Whether between two samples of total and idle time the idle time grew by
/// more than the total did.
pub open spec fn more_idle_than_time(prev: Option<(u64, u64)>, now: Option<(u64, u64)>) -> bool {
    prev is Some && now is Some && advance((prev->0).0, (now->0).0) > 0 && advance(
        (prev->0).1,
        (now->0).1,
    ) > advance((prev->0).0, (now->0).0)
}

/// Whether the idle time grew by more than the total did.
pub fn cpu_usage_overflow(prev: Option<(u64, u64)>, now: Option<(u64, u64)>) -> (r: bool)
    ensures
        r == more_idle_than_time(prev, now),
        r <==> prev is Some && now is Some && (now->0).0 > (prev->0).0 && (now->0).1 - (prev->0).1
            > (now->0).0 - (prev->0).0,
{
    match (prev, now) {
        (Some((pt, pi)), Some((ct, ci))) => {
            let dt: u64 = ct.saturating_sub(pt);
            let di: u64 = ci.saturating_sub(pi);
            dt > 0 && di > dt
        },
        _ => false,
    }
}

/// The busy time between two samples of total and idle time, and the time in
/// all. None where a sample is missing or no time has passed.
pub fn cpu_usage(prev: Option<(u64, u64)>, now: Option<(u64, u64)>) -> (r: Option<(u64, u64)>)
    requires
        !more_idle_than_time(prev, now),
    ensures
        match r {
            Some((busy, time)) => {
                &&& prev is Some && now is Some
                &&& time == advance((prev->0).0, (now->0).0)
                &&& time > 0
                &&& busy == time - advance((prev->0).1, (now->0).1)
                &&& busy <= time
            },
            None => prev is None || now is None || advance((prev->0).0, (now->0).0) == 0,
        },
        r is Some <==> prev is Some && now is Some && (now->0).0 > (prev->0).0,
        r is Some ==> (r->0).1 == (now->0).0 - (prev->0).0,
        r is Some && (now->0).1 >= (prev->0).1 ==> (r->0).1 - (r->0).0 == (now->0).1 - (prev->0).1,
        r is Some && (now->0).1 < (prev->0).1 ==> (r->0).0 == (r->0).1,
{
    match (prev, now) {
        (Some((pt, pi)), Some((ct, ci))) => {
            let dt: u64 = ct.saturating_sub(pt);
            let di: u64 = ci.saturating_sub(pi);
            if dt > 0 {
                Some((dt - di, dt))
            } else {
                None
            }
        },
        _ => None,
    }
}

/// While the busy time of the counters does not go back, idle time never grows
/// by more than the total.
pub proof fn law_steady_counters_give_a_usage(prev: (u64, u64), now: (u64, u64))
    requires
        prev.0 <= now.0,
        prev.0 - prev.1 <= now.0 - now.1,
    ensures
        !more_idle_than_time(Some(prev), Some(now)),
{
}

/// The number behind `key` in the last line that starts with it, if it is one.
pub open spec fn last_field(ls: Seq<Seq<char>>, key: Seq<char>) -> Option<nat>
    decreases ls.len(),
{
    let ws = words(ls.last());
    if ls.len() == 0 {
        None
    } else if ws.len() == 0 || ws[0] != key {
        last_field(ls.drop_last(), key)
    } else if ws.len() == 1 {
        None
    } else {
        match reading(ws[1], u64::MAX as nat) {
            Ok(v) => Some(v),
            Err(_) => None,
        }
    }
}

/// A line that starts with the key, a number and a unit gives the number,
/// whatever the lines above it say.
pub proof fn law_last_line_counts(
    above: Seq<Seq<char>>,
    key: Seq<char>,
    n: nat,
    unit: Seq<char>,
)
    requires
        word(key),
        word(unit),
        n <= u64::MAX,
    ensures
        last_field(above.push(key + spaced(seq![decimal(n), unit])), key) == Some(n),
{
    let ws = seq![decimal(n), unit];
    lemma_decimal_word(n);
    law_spaced_words_come_back(ws);
    lemma_first_word(key, spaced(ws));
    law_decimal_reads_back(n, u64::MAX as nat);
    let line = key + spaced(ws);
    assert(above.push(line).last() == line);
    assert((seq![key] + ws)[0] == key && (seq![key] + ws)[1] == decimal(n));
}

/// A line that does not start with the key makes no difference.
pub proof fn law_other_lines_do_not_count(above: Seq<Seq<char>>, line: Seq<char>, key: Seq<char>)
    requires
        words(line).len() == 0 || words(line)[0] != key,
    ensures
        last_field(above.push(line), key) == last_field(above, key),
{
    assert(above.push(line).last() == line);
    assert(above.push(line).drop_last() =~= above);
}

proof fn lemma_decimal_word(n: nat)
    ensures
        word(decimal(n)),
{
    lemma_decimal_digits(n);
    assert forall|j: int| 0 <= j < decimal(n).len() implies !space(#[trigger] decimal(n)[j]) by {
        assert(digit(decimal(n)[j]));
    }
}

/// The total and the available memory in /proc/meminfo, if both are there and
/// the total is not zero.
pub open spec fn mem_figures(meminfo: Seq<char>) -> Option<(nat, nat)> {
    let ls = text_lines(meminfo);
    match (last_field(ls, "MemTotal:"@), last_field(ls, "MemAvailable:"@)) {
        (Some(total), Some(available)) => if total == 0 {
            None
        } else {
            Some((total, available))
        },
        _ => None,
    }
}

/// Whether more memory is available than there is.
pub open spec fn mem_overflow(meminfo: Seq<char>) -> bool {
    mem_figures(meminfo) is Some && (mem_figures(meminfo)->0).1 > (mem_figures(meminfo)->0).0
}

fn second_number(ws: &Vec<&[char]>) -> (r: Option<u64>)
    requires
        ws@.len() > 0,
    ensures
        match r {
            Some(v) => contents(ws@).len() > 1 && reading(contents(ws@)[1], u64::MAX as nat) == Ok::<
                nat,
                IntError,
            >(v as nat),
            None => contents(ws@).len() == 1 || reading(
                contents(ws@)[1],
                u64::MAX as nat,
            ) is Err,
        },
{
    assert(contents(ws@).len() == ws@.len());
    if ws.len() == 1 {
        return None;
    }
    assert(contents(ws@)[1] == ws@[1]@);
    match parse_unsigned(ws[1], u64::MAX) {
        Ok(v) => Some(v),
        Err(_) => None,
    }
}

fn read_mem_figures(meminfo: &str) -> (r: Option<(u64, u64)>)
    ensures
        match r {
            Some((total, available)) => mem_figures(meminfo@) == Some(
                (total as nat, available as nat),
            ),
            None => mem_figures(meminfo@) is None,
        },
{
    let chars = chars_of(meminfo);
    let ls = lines(chars.as_slice());
    let ghost all = contents(ls@);
    proof {
        reveal_strlit("MemTotal:");
        reveal_strlit("MemAvailable:");
        assert("MemTotal:"@.len() != "MemAvailable:"@.len());
    }
    let mut total: Option<u64> = None;
    let mut available: Option<u64> = None;
    let mut i: usize = 0;
    while i < ls.len()
        invariant
            i <= ls@.len(),
            all == contents(ls@),
            "MemTotal:"@ != "MemAvailable:"@,
            last_field(all.take(i as int), "MemTotal:"@) == widened(total),
            last_field(all.take(i as int), "MemAvailable:"@) == widened(available),
        decreases ls@.len() - i,
    {
        let ws = split_whitespace(ls[i]);
        proof {
            assert(all.take(i + 1).drop_last() =~= all.take(i as int));
            assert(all.take(i + 1).last() == ls@[i as int]@);
            assert(contents(ws@).len() == ws@.len());
        }
        if ws.len() > 0 {
            assert(contents(ws@)[0] == ws@[0]@);
            if spells(ws[0], "MemTotal:") {
                total = second_number(&ws);
            } else if spells(ws[0], "MemAvailable:") {
                available = second_number(&ws);
            }
        }
        i += 1;
    }
    assert(all.take(i as int) =~= all);
    match (total, available) {
        (Some(t), Some(a)) => if t == 0 {
            None
        } else {
            Some((t, a))
        },
        _ => None,
    }
}

spec fn widened(v: Option<u64>) -> Option<nat> {
    match v {
        Some(n) => Some(n as nat),
        None => None,
    }
}

/// Whether more memory is available than there is.
pub fn mem_usage_overflow(meminfo: &str) -> (r: bool)
    ensures
        r == mem_overflow(meminfo@),
{
    match read_mem_figures(meminfo) {
        Some((total, available)) => available > total,
        None => false,
    }
}

/// The memory in use and the memory in all, out of the text of /proc/meminfo.
pub fn mem_usage(meminfo: &str) -> (r: Option<(u64, u64)>)
    requires
        !mem_overflow(meminfo@),
    ensures
        match r {
            Some((used, total)) => {
                &&& mem_figures(meminfo@) is Some
                &&& total == (mem_figures(meminfo@)->0).0
                &&& used == total - (mem_figures(meminfo@)->0).1
                &&& 0 < total
                &&& used <= total
            },
            None => mem_figures(meminfo@) is None,
        },
{
    match read_mem_figures(meminfo) {
        Some((total, available)) => Some((total - available, total)),
        None => None,
    }
}

/// The share in use that `df` reports, as it stands there but for the percent
/// sign: the fifth word of the second line.
pub open spec fn disk_field(report: Seq<char>) -> Option<Seq<char>> {
    let ls = text_lines(report);
    let ws = words(ls[1]);
    if ls.len() < 2 || ws.len() < 5 {
        None
    } else {
        Some(without_suffix(ws[4], just('%')))
    }
}

/// The fifth word of the line below the heading is the share, and its percent
/// sign goes.
pub proof fn law_written_share_reads_back(
    heading: Seq<char>,
    device: Seq<char>,
    sizes: Seq<Seq<char>>,
    share: Seq<char>,
    mount: Seq<char>,
)
    requires
        !heading.contains('\n'),
        word(device) && word(share) && word(mount),
        share.last() != '%',
        sizes.len() == 3,
        forall|i: int| 0 <= i < 3 ==> word(#[trigger] sizes[i]),
    ensures
        disk_field(
            heading.push('\n') + (device + spaced(sizes + seq![share.push('%'), mount])).push('\n'),
        ) == Some(share),
{
    let ws = sizes + seq![share.push('%'), mount];
    let line = device + spaced(ws);
    let below = line.push('\n');
    let text = heading.push('\n') + below;
    let p = other_than('\n');
    assert forall|i: int| 0 <= i < ws.len() implies word(#[trigger] ws[i]) by {
        if i < 3 {
            assert(ws[i] == sizes[i]);
        } else if i == 3 {
            assert forall|j: int| 0 <= j < ws[3].len() implies !space(#[trigger] ws[3][j]) by {
                if j < share.len() {
                    assert(ws[3][j] == share[j]);
                }
            }
        }
    }
    lemma_spaced_in_one_line(ws);
    law_spaced_words_come_back(ws);
    lemma_first_word(device, spaced(ws));
    assert forall|i: int| 0 <= i < heading.len() implies p(#[trigger] text[i]) by {
        assert(text[i] == heading[i]);
        assert(heading.contains(heading[i]));
    }
    assert(text[heading.len() as int] == '\n');
    lemma_prefix_len(text, p, heading.len());
    assert(text.skip(heading.len() as int + 1) =~= below);
    assert forall|i: int| 0 <= i < line.len() implies line[i] != '\n' && line[i] != '\r' by {
        if i < device.len() {
            assert(line[i] == device[i]);
        } else {
            assert(line[i] == spaced(ws)[i - device.len()]);
            assert(spaced(ws).contains(spaced(ws)[i - device.len()]));
        }
    }
    assert forall|i: int| 0 <= i < line.len() implies p(#[trigger] below[i]) by {
        assert(below[i] == line[i]);
    }
    lemma_prefix_len(below, p, line.len());
    assert(below.take(line.len() as int) =~= line);
    assert(text_lines(below)[0] == line);
    assert(text_lines(text)[1] == text_lines(below)[0]);
    assert((seq![device] + ws)[4] == share.push('%'));
    let marked = share.push('%');
    assert(marked.drop_last() =~= share);
    assert(just('%')(marked.last()));
    assert(without_suffix(share, just('%')) == share);
}

/// The share in use, out of the text that `df` prints.
pub fn disk_share(report: &str) -> (r: Option<String>)
    ensures
        match r {
            Some(s) => disk_field(report@) == Some(s@),
            None => disk_field(report@) is None,
        },
{
    let chars = chars_of(report);
    let ls = lines(chars.as_slice());
    assert(contents(ls@).len() == ls@.len());
    if ls.len() < 2 {
        return None;
    }
    assert(contents(ls@)[1] == ls@[1]@);
    let ws = split_whitespace(ls[1]);
    assert(contents(ws@).len() == ws@.len());
    if ws.len() < 5 {
        return None;
    }
    assert(contents(ws@)[4] == ws@[4]@);
    Some(string_of(trim_end_matches(ws[4], '%')))
}

/// The share in use, out of the bytes that `df` prints.
pub fn disk_usage(out: &[u8]) -> (r: Option<String>)
    ensures
        match r {
            Some(s) => disk_field(lossy_text(out@)) == Some(s@),
            None => disk_field(lossy_text(out@)) is None,
        },
        valid_utf8(out@) ==> lossy_text(out@) == decode_utf8(out@),
{
    let report = from_utf8_lossy(out);
    disk_share(report.as_str())
}

} // verus!
