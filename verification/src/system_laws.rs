//! What the load figures are, in terms of the texts they are read from.
use crate::decimal::reading;
use crate::layout_laws::{
    apart, endable, laid_out, law_first_line, law_suffix_goes, law_words_set_apart_come_back,
    law_written_lines_come_back, with_endings,
};
use crate::system::{
    advance, cpu_counters, cpu_overflow, disk_field, last_field, mem_figures, mem_overflow,
    more_idle_than_time, numbers, sum, total_and_idle,
};
use crate::text::{just, text_lines, word, words};
use crate::text_laws::blank;
use vstd::prelude::*;

verus! {

/// Of words, those are numbers that read as one, each as what it reads as.
pub proof fn law_numbers(a: Seq<Seq<char>>, b: Seq<Seq<char>>, w: Seq<char>)
    ensures
        numbers(a + b) == numbers(a) + numbers(b),
        numbers(seq![w]) == match reading(w, 18446744073709551615) {
            Ok(v) => seq![v as u64],
            Err(_) => Seq::<u64>::empty(),
        },
    decreases b.len(),
{
    assert(seq![w].drop_last() =~= Seq::empty());
    assert(numbers(Seq::empty()) =~= Seq::empty());
    assert(numbers(seq![w]) =~= match reading(w, 18446744073709551615) {
        Ok(v) => seq![v as u64],
        Err(_) => Seq::<u64>::empty(),
    });
    if b.len() == 0 {
        assert(a + b =~= a);
        assert(numbers(a + b) =~= numbers(a) + numbers(b));
    } else {
        law_numbers(a, b.drop_last(), w);
        assert((a + b).drop_last() =~= a + b.drop_last());
        assert((a + b).last() == b.last());
        assert(numbers(a + b) =~= numbers(a) + numbers(b));
    }
}

/// Sums of two lists add up, and one number alone is its sum.
pub proof fn law_sums_add_up(a: Seq<u64>, b: Seq<u64>, x: u64)
    ensures
        sum(a + b) == sum(a) + sum(b),
        sum(seq![x]) == x,
        sum(Seq::empty()) == 0,
    decreases b.len(),
{
    assert(seq![x].drop_last() =~= Seq::empty());
    assert(sum(seq![x].drop_last()) == 0);
    assert(seq![x].last() == x);
    if b.len() == 0 {
        assert(a + b =~= a);
    } else {
        law_sums_add_up(a, b.drop_last(), x);
        assert((a + b).drop_last() =~= a + b.drop_last());
        assert((a + b).last() == b.last());
    }
}

proof fn lemma_sum_update(ns: Seq<u64>, k: int, v: u64)
    requires
        0 <= k < ns.len(),
    ensures
        sum(ns.update(k, v)) == sum(ns) - ns[k] + v,
    decreases ns.len(),
{
    if k == ns.len() - 1 {
        assert(ns.update(k, v).drop_last() =~= ns.drop_last());
    } else {
        lemma_sum_update(ns.drop_last(), k, v);
        assert(ns.update(k, v).drop_last() =~= ns.drop_last().update(k, v));
    }
}

/// Every counter counts once in the total, and the fourth and the fifth, which
/// are idling and waiting, count once in the idle time, and no other does.
pub proof fn law_what_a_counter_counts_for(ns: Seq<u64>, k: int, v: u64)
    requires
        ns.len() >= 4,
        0 <= k < ns.len(),
    ensures
        ({
            let (total, idle) = total_and_idle(ns);
            let (total2, idle2) = total_and_idle(ns.update(k, v));
            &&& total2 - total == v - ns[k]
            &&& k == 3 || k == 4 ==> idle2 - idle == v - ns[k]
            &&& k != 3 && k != 4 ==> idle2 == idle
        }),
{
    lemma_sum_update(ns, k, v);
}

/// Counters that stand still have nothing to report.
pub proof fn law_no_time_at_all(ns: Seq<u64>)
    requires
        ns.len() >= 4,
        forall|i: int| 0 <= i < ns.len() ==> #[trigger] ns[i] == 0,
    ensures
        total_and_idle(ns) == (0nat, 0nat),
{
    lemma_sum_of_zeros(ns);
}

proof fn lemma_sum_of_zeros(ns: Seq<u64>)
    requires
        forall|i: int| 0 <= i < ns.len() ==> #[trigger] ns[i] == 0,
    ensures
        sum(ns) == 0,
    decreases ns.len(),
{
    if ns.len() > 0 {
        assert(ns[ns.len() - 1] == 0);
        assert forall|i: int| 0 <= i < ns.drop_last().len() implies #[trigger] ns.drop_last()[i]
            == 0 by {
            assert(ns.drop_last()[i] == ns[i]);
        }
        lemma_sum_of_zeros(ns.drop_last());
    }
}

/// The counters are the numbers behind the word `cpu` in the first line, however
/// its words are set apart and whatever follows, if there are four or more. Any
/// other first word, or fewer numbers, give none. They are too large just when
/// their sum does not fit into 64 bits.
pub proof fn law_counters_of_the_first_line(
    gaps: Seq<Seq<char>>,
    ws: Seq<Seq<char>>,
    tail: Seq<char>,
    rest: Seq<char>,
)
    requires
        apart(gaps, ws),
        blank(tail),
        !(laid_out(gaps, ws) + tail).contains('\n'),
        rest.len() == 0 || rest[0] == '\n',
    ensures
        ({
            let text = laid_out(gaps, ws) + tail + rest;
            let ns = numbers(ws.skip(1));
            let counts = ws.len() > 0 && ws[0] == "cpu"@ && ns.len() >= 4;
            &&& cpu_counters(text) == if counts {
                Some(ns)
            } else {
                None
            }
            &&& cpu_overflow(text) <==> counts && sum(ns) >= 0x1_0000_0000_0000_0000
        }),
{
    let line = laid_out(gaps, ws) + tail;
    law_words_set_apart_come_back(gaps, ws, tail);
    if line.len() + rest.len() > 0 {
        law_first_line(line, rest);
    } else {
        assert(line + rest =~= Seq::empty());
        assert(ws.len() == 0) by {
            if ws.len() > 0 {
                assert(word(ws[0]));
            }
        }
    }
}

/// A counter has come as far as it is ahead, in one stretch or in two; one that
/// went back has come nowhere.
pub proof fn law_advance(a: u64, b: u64, c: u64)
    ensures
        a <= b ==> a + advance(a, b) == b,
        a >= b ==> advance(a, b) == 0,
        a <= b <= c ==> advance(a, c) == advance(a, b) + advance(b, c),
{
}

/// Idle time outgrows the total just where both are known, time has passed, and
/// the idle counter moved on further than the total.
pub proof fn law_more_idle_than_time(prev: (u64, u64), now: (u64, u64))
    ensures
        more_idle_than_time(Some(prev), Some(now)) <==> prev.0 < now.0 && now.1 - prev.1 > now.0
            - prev.0,
        !more_idle_than_time(None, Some(now)),
        !more_idle_than_time(Some(prev), None),
        !more_idle_than_time(None, None),
{
}

/// Whether line `i` is the last that starts with the key.
pub open spec fn last_with_key(ls: Seq<Seq<char>>, key: Seq<char>, i: int) -> bool {
    &&& 0 <= i < ls.len()
    &&& words(ls[i]).len() > 0 && words(ls[i])[0] == key
    &&& forall|k: int|
        i < k < ls.len() ==> words(#[trigger] ls[k]).len() == 0 || words(ls[k])[0] != key
}

/// The last line that starts with the key decides: its second word, if that is
/// a number.
pub proof fn law_last_line_decides(ls: Seq<Seq<char>>, key: Seq<char>, i: int)
    requires
        last_with_key(ls, key, i),
    ensures
        words(ls[i]).len() == 1 ==> last_field(ls, key) is None,
        words(ls[i]).len() > 1 ==> last_field(ls, key) == match reading(
            words(ls[i])[1],
            18446744073709551615,
        ) {
            Ok(v) => Some(v),
            Err(_) => None,
        },
    decreases ls.len(),
{
    if i < ls.len() - 1 {
        let front = ls.drop_last();
        assert(ls[ls.len() - 1] == ls.last());
        assert forall|k: int| i < k < front.len() implies words(#[trigger] front[k]).len() == 0
            || words(front[k])[0] != key by {
            assert(front[k] == ls[k]);
        }
        assert(front[i] == ls[i]);
        law_last_line_decides(front, key, i);
    }
}

/// Where no line starts with the key, there is no figure.
pub proof fn law_no_line_no_figure(ls: Seq<Seq<char>>, key: Seq<char>)
    requires
        forall|k: int|
            0 <= k < ls.len() ==> words(#[trigger] ls[k]).len() == 0 || words(ls[k])[0] != key,
    ensures
        last_field(ls, key) is None,
    decreases ls.len(),
{
    if ls.len() > 0 {
        let front = ls.drop_last();
        assert(ls[ls.len() - 1] == ls.last());
        assert forall|k: int| 0 <= k < front.len() implies words(#[trigger] front[k]).len() == 0
            || words(front[k])[0] != key by {
            assert(front[k] == ls[k]);
        }
        law_no_line_no_figure(front, key);
    }
}

/// The memory figures of a text are the totals that its lines name, whatever
/// their endings; a total of zero is none. More is available than there is just
/// when the figures say so.
pub proof fn law_memory_of_the_lines(
    ls: Seq<Seq<char>>,
    marks: Seq<bool>,
    total: Option<nat>,
    available: Option<nat>,
)
    requires
        endable(ls, marks),
        last_field(ls, "MemTotal:"@) == total,
        last_field(ls, "MemAvailable:"@) == available,
    ensures
        ({
            let text = with_endings(ls, marks);
            &&& mem_figures(text) is Some <==> total is Some && available is Some && total != Some(
                0nat,
            )
            &&& mem_figures(text) is Some ==> mem_figures(text) == Some(
                (total->0, available->0),
            )
            &&& mem_overflow(text) <==> mem_figures(text) is Some && available->0 > total->0
        }),
{
    law_written_lines_come_back(ls, marks, Seq::empty());
    assert(with_endings(ls, marks) + Seq::empty() =~= with_endings(ls, marks));
}

/// The same of a text whose last line has no ending.
pub proof fn law_memory_of_an_open_line(
    ls: Seq<Seq<char>>,
    marks: Seq<bool>,
    last: Seq<char>,
    total: Option<nat>,
    available: Option<nat>,
)
    requires
        endable(ls, marks),
        last.len() > 0,
        !last.contains('\n'),
        last_field(ls.push(last), "MemTotal:"@) == total,
        last_field(ls.push(last), "MemAvailable:"@) == available,
    ensures
        ({
            let text = with_endings(ls, marks) + last;
            &&& mem_figures(text) is Some <==> total is Some && available is Some && total != Some(
                0nat,
            )
            &&& mem_figures(text) is Some ==> mem_figures(text) == Some(
                (total->0, available->0),
            )
            &&& mem_overflow(text) <==> mem_figures(text) is Some && available->0 > total->0
        }),
{
    law_written_lines_come_back(ls, marks, last);
}

/// The share is the fifth word of the second line without the percent signs at
/// its end, however the words are set apart and whatever stands above and below.
/// With fewer words there is none.
pub proof fn law_share_of_the_second_line(
    heading: Seq<char>,
    gaps: Seq<Seq<char>>,
    ws: Seq<Seq<char>>,
    tail: Seq<char>,
    rest: Seq<char>,
    share: Seq<char>,
    signs: Seq<char>,
)
    requires
        !heading.contains('\n'),
        apart(gaps, ws),
        blank(tail),
        !(laid_out(gaps, ws) + tail).contains('\n'),
        rest.len() == 0 || rest[0] == '\n',
        ws.len() > 4 ==> ws[4] == share + signs,
        share.len() == 0 || share.last() != '%',
        forall|i: int| 0 <= i < signs.len() ==> #[trigger] signs[i] == '%',
    ensures
        disk_field(heading.push('\n') + (laid_out(gaps, ws) + tail + rest)) == if ws.len() > 4 {
            Some(share)
        } else {
            None
        },
{
    let line = laid_out(gaps, ws) + tail;
    let below = line + rest;
    let text = heading.push('\n') + below;
    law_words_set_apart_come_back(gaps, ws, tail);
    assert(text =~= heading + (seq!['\n'] + below));
    law_first_line(heading, seq!['\n'] + below);
    assert((seq!['\n'] + below).skip(1) =~= below);
    if below.len() > 0 {
        law_first_line(line, rest);
        assert(text_lines(text).skip(1)[0] == text_lines(text)[1]);
    } else {
        assert(text_lines(below) =~= Seq::empty());
        assert(text_lines(text).skip(1).len() == 0);
        assert(ws.len() == 0) by {
            if ws.len() > 0 {
                assert(word(ws[0]));
            }
        }
    }
    if ws.len() > 4 {
        law_suffix_goes(share, signs, just('%'));
    }
}

/// One line alone has no share.
pub proof fn law_no_second_line_no_share(line: Seq<char>)
    requires
        !line.contains('\n'),
    ensures
        disk_field(line) is None,
{
    if line.len() > 0 {
        law_first_line(line, Seq::empty());
        assert(line + Seq::empty() =~= line);
    }
}

} // verus!
