//! What a profile is, in terms of the configuration it is read from.
use crate::decimal::reading;
use crate::double::Double;
use crate::profile::{config_entries, entries_of, entry, entry_views, steps_of};
use crate::steps::{by_temperature, comparable, law_by_temperature, numeric};
use crate::text::{pieces, space, trimmed};
use crate::text_laws::{
    law_padding_is_trimmed, law_pieces_of_two, lemma_one_piece, lemma_trim_bounds, lemma_trimmed,
};
use vstd::prelude::*;

verus! {

/// What stands in front of the first colon is the temperature, and what stands
/// behind it, up to a second one, is the speed, each without the white space
/// around it. The speed has to be a number up to 255, and nothing else matters.
pub proof fn law_entry_of_two_parts(temp: Seq<char>, speed: Seq<char>, rest: Seq<char>)
    requires
        !temp.contains(':'),
        !speed.contains(':'),
        rest.len() == 0 || rest[0] == ':',
    ensures
        entry(temp.push(':') + speed + rest) == match reading(trimmed(speed), 255) {
            Ok(v) => Some((trimmed(temp), v as u8)),
            Err(_) => None,
        },
{
    let s = temp.push(':') + speed + rest;
    let n = temp.len() as int;
    let (i, j) = lemma_trim_bounds(s);
    lemma_trimmed(s, i, j);
    let t = s.subrange(i, j);
    assert(s[n] == ':');
    assert(i <= n) by {
        if i > n {
            assert(s.take(i)[n] == s[n]);
        }
    }
    assert(j > n) by {
        if j <= n {
            assert(s.skip(j)[n - j] == s[n]);
        }
    }
    let temp2 = temp.skip(i);
    assert(!temp2.contains(':')) by {
        assert forall|k: int| 0 <= k < temp2.len() implies temp2[k] != ':' by {
            assert(temp2[k] == temp[k + i]);
            assert(temp.contains(temp[k + i]));
        }
    }
    assert(trimmed(temp2) == trimmed(temp)) by {
        assert forall|k: int| 0 <= k < temp.take(i).len() implies space(
            #[trigger] temp.take(i)[k],
        ) by {
            assert(temp.take(i)[k] == s.take(i)[k]);
        }
        law_padding_is_trimmed(temp.take(i), temp2, Seq::empty());
        assert(temp.take(i) + temp2 + Seq::empty() =~= temp);
    }
    lemma_one_piece(temp2, ':');
    if rest.len() == 0 {
        let m = j - n - 1;
        let speed2 = speed.take(m);
        assert(t =~= temp2.push(':') + speed2);
        assert(!speed2.contains(':')) by {
            assert forall|k: int| 0 <= k < speed2.len() implies speed2[k] != ':' by {
                assert(speed2[k] == speed[k]);
                assert(speed.contains(speed[k]));
            }
        }
        assert(trimmed(speed2) == trimmed(speed)) by {
            assert forall|k: int| 0 <= k < speed.skip(m).len() implies space(
                #[trigger] speed.skip(m)[k],
            ) by {
                assert(speed.skip(m)[k] == s.skip(j)[k]);
            }
            law_padding_is_trimmed(Seq::empty(), speed2, speed.skip(m));
            assert(Seq::empty() + speed2 + speed.skip(m) =~= speed);
        }
        law_pieces_of_two(temp2, speed2, ':');
        lemma_one_piece(speed2, ':');
        assert(pieces(t, ':') =~= seq![temp2, speed2]);
    } else {
        let colon = n + 1 + speed.len();
        assert(s[colon] == ':');
        assert(j > colon) by {
            if j <= colon {
                assert(s.skip(j)[colon - j] == s[colon]);
            }
        }
        let behind = s.subrange(colon + 1, j);
        assert(t =~= temp2.push(':') + (speed.push(':') + behind));
        law_pieces_of_two(temp2, speed.push(':') + behind, ':');
        law_pieces_of_two(speed, behind, ':');
        lemma_one_piece(speed, ':');
        assert(pieces(t, ':')[0] == temp2 && pieces(t, ':')[1] == speed);
        assert(pieces(t, ':').len() >= 2);
    }
}

/// A stretch without a colon is no entry.
pub proof fn law_no_colon_no_entry(piece: Seq<char>)
    requires
        !piece.contains(':'),
    ensures
        entry(piece) is None,
{
    let (i, j) = lemma_trim_bounds(piece);
    lemma_trimmed(piece, i, j);
    let t = piece.subrange(i, j);
    assert forall|k: int| 0 <= k < t.len() implies t[k] != ':' by {
        assert(t[k] == piece[k + i]);
        assert(piece.contains(piece[k + i]));
    }
    lemma_one_piece(t, ':');
}

/// A configuration without a comma has one entry, if it is one.
pub proof fn law_config_of_one_stretch(piece: Seq<char>)
    requires
        !piece.contains(','),
    ensures
        config_entries(piece) == match entry(piece) {
            Some(e) => seq![e],
            None => Seq::<(Seq<char>, u8)>::empty(),
        },
{
    lemma_one_piece(piece, ',');
    let one = seq![piece];
    assert(one.drop_last() =~= Seq::empty());
    assert(entries_of(one.drop_last()) =~= Seq::empty());
    assert(entries_of(one) =~= match entry(piece) {
        Some(e) => seq![e],
        None => Seq::<(Seq<char>, u8)>::empty(),
    });
}

/// Each entry makes one step of its own number and its own speed, in order, and
/// makes none where its temperature is no number.
pub proof fn law_steps_of_entries(
    a: Seq<(Seq<char>, u8)>,
    temps_a: Seq<Option<Double>>,
    b: Seq<(Seq<char>, u8)>,
    temps_b: Seq<Option<Double>>,
    e: (Seq<char>, u8),
    t: Double,
)
    requires
        temps_a.len() == a.len(),
        temps_b.len() == b.len(),
    ensures
        steps_of(a + b, temps_a + temps_b) == steps_of(a, temps_a) + steps_of(b, temps_b),
        steps_of(seq![e], seq![Some(t)]) == seq![(t, e.1)],
        steps_of(seq![e], seq![None::<Double>]) == Seq::<(Double, u8)>::empty(),
    decreases b.len(),
{
    assert(seq![e].drop_last() =~= Seq::empty());
    assert(steps_of(seq![e].drop_last(), seq![Some(t)]) =~= Seq::empty());
    assert(steps_of(seq![e].drop_last(), seq![None::<Double>]) =~= Seq::empty());
    assert(steps_of(seq![e], seq![Some(t)]) =~= seq![(t, e.1)]);
    let both = temps_a + temps_b;
    if b.len() == 0 {
        assert(a + b =~= a && both =~= temps_a);
        assert(steps_of(a + b, both) =~= steps_of(a, temps_a) + steps_of(b, temps_b));
    } else {
        let (b2, temps2) = (b.drop_last(), temps_b.drop_last());
        law_steps_of_entries(a, temps_a, b2, temps2, e, t);
        assert((a + b).drop_last() =~= a + b2);
        assert((a + b).last() == b.last());
        lemma_later_temps_do_not_matter(a + b2, temps_a + temps2, both);
        lemma_later_temps_do_not_matter(b2, temps2, temps_b);
        assert(both[(a + b).len() - 1] == temps_b[b.len() - 1]);
        assert(steps_of(a + b, both) =~= steps_of(a, temps_a) + steps_of(b, temps_b));
    }
}

proof fn lemma_later_temps_do_not_matter(
    entries: Seq<(Seq<char>, u8)>,
    temps: Seq<Option<Double>>,
    more: Seq<Option<Double>>,
)
    requires
        entries.len() <= temps.len() <= more.len(),
        forall|i: int| 0 <= i < entries.len() ==> #[trigger] temps[i] == more[i],
    ensures
        steps_of(entries, temps) == steps_of(entries, more),
    decreases entries.len(),
{
    if entries.len() > 0 {
        lemma_later_temps_do_not_matter(entries.drop_last(), temps, more);
        assert(temps[entries.len() - 1] == more[entries.len() - 1]);
    }
}

/// Steps can be put in order just when any two of them can be compared.
pub proof fn law_comparable_steps(steps: Seq<(Double, u8)>)
    ensures
        comparable(steps) <==> forall|i: int, j: int|
            0 <= i < j < steps.len() ==> (#[trigger] steps[i]).0.ge((#[trigger] steps[j]).0)
                || steps[j].0.ge(steps[i].0),
{
    if steps.len() >= 2 && !numeric(steps) {
        let k = choose|k: int| 0 <= k < steps.len() && (#[trigger] steps[k]).0.nan();
        let (i, j): (int, int) = if k == 0 {
            (0, 1)
        } else {
            (0, k)
        };
        assert(!steps[i].0.ge(steps[j].0) && !steps[j].0.ge(steps[i].0));
    }
}

/// In order, no step is colder than one in front of it.
pub proof fn law_colder_steps_come_first(steps: Seq<(Double, u8)>, i: int, j: int)
    requires
        comparable(steps),
        0 <= i < j < steps.len(),
    ensures
        by_temperature(steps).len() == steps.len(),
        by_temperature(steps)[i].0.value() <= by_temperature(steps)[j].0.value(),
{
    law_by_temperature(steps);
    let sorted = by_temperature(steps);
    assert(!sorted[i].0.gt(sorted[j].0));
    assert(!sorted[i].0.nan() && !sorted[j].0.nan());
}

/// What a list of entries holds is the text and the speed of each.
pub proof fn law_entry_views(v: Seq<(String, u8)>)
    ensures
        entry_views(v).len() == v.len(),
        forall|i: int| 0 <= i < v.len() ==> #[trigger] entry_views(v)[i] == (v[i].0@, v[i].1),
{
}

} // verus!
