//! The steps of a temperature profile: their order, and the step that decides.
use crate::double::Double;
use vstd::prelude::*;

verus! {

/// Whether each temperature is a number.
pub open spec fn numeric(steps: Seq<(Double, u8)>) -> bool {
    forall|i: int| 0 <= i < steps.len() ==> !(#[trigger] steps[i]).0.nan()
}

/// Whether the steps can be put in order: with two or more, each temperature
/// has to be a number.
pub open spec fn comparable(steps: Seq<(Double, u8)>) -> bool {
    steps.len() < 2 || numeric(steps)
}

/// `steps` with `x` put behind the last step that is no warmer.
pub open spec fn with_step(steps: Seq<(Double, u8)>, x: (Double, u8)) -> Seq<(Double, u8)>
    decreases steps.len(),
{
    if steps.len() == 0 || !steps.last().0.gt(x.0) {
        steps.push(x)
    } else {
        with_step(steps.drop_last(), x).push(steps.last())
    }
}

/// `steps` from cold to warm; those of one temperature keep their order.
pub open spec fn by_temperature(steps: Seq<(Double, u8)>) -> Seq<(Double, u8)>
    decreases steps.len(),
{
    if steps.len() == 0 {
        Seq::empty()
    } else {
        with_step(by_temperature(steps.drop_last()), steps.last())
    }
}

/// Whether no step is warmer than one behind it.
pub open spec fn ascending(steps: Seq<(Double, u8)>) -> bool {
    forall|i: int, j: int|
        0 <= i < j < steps.len() ==> !(#[trigger] steps[i]).0.gt((#[trigger] steps[j]).0)
}

/// What holds of the steps of every profile.
pub open spec fn profile_steps(steps: Seq<(Double, u8)>) -> bool {
    steps.len() > 0 && comparable(steps) && ascending(steps)
}

/// The speed at `temp`: that of the last step that `temp` reaches, or of the
/// first step where it reaches none.
pub open spec fn speed_at(steps: Seq<(Double, u8)>, temp: Double) -> u8
    decreases steps.len(),
{
    if steps.len() <= 1 || temp.ge(steps.last().0) {
        steps.last().1
    } else {
        speed_at(steps.drop_last(), temp)
    }
}

/// Steps that `temp` does not reach do not matter to its speed.
pub proof fn lemma_speed_below(steps: Seq<(Double, u8)>, temp: Double, n: int)
    requires
        steps.len() > 0,
        0 <= n <= steps.len(),
        forall|j: int| n <= j < steps.len() ==> !temp.ge((#[trigger] steps[j]).0),
    ensures
        n == 0 ==> speed_at(steps, temp) == steps[0].1,
        n > 0 ==> speed_at(steps, temp) == speed_at(steps.take(n), temp),
    decreases steps.len(),
{
    if n == steps.len() {
        assert(steps.take(n) =~= steps);
    } else if steps.len() > 1 {
        let front = steps.drop_last();
        assert forall|j: int| n <= j < front.len() implies !temp.ge((#[trigger] front[j]).0) by {
            assert(front[j] == steps[j]);
        }
        lemma_speed_below(front, temp, n);
        assert(n > 0 ==> front.take(n) =~= steps.take(n));
    }
}

/// Putting a step in is inserting it behind what is no warmer.
proof fn lemma_with_step_insert(steps: Seq<(Double, u8)>, x: (Double, u8), n: int)
    requires
        0 <= n <= steps.len(),
        forall|j: int| n <= j < steps.len() ==> (#[trigger] steps[j]).0.gt(x.0),
        n > 0 ==> !steps[n - 1].0.gt(x.0),
    ensures
        with_step(steps, x) == steps.insert(n, x),
    decreases steps.len(),
{
    if n == steps.len() {
        assert(steps.insert(n, x) =~= steps.push(x));
    } else {
        let front = steps.drop_last();
        lemma_with_step_insert(front, x, n);
        assert(steps.insert(n, x) =~= front.insert(n, x).push(steps.last()));
    }
}

/// The steps from cold to warm; those of one temperature keep their order.
pub fn sort_by_temperature(steps: &Vec<(Double, u8)>) -> (r: Vec<(Double, u8)>)
    ensures
        r@ == by_temperature(steps@),
{
    let mut r: Vec<(Double, u8)> = Vec::new();
    let mut i: usize = 0;
    assert(steps@.take(0) =~= Seq::empty());
    while i < steps.len()
        invariant
            i <= steps@.len(),
            r@ == by_temperature(steps@.take(i as int)),
            r@.len() == i,
        decreases steps@.len() - i,
    {
        let x = steps[i];
        let mut n: usize = r.len();
        while n > 0 && r[n - 1].0.above(x.0)
            invariant
                n <= r@.len(),
                forall|j: int| n <= j < r@.len() ==> (#[trigger] r@[j]).0.gt(x.0),
            decreases n,
        {
            n -= 1;
        }
        proof {
            lemma_with_step_insert(r@, x, n as int);
            assert(steps@.take(i + 1).drop_last() =~= steps@.take(i as int));
        }
        r.insert(n, x);
        i += 1;
    }
    assert(steps@.take(i as int) =~= steps@);
    r
}

proof fn lemma_with_step(steps: Seq<(Double, u8)>, x: (Double, u8))
    requires
        numeric(steps),
        ascending(steps),
        !x.0.nan(),
    ensures
        with_step(steps, x).to_multiset() == steps.to_multiset().insert(x),
        with_step(steps, x).len() == steps.len() + 1,
        numeric(with_step(steps, x)),
        ascending(with_step(steps, x)),
        forall|v: int|
            #![trigger with_step(steps, x).filter(at_value(v))]
            with_step(steps, x).filter(at_value(v)) == steps.push(x).filter(at_value(v)),
    decreases steps.len(),
{
    broadcast use vstd::seq_lib::group_to_multiset_ensures;

    let r = with_step(steps, x);
    if steps.len() == 0 || !steps.last().0.gt(x.0) {
        assert forall|i: int, j: int| 0 <= i < j < r.len() implies !(#[trigger] r[i]).0.gt(
            (#[trigger] r[j]).0,
        ) by {
            if j == steps.len() && i < steps.len() - 1 {
                assert(!steps[i].0.gt(steps.last().0));
            }
        }
    } else {
        let front = steps.drop_last();
        let inner = with_step(front, x);
        assert(numeric(front)) by {
            assert forall|i: int| 0 <= i < front.len() implies !(#[trigger] front[i]).0.nan() by {
                assert(front[i] == steps[i]);
            }
        }
        assert(ascending(front)) by {
            assert forall|i: int, j: int| 0 <= i < j < front.len() implies !(
            #[trigger] front[i]).0.gt((#[trigger] front[j]).0) by {
                assert(front[i] == steps[i] && front[j] == steps[j]);
            }
        }
        lemma_with_step(front, x);
        assert(steps =~= front.push(steps.last()));
        assert(r.to_multiset() =~= steps.to_multiset().insert(x));
        assert forall|i: int, j: int| 0 <= i < j < r.len() implies !(#[trigger] r[i]).0.gt(
            (#[trigger] r[j]).0,
        ) by {
            if j == r.len() - 1 {
                let y = inner[i];
                assert(inner.to_multiset().contains(y)) by {
                    assert(inner.contains(y));
                }
                if y != x {
                    assert(front.to_multiset().contains(y));
                    assert(front.contains(y));
                    let k = choose|k: int| 0 <= k < front.len() && front[k] == y;
                    assert(!steps[k].0.gt(steps.last().0));
                }
            } else {
                assert(r[i] == inner[i] && r[j] == inner[j]);
            }
        }
        assert forall|i: int| 0 <= i < r.len() implies !(#[trigger] r[i]).0.nan() by {
            if i < inner.len() {
                assert(r[i] == inner[i]);
            } else {
                assert(r[i] == steps[steps.len() - 1]);
            }
        }
        assert forall|v: int|
            #![trigger with_step(steps, x).filter(at_value(v))]
            r.filter(at_value(v)) == steps.push(x).filter(at_value(v)) by {
            let p = at_value(v);
            assert(inner.filter(p) == front.push(x).filter(p));
            lemma_filter_push(inner, steps.last(), p);
            lemma_filter_push(front, x, p);
            lemma_filter_push(front, steps.last(), p);
            lemma_filter_push(steps, x, p);
        }
    }
}

/// Holds of steps at the temperature `v`.
pub open spec fn at_value(v: int) -> spec_fn((Double, u8)) -> bool {
    |s: (Double, u8)| s.0.value() == v
}

proof fn lemma_filter_push(
    s: Seq<(Double, u8)>,
    x: (Double, u8),
    p: spec_fn((Double, u8)) -> bool,
)
    ensures
        s.push(x).filter(p) == if p(x) {
            s.filter(p).push(x)
        } else {
            s.filter(p)
        },
{
    reveal(Seq::filter);
    assert(s.push(x).drop_last() =~= s);
}

/// Ordering the steps keeps every step, as often as it was there, puts the
/// colder before the warmer, and keeps the order of those of one temperature.
pub proof fn law_by_temperature(steps: Seq<(Double, u8)>)
    requires
        comparable(steps),
    ensures
        by_temperature(steps).len() == steps.len(),
        by_temperature(steps).to_multiset() == steps.to_multiset(),
        comparable(by_temperature(steps)),
        ascending(by_temperature(steps)),
        forall|v: int|
            #![trigger by_temperature(steps).filter(at_value(v))]
            by_temperature(steps).filter(at_value(v)) == steps.filter(at_value(v)),
{
    if steps.len() == 1 {
        assert(by_temperature(steps.drop_last()) =~= Seq::empty());
        assert(by_temperature(steps) =~= steps);
    } else {
        lemma_by_temperature(steps);
    }
}

proof fn lemma_by_temperature(steps: Seq<(Double, u8)>)
    requires
        numeric(steps),
    ensures
        by_temperature(steps).len() == steps.len(),
        by_temperature(steps).to_multiset() == steps.to_multiset(),
        numeric(by_temperature(steps)),
        ascending(by_temperature(steps)),
        forall|v: int|
            #![trigger by_temperature(steps).filter(at_value(v))]
            by_temperature(steps).filter(at_value(v)) == steps.filter(at_value(v)),
    decreases steps.len(),
{
    broadcast use vstd::seq_lib::group_to_multiset_ensures;

    if steps.len() == 0 {
        assert(by_temperature(steps) =~= steps);
    } else {
        let front = steps.drop_last();
        let x = steps.last();
        assert forall|i: int| 0 <= i < front.len() implies !(#[trigger] front[i]).0.nan() by {
            assert(front[i] == steps[i]);
        }
        lemma_by_temperature(front);
        let inner = by_temperature(front);
        lemma_with_step(inner, x);
        assert(steps =~= front.push(x));
        assert forall|v: int|
            #![trigger by_temperature(steps).filter(at_value(v))]
            by_temperature(steps).filter(at_value(v)) == steps.filter(at_value(v)) by {
            let p = at_value(v);
            assert(with_step(inner, x).filter(p) == inner.push(x).filter(p));
            lemma_filter_push(inner, x, p);
            lemma_filter_push(front, x, p);
            assert(inner.filter(p) == front.filter(p));
        }
    }
}

/// Steps that are in order already stay as they are.
pub proof fn law_ordered_steps_stay(steps: Seq<(Double, u8)>)
    requires
        ascending(steps),
    ensures
        by_temperature(steps) == steps,
    decreases steps.len(),
{
    if steps.len() == 0 {
        assert(by_temperature(steps) =~= steps);
    } else {
        let front = steps.drop_last();
        assert forall|i: int, j: int| 0 <= i < j < front.len() implies !(
        #[trigger] front[i]).0.gt((#[trigger] front[j]).0) by {
            assert(front[i] == steps[i] && front[j] == steps[j]);
        }
        law_ordered_steps_stay(front);
        assert(front.push(steps.last()) =~= steps);
        if front.len() > 0 {
            assert(!steps[front.len() - 1].0.gt(steps[front.len() as int].0));
        }
    }
}

/// The speed at any temperature is that of one of the steps.
pub proof fn law_speed_is_configured(steps: Seq<(Double, u8)>, temp: Double)
    requires
        steps.len() > 0,
    ensures
        exists|i: int| 0 <= i < steps.len() && (#[trigger] steps[i]).1 == speed_at(steps, temp),
    decreases steps.len(),
{
    if steps.len() <= 1 || temp.ge(steps.last().0) {
        assert(steps[steps.len() - 1].1 == speed_at(steps, temp));
    } else {
        let front = steps.drop_last();
        law_speed_is_configured(front, temp);
        let i = choose|i: int|
            0 <= i < front.len() && (#[trigger] front[i]).1 == speed_at(front, temp);
        assert(steps[i].1 == speed_at(steps, temp));
    }
}

/// Where warmer steps never have a lower speed, a warmer temperature never
/// gets a lower speed.
pub proof fn law_warmer_is_no_slower(steps: Seq<(Double, u8)>, warm: Double, cool: Double)
    requires
        profile_steps(steps),
        forall|i: int, j: int|
            0 <= i < j < steps.len() ==> (#[trigger] steps[i]).1 <= (#[trigger] steps[j]).1,
        warm.ge(cool),
    ensures
        speed_at(steps, warm) >= speed_at(steps, cool),
    decreases steps.len(),
{
    let front = steps.drop_last();
    if steps.len() <= 1 || cool.ge(steps.last().0) {
    } else if warm.ge(steps.last().0) {
        law_speed_is_configured(front, cool);
        let i = choose|i: int|
            0 <= i < front.len() && (#[trigger] front[i]).1 == speed_at(front, cool);
        assert(steps[i].1 <= steps[steps.len() - 1].1);
    } else {
        assert forall|i: int, j: int| 0 <= i < j < front.len() implies (#[trigger] front[i]).1 <= (
        #[trigger] front[j]).1 && !front[i].0.gt(front[j].0) by {
            assert(front[i] == steps[i] && front[j] == steps[j]);
        }
        assert forall|i: int| 0 <= i < front.len() implies !(#[trigger] front[i]).0.nan() by {
            assert(front[i] == steps[i]);
        }
        law_warmer_is_no_slower(front, warm, cool);
    }
}

proof fn lemma_new_step_wins(steps: Seq<(Double, u8)>, x: (Double, u8), temp: Double)
    requires
        temp.ge(x.0),
        forall|k: int|
            0 <= k < steps.len() && temp.ge((#[trigger] steps[k]).0) ==> !steps[k].0.gt(x.0),
    ensures
        speed_at(with_step(steps, x), temp) == x.1,
        with_step(steps, x).len() > 0,
    decreases steps.len(),
{
    if steps.len() == 0 || !steps.last().0.gt(x.0) {
    } else {
        let front = steps.drop_last();
        assert(!temp.ge(steps[steps.len() - 1].0));
        assert forall|k: int|
            0 <= k < front.len() && temp.ge((#[trigger] front[k]).0) implies !front[k].0.gt(
            x.0,
        ) by {
            assert(front[k] == steps[k]);
        }
        lemma_new_step_wins(front, x, temp);
        assert(with_step(steps, x).drop_last() =~= with_step(front, x));
    }
}

proof fn lemma_new_step_loses(steps: Seq<(Double, u8)>, x: (Double, u8), temp: Double, k: int)
    requires
        ascending(steps),
        0 <= k < steps.len(),
        temp.ge(steps[k].0),
        temp.ge(x.0) ==> steps[k].0.gt(x.0),
        !x.0.nan(),
        numeric(steps),
    ensures
        speed_at(with_step(steps, x), temp) == speed_at(steps, temp),
        with_step(steps, x).len() > 1,
    decreases steps.len(),
{
    if !steps.last().0.gt(x.0) {
        assert(k < steps.len() - 1 ==> !steps[k].0.gt(steps[steps.len() - 1].0));
        assert(!steps[steps.len() - 1].0.nan());
        assert(!temp.ge(x.0));
        assert(steps.push(x).drop_last() =~= steps);
    } else {
        let front = steps.drop_last();
        assert(with_step(steps, x).drop_last() =~= with_step(front, x));
        if k < front.len() {
            assert forall|i: int, j: int| 0 <= i < j < front.len() implies !(
            #[trigger] front[i]).0.gt((#[trigger] front[j]).0) by {
                assert(front[i] == steps[i] && front[j] == steps[j]);
            }
            assert forall|i: int| 0 <= i < front.len() implies !(#[trigger] front[i]).0.nan() by {
                assert(front[i] == steps[i]);
            }
            lemma_new_step_loses(front, x, temp, k);
        } else {
            assert(temp.ge(steps.last().0));
            lemma_with_step(steps, x);
        }
    }
}

/// Whether step `i` is the one that decides at `temp`: `temp` reaches it, and
/// any other step that `temp` reaches is colder, or as warm and given earlier.
pub open spec fn decides(steps: Seq<(Double, u8)>, temp: Double, i: int) -> bool {
    &&& 0 <= i < steps.len()
    &&& temp.ge(steps[i].0)
    &&& forall|j: int|
        0 <= j < steps.len() && temp.ge((#[trigger] steps[j]).0) ==> {
            ||| steps[i].0.gt(steps[j].0)
            ||| steps[i].0.value() == steps[j].0.value() && j <= i
        }
}

/// In whatever order the steps are given, the speed at a temperature is that
/// of the warmest step it reaches, the last given where several are as warm.
pub proof fn law_warmest_reached_step_decides(steps: Seq<(Double, u8)>, temp: Double, i: int)
    requires
        comparable(steps),
        decides(steps, temp, i),
    ensures
        speed_at(by_temperature(steps), temp) == steps[i].1,
    decreases steps.len(),
{
    broadcast use vstd::seq_lib::group_to_multiset_ensures;

    let front = steps.drop_last();
    let x = steps.last();
    if steps.len() == 1 {
        assert(by_temperature(front) =~= Seq::empty());
        assert(by_temperature(steps) =~= steps);
    } else {
        assert forall|k: int| 0 <= k < front.len() implies !(#[trigger] front[k]).0.nan() by {
            assert(front[k] == steps[k]);
        }
        lemma_by_temperature(front);
        let inner = by_temperature(front);
        assert(!steps[steps.len() - 1].0.nan());
        if i == steps.len() - 1 {
            assert forall|k: int|
                0 <= k < inner.len() && temp.ge((#[trigger] inner[k]).0) implies !inner[k].0.gt(
                x.0,
            ) by {
                assert(inner.contains(inner[k]));
                assert(front.to_multiset().contains(inner[k]));
                assert(front.contains(inner[k]));
                let j = choose|j: int| 0 <= j < front.len() && front[j] == inner[k];
                assert(steps[j] == inner[k]);
            }
            lemma_new_step_wins(inner, x, temp);
        } else {
            let y = steps[i];
            assert(front[i] == y);
            assert(front.contains(y));
            assert(inner.to_multiset().contains(y));
            assert(inner.contains(y));
            let k = choose|k: int| 0 <= k < inner.len() && inner[k] == y;
            assert(temp.ge(x.0) ==> y.0.gt(x.0)) by {
                assert(x == steps[steps.len() - 1]);
            }
            lemma_new_step_loses(inner, x, temp, k);
            assert forall|j: int|
                0 <= j < front.len() && temp.ge((#[trigger] front[j]).0) implies {
                ||| front[i].0.gt(front[j].0)
                ||| front[i].0.value() == front[j].0.value() && j <= i
            } by {
                assert(front[j] == steps[j]);
            }
            law_warmest_reached_step_decides(front, temp, i);
        }
    }
}

/// A temperature that reaches no step gets the speed of the coldest step, the
/// first given where several are as cold.
pub proof fn law_coldest_step_is_the_floor(steps: Seq<(Double, u8)>, temp: Double, i: int)
    requires
        comparable(steps),
        0 <= i < steps.len(),
        forall|j: int| 0 <= j < steps.len() ==> !temp.ge((#[trigger] steps[j]).0),
        forall|j: int|
            0 <= j < steps.len() ==> j == i || (#[trigger] steps[j]).0.gt(steps[i].0) || (
            steps[j].0.value() == steps[i].0.value() && i < j),
    ensures
        speed_at(by_temperature(steps), temp) == steps[i].1,
{
    broadcast use vstd::seq_lib::group_to_multiset_ensures;

    law_by_temperature(steps);
    let sorted = by_temperature(steps);
    assert forall|j: int| 0 <= j < sorted.len() implies !temp.ge((#[trigger] sorted[j]).0) by {
        assert(sorted.contains(sorted[j]));
        assert(steps.to_multiset().contains(sorted[j]));
        assert(steps.contains(sorted[j]));
    }
    lemma_speed_below(sorted, temp, 0);
    if steps.len() == 1 {
        assert(by_temperature(steps.drop_last()) =~= Seq::empty());
        assert(sorted =~= steps);
    } else {
        lemma_first_is_coldest(steps, i);
    }
}

proof fn lemma_first_with_step(steps: Seq<(Double, u8)>, x: (Double, u8))
    requires
        ascending(steps),
        numeric(steps),
        !x.0.nan(),
    ensures
        with_step(steps, x)[0] == if steps.len() == 0 || steps[0].0.gt(x.0) {
            x
        } else {
            steps[0]
        },
        with_step(steps, x).len() > 0,
    decreases steps.len(),
{
    if steps.len() > 0 {
        assert(steps.len() > 1 ==> !steps[0].0.gt(steps[steps.len() - 1].0));
        if steps.last().0.gt(x.0) {
            let front = steps.drop_last();
            assert forall|i: int, j: int| 0 <= i < j < front.len() implies !(
            #[trigger] front[i]).0.gt((#[trigger] front[j]).0) by {
                assert(front[i] == steps[i] && front[j] == steps[j]);
            }
            assert forall|i: int| 0 <= i < front.len() implies !(#[trigger] front[i]).0.nan() by {
                assert(front[i] == steps[i]);
            }
            lemma_first_with_step(front, x);
        } else {
            assert(!steps[steps.len() - 1].0.nan());
            assert(!steps[0].0.nan());
        }
    }
}

proof fn lemma_first_is_coldest(steps: Seq<(Double, u8)>, i: int)
    requires
        numeric(steps),
        0 <= i < steps.len(),
        forall|j: int|
            0 <= j < steps.len() ==> j == i || (#[trigger] steps[j]).0.gt(steps[i].0) || (
            steps[j].0.value() == steps[i].0.value() && i < j),
    ensures
        by_temperature(steps)[0] == steps[i],
    decreases steps.len(),
{
    broadcast use vstd::seq_lib::group_to_multiset_ensures;

    let front = steps.drop_last();
    let x = steps.last();
    assert forall|k: int| 0 <= k < front.len() implies !(#[trigger] front[k]).0.nan() by {
        assert(front[k] == steps[k]);
    }
    lemma_by_temperature(front);
    let inner = by_temperature(front);
    assert(!steps[steps.len() - 1].0.nan());
    lemma_first_with_step(inner, x);
    if i == steps.len() - 1 {
        if inner.len() > 0 {
            assert(inner.contains(inner[0]));
            assert(front.to_multiset().contains(inner[0]));
            assert(front.contains(inner[0]));
            let j = choose|j: int| 0 <= j < front.len() && front[j] == inner[0];
            assert(steps[j] == inner[0]);
        }
    } else {
        assert(front[i] == steps[i]);
        assert forall|j: int| 0 <= j < front.len() implies j == i || (#[trigger] front[j]).0.gt(
            front[i].0,
        ) || (front[j].0.value() == front[i].0.value() && i < j) by {
            assert(front[j] == steps[j]);
        }
        lemma_first_is_coldest(front, i);
        assert(x == steps[steps.len() - 1]);
    }
}

/// Whether no two steps are of one temperature.
pub open spec fn distinct(steps: Seq<(Double, u8)>) -> bool {
    forall|i: int, j: int|
        0 <= i < j < steps.len() ==> (#[trigger] steps[i]).0.value() != (
        #[trigger] steps[j]).0.value()
}

proof fn lemma_one_order(a: Seq<(Double, u8)>, b: Seq<(Double, u8)>)
    requires
        numeric(a) && numeric(b),
        ascending(a) && ascending(b),
        distinct(a) && distinct(b),
        a.to_multiset() == b.to_multiset(),
    ensures
        a == b,
    decreases a.len(),
{
    broadcast use vstd::seq_lib::group_to_multiset_ensures;

    a.to_multiset_ensures();
    b.to_multiset_ensures();
    if a.len() == 0 {
        assert(a =~= b);
    } else {
        let (x, y) = (a.last(), b.last());
        assert(a[a.len() - 1] == x && b[b.len() - 1] == y);
        assert(a.contains(x) && b.contains(y));
        assert(b.to_multiset().contains(x) && a.to_multiset().contains(y));
        assert(b.contains(x) && a.contains(y));
        let k = choose|k: int| 0 <= k < b.len() && b[k] == x;
        let m = choose|m: int| 0 <= m < a.len() && a[m] == y;
        assert(k < b.len() - 1 ==> !b[k].0.gt(b[b.len() - 1].0));
        assert(m < a.len() - 1 ==> !a[m].0.gt(a[a.len() - 1].0));
        assert(!x.0.nan() && !y.0.nan());
        assert(x.0.value() == y.0.value());
        assert(k == b.len() - 1);
        let (c, d) = (a.drop_last(), b.drop_last());
        assert(a =~= c.push(x) && b =~= d.push(x));
        assert(c.to_multiset() =~= a.to_multiset().remove(x));
        assert(d.to_multiset() =~= b.to_multiset().remove(x));
        assert forall|i: int, j: int| 0 <= i < j < c.len() implies !(#[trigger] c[i]).0.gt(
            (#[trigger] c[j]).0,
        ) && c[i].0.value() != c[j].0.value() by {
            assert(c[i] == a[i] && c[j] == a[j]);
        }
        assert forall|i: int, j: int| 0 <= i < j < d.len() implies !(#[trigger] d[i]).0.gt(
            (#[trigger] d[j]).0,
        ) && d[i].0.value() != d[j].0.value() by {
            assert(d[i] == b[i] && d[j] == b[j]);
        }
        assert forall|i: int| 0 <= i < c.len() implies !(#[trigger] c[i]).0.nan() by {
            assert(c[i] == a[i]);
        }
        assert forall|i: int| 0 <= i < d.len() implies !(#[trigger] d[i]).0.nan() by {
            assert(d[i] == b[i]);
        }
        lemma_one_order(c, d);
    }
}

/// Where no two steps are of one temperature, the order in which they are given
/// makes no difference.
pub proof fn law_given_order_does_not_matter(a: Seq<(Double, u8)>, b: Seq<(Double, u8)>)
    requires
        comparable(a),
        comparable(b),
        distinct(a),
        a.to_multiset() == b.to_multiset(),
    ensures
        by_temperature(a) == by_temperature(b),
{
    broadcast use vstd::seq_lib::group_to_multiset_ensures;

    a.to_multiset_ensures();
    b.to_multiset_ensures();
    if a.len() == 1 {
        assert(a.contains(a[0]));
        assert(b.to_multiset().contains(a[0]));
        assert(b.contains(a[0]));
        assert(a =~= b);
    } else {
        lemma_by_temperature(a);
        lemma_by_temperature(b);
        lemma_distinct_given_otherwise(a, by_temperature(a));
        lemma_distinct_given_otherwise(a, by_temperature(b));
        lemma_one_order(by_temperature(a), by_temperature(b));
    }
}

proof fn lemma_distinct_given_otherwise(a: Seq<(Double, u8)>, b: Seq<(Double, u8)>)
    requires
        distinct(a),
        a.to_multiset() == b.to_multiset(),
    ensures
        distinct(b),
{
    broadcast use vstd::seq_lib::group_to_multiset_ensures;

    assert(a.no_duplicates());
    a.lemma_multiset_has_no_duplicates();
    b.lemma_multiset_has_no_duplicates_conv();
    assert forall|i: int, j: int| 0 <= i < j < b.len() implies (#[trigger] b[i]).0.value() != (
    #[trigger] b[j]).0.value() by {
        assert(b.contains(b[i]) && b.contains(b[j]));
        assert(a.to_multiset().contains(b[i]) && a.to_multiset().contains(b[j]));
        assert(a.contains(b[i]) && a.contains(b[j]));
        let k = choose|k: int| 0 <= k < a.len() && a[k] == b[i];
        let l = choose|l: int| 0 <= l < a.len() && a[l] == b[j];
        assert(b[i] != b[j]);
        if k < l {
            assert(a[k].0.value() != a[l].0.value());
        } else {
            assert(a[l].0.value() != a[k].0.value());
        }
    }
}

} // verus!
