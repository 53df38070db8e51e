//! The rolling history that the web page draws.
use crate::double::Double;
use std::collections::VecDeque;
use vstd::prelude::*;

verus! {

/// The window after one more sample: the oldest goes where it would grow
/// beyond `cap`.
pub open spec fn pushed(window: Seq<Double>, v: Double, cap: nat) -> Seq<Double> {
    let longer = window.push(v);
    if longer.len() > cap {
        longer.skip(1)
    } else {
        longer
    }
}

/// The window after a sample, or as it was where there is none.
pub open spec fn pushed_if_any(window: Seq<Double>, v: Option<Double>, cap: nat) -> Seq<Double> {
    match v {
        Some(x) => pushed(window, x, cap),
        None => window,
    }
}

/// Puts a sample into the window, and takes the oldest out where the window
/// would grow beyond `cap`.
pub fn push_capped(buf: &mut VecDeque<Double>, v: Double, cap: usize)
    ensures
        final(buf)@ == pushed(old(buf)@, v, cap as nat),
        old(buf)@.len() < cap ==> final(buf)@ == old(buf)@.push(v),
        old(buf)@.len() >= cap ==> final(buf)@ == old(buf)@.push(v).skip(1),
        old(buf)@.len() <= cap ==> final(buf)@.len() <= cap,
{
    buf.push_back(v);
    if buf.len() > cap {
        buf.pop_front();
    }
}

/// The window after all of `samples`, from an empty one.
pub open spec fn window_of(samples: Seq<Double>, cap: nat) -> Seq<Double>
    decreases samples.len(),
{
    if samples.len() == 0 {
        Seq::empty()
    } else {
        pushed(window_of(samples.drop_last(), cap), samples.last(), cap)
    }
}

/// The window holds the latest samples, oldest first: all of them up to its
/// capacity, and from there on as many as it can hold.
pub proof fn law_window_holds_the_latest(samples: Seq<Double>, cap: nat)
    ensures
        window_of(samples, cap) == if samples.len() <= cap {
            samples
        } else {
            samples.skip(samples.len() - cap)
        },
    decreases samples.len(),
{
    if samples.len() > 0 {
        law_window_holds_the_latest(samples.drop_last(), cap);
        let window = window_of(samples.drop_last(), cap);
        if samples.len() <= cap {
            assert(window.push(samples.last()) =~= samples);
        } else {
            assert(window.push(samples.last()).skip(1) =~= samples.skip(samples.len() - cap));
        }
    }
}

/// What the web page shows: the latest temperatures and load figures, each in
/// percent, and the fan speed.
#[derive(Debug)]
pub struct FanState {
    pub history: VecDeque<Double>,
    pub current_pwm: u8,
    pub cpu: VecDeque<Double>,
    pub mem: VecDeque<Double>,
    pub disk: VecDeque<Double>,
}

impl FanState {
    /// Whether no window holds more than `cap` samples.
    pub open spec fn within(self, cap: nat) -> bool {
        &&& self.history@.len() <= cap
        &&& self.cpu@.len() <= cap
        &&& self.mem@.len() <= cap
        &&& self.disk@.len() <= cap
    }

    /// The state before the first sample, with the fan at rest and room for
    /// `history_size` samples.
    pub fn new(history_size: usize) -> (r: FanState)
        requires
            history_size <= isize::MAX as int / 8,
        ensures
            r.history@ == Seq::<Double>::empty(),
            r.current_pwm == 0,
            r.cpu@ == Seq::<Double>::empty(),
            r.mem@ == Seq::<Double>::empty(),
            r.disk@ == Seq::<Double>::empty(),
            r.within(history_size as nat),
    {
        FanState {
            history: VecDeque::with_capacity(history_size),
            current_pwm: 0,
            cpu: VecDeque::with_capacity(history_size),
            mem: VecDeque::with_capacity(history_size),
            disk: VecDeque::with_capacity(history_size),
        }
    }

    /// Takes in one round of samples; a figure that could not be had leaves its
    /// window as it is.
    pub fn record(
        &mut self,
        temp: Double,
        cpu: Option<Double>,
        mem: Option<Double>,
        disk: Option<Double>,
        history_size: usize,
    )
        ensures
            final(self).history@ == pushed(old(self).history@, temp, history_size as nat),
            final(self).cpu@ == pushed_if_any(old(self).cpu@, cpu, history_size as nat),
            final(self).mem@ == pushed_if_any(old(self).mem@, mem, history_size as nat),
            final(self).disk@ == pushed_if_any(old(self).disk@, disk, history_size as nat),
            final(self).current_pwm == old(self).current_pwm,
            old(self).history@.len() <= history_size ==> final(self).history@ == latest(
                old(self).history@.push(temp),
                history_size as nat,
            ),
            old(self).cpu@.len() <= history_size ==> final(self).cpu@ == match cpu {
                Some(x) => latest(old(self).cpu@.push(x), history_size as nat),
                None => old(self).cpu@,
            },
            old(self).mem@.len() <= history_size ==> final(self).mem@ == match mem {
                Some(x) => latest(old(self).mem@.push(x), history_size as nat),
                None => old(self).mem@,
            },
            old(self).disk@.len() <= history_size ==> final(self).disk@ == match disk {
                Some(x) => latest(old(self).disk@.push(x), history_size as nat),
                None => old(self).disk@,
            },
            old(self).within(history_size as nat) ==> final(self).within(history_size as nat),
    {
        push_capped(&mut self.history, temp, history_size);
        if let Some(c) = cpu {
            push_capped(&mut self.cpu, c, history_size);
        }
        if let Some(m) = mem {
            push_capped(&mut self.mem, m, history_size);
        }
        if let Some(d) = disk {
            push_capped(&mut self.disk, d, history_size);
        }
    }
}

/// The samples that were had, in order.
pub open spec fn had(samples: Seq<Option<Double>>) -> Seq<Double>
    decreases samples.len(),
{
    if samples.len() == 0 {
        Seq::empty()
    } else {
        match samples.last() {
            Some(x) => had(samples.drop_last()).push(x),
            None => had(samples.drop_last()),
        }
    }
}

/// The last samples, as many as there are up to `cap`, in order.
pub open spec fn latest(samples: Seq<Double>, cap: nat) -> Seq<Double> {
    if samples.len() <= cap {
        samples
    } else {
        samples.skip(samples.len() - cap)
    }
}

/// The window after rounds that had those samples or none, from an empty one.
pub open spec fn window_after(samples: Seq<Option<Double>>, cap: nat) -> Seq<Double>
    decreases samples.len(),
{
    if samples.len() == 0 {
        Seq::empty()
    } else {
        pushed_if_any(window_after(samples.drop_last(), cap), samples.last(), cap)
    }
}

/// After any rounds, a window holds the latest of the samples that were had,
/// oldest first and each as often as it was had; rounds without a sample make
/// no difference.
pub proof fn law_window_holds_the_latest_had(samples: Seq<Option<Double>>, cap: nat)
    ensures
        window_after(samples, cap) == latest(had(samples), cap),
    decreases samples.len(),
{
    if samples.len() > 0 {
        let front = samples.drop_last();
        law_window_holds_the_latest_had(front, cap);
        if samples.last() is Some {
            law_one_more_sample(had(front), samples.last()->0, cap);
        }
    }
}

/// One more sample moves the window on by one: from the latest of some samples
/// to the latest of those and the new one, whatever it is.
pub proof fn law_one_more_sample(samples: Seq<Double>, v: Double, cap: nat)
    ensures
        pushed(latest(samples, cap), v, cap) == latest(samples.push(v), cap),
        pushed_if_any(latest(samples, cap), Some(v), cap) == latest(samples.push(v), cap),
        pushed_if_any(latest(samples, cap), None, cap) == latest(samples, cap),
{
    assert(pushed(latest(samples, cap), v, cap) =~= latest(samples.push(v), cap));
}

/// Of rounds one after the other, the samples that were had come in that order,
/// none left out and none added.
pub proof fn law_had(samples: Seq<Option<Double>>, more: Seq<Option<Double>>, v: Double)
    ensures
        had(samples + more) == had(samples) + had(more),
        had(seq![Some(v)]) == seq![v],
        had(seq![None::<Double>]) == Seq::<Double>::empty(),
    decreases more.len(),
{
    assert(seq![Some(v)].drop_last() =~= Seq::empty());
    assert(seq![None::<Double>].drop_last() =~= Seq::empty());
    assert(had(Seq::empty()) =~= Seq::empty());
    assert(had(seq![Some(v)]) =~= seq![v]);
    if more.len() == 0 {
        assert(samples + more =~= samples);
        assert(had(samples + more) =~= had(samples) + had(more));
    } else {
        law_had(samples, more.drop_last(), v);
        assert((samples + more).drop_last() =~= samples + more.drop_last());
        assert((samples + more).last() == more.last());
        assert(had(samples + more) =~= had(samples) + had(more));
    }
}

} // verus!
