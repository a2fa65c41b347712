//! Deferred queue for URLs that fall outside the inclusion filter: ids
//! accumulate in `next` and are promoted into the active pending queue at most
//! `max` times over a run.
use vstd::prelude::*;

verus! {

#[derive(Debug)]
pub struct Ring {
    pub max: u8,
    pub current: u8,
    pub next: Vec<usize>,
}

impl Ring {
    /// Waves consumed never exceed the wave budget.
    pub open spec fn wf(&self) -> bool {
        self.current <= self.max
    }

    pub fn new(number_of_rings: u8) -> (r: Ring)
        ensures
            r.max == number_of_rings,
            r.current == 0,
            r.next@ == Seq::<usize>::empty(),
            r.wf(),
    {
        let next: Vec<usize> = Vec::new();
        proof {
            assert(next@ =~= Seq::<usize>::empty());
        }
        Ring { max: number_of_rings, current: 0, next }
    }

    /// Appends a url id to the queue for the following wave.
    pub fn push_next(&mut self, url_id: usize)
        ensures
            final(self).max == old(self).max,
            final(self).current == old(self).current,
            final(self).next@ == old(self).next@.push(url_id),
    {
        self.next.push(url_id);
    }

    /// Promotes the accumulated queue: returns it by move, leaving `next`
    /// empty, and consumes one wave. Returns `None` exactly when all waves
    /// have been consumed.
    pub fn increment(&mut self) -> (r: Option<Vec<usize>>)
        requires
            old(self).wf(),
        ensures
            final(self).max == old(self).max,
            final(self).wf(),
            r is Some <==> old(self).current < old(self).max,
            match r {
                Some(v) => v@ == old(self).next@ && final(self).current == old(self).current + 1
                    && final(self).next@ == Seq::<usize>::empty(),
                None => *final(self) == *old(self),
            },
    {
        if self.current == self.max {
            return None;
        }
        self.current += 1;
        let mut out: Vec<usize> = Vec::new();
        core::mem::swap(&mut out, &mut self.next);
        proof {
            assert(self.next@ =~= Seq::<usize>::empty());
        }
        Some(out)
    }
}

impl Default for Ring {
    fn default() -> (r: Ring)
        ensures
            r.max == 0,
            r.current == 0,
            r.next@ == Seq::<usize>::empty(),
    {
        Ring::new(0)
    }
}

/// One `increment` call as its contract describes it, keeping only what the
/// termination argument needs; `promoted` says whether the call returned
/// `Some`.
pub open spec fn increment_step(pre: Ring, post: Ring, promoted: bool) -> bool {
    &&& post.max == pre.max
    &&& (promoted <==> pre.current < pre.max)
    &&& if promoted {
        post.current == pre.current + 1
    } else {
        post.current == pre.current
    }
}

/// How many of a run's `increment` calls returned `Some`.
pub open spec fn count_promotions(steps: Seq<bool>) -> nat
    decreases steps.len(),
{
    if steps.len() == 0 {
        0
    } else {
        count_promotions(steps.drop_last()) + if steps.last() {
            1nat
        } else {
            0nat
        }
    }
}

proof fn lemma_run_current(states: Seq<Ring>, steps: Seq<bool>)
    requires
        states.len() == steps.len() + 1,
        forall|k: int|
            0 <= k < steps.len() ==> increment_step(states[k], #[trigger] states[k + 1], steps[k]),
    ensures
        states.last().current == states[0].current + count_promotions(steps),
        states[0].current <= states[0].max ==> states.last().current <= states[0].max,
        states.last().max == states[0].max,
    decreases steps.len(),
{
    if steps.len() == 0 {
    } else {
        let prev_states = states.drop_last();
        let prev_steps = steps.drop_last();
        assert forall|k: int|
            0 <= k < prev_steps.len() implies increment_step(
            prev_states[k],
            #[trigger] prev_states[k + 1],
            prev_steps[k],
        ) by {
            assert(increment_step(states[k], states[k + 1], steps[k]));
        }
        lemma_run_current(prev_states, prev_steps);
        assert(increment_step(states[states.len() - 2], states[states.len() - 1], steps[steps.len()
            - 1]));
        assert(prev_states.last() == states[states.len() - 2]);
    }
}

/// Ring termination: over any run of `increment` calls that starts from a
/// fresh ring, at most `max` of the calls return `Some`. The run is given as
/// its successive ring states together with, for each call, whether it
/// promoted a wave.
pub proof fn lemma_ring_termination(states: Seq<Ring>, steps: Seq<bool>)
    requires
        states.len() == steps.len() + 1,
        states[0].current == 0,
        forall|k: int|
            0 <= k < steps.len() ==> increment_step(states[k], #[trigger] states[k + 1], steps[k]),
    ensures
        count_promotions(steps) <= states[0].max,
{
    lemma_run_current(states, steps);
}

} // verus!
