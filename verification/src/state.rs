//! The scheduler's queues and pacing cursor. The embedding program owns the
//! running task handles; the state tracks how many are in flight and what
//! awaits post-processing.
use crate::middle::Conclusion;
use vstd::prelude::*;

verus! {

#[derive(Debug)]
pub struct SchedulerState {
    /// The pacing cursor in milliseconds: the instant the current dispatch
    /// window opened.
    pub time: u64,
    /// Url ids awaiting dispatch, FIFO with the front at index 0.
    pub pending: Vec<usize>,
    /// How many request tasks are running.
    pub requests: usize,
    /// How many process tasks are running.
    pub processes: usize,
    /// Completed conclusions awaiting post-processing, FIFO with the front
    /// at index 0.
    pub conclusions: Vec<Conclusion>,
    /// Whether a record-snapshot write task is outstanding.
    pub writer: bool,
}

impl SchedulerState {
    pub fn new(now: u64) -> (r: SchedulerState)
        ensures
            r.time == now,
            r.pending@ == Seq::<usize>::empty(),
            r.requests == 0,
            r.processes == 0,
            r.conclusions@.len() == 0,
            !r.writer,
    {
        let pending: Vec<usize> = Vec::new();
        proof {
            assert(pending@ =~= Seq::<usize>::empty());
        }
        SchedulerState {
            time: now,
            pending,
            requests: 0,
            processes: 0,
            conclusions: Vec::new(),
            writer: false,
        }
    }

    /// Work is in flight or awaiting post-processing.
    pub fn has_processing(&self) -> (r: bool)
        ensures
            r == (self.requests != 0 || self.processes != 0 || self.conclusions@.len() != 0),
    {
        self.requests != 0 || self.processes != 0 || self.conclusions.len() != 0
    }

    /// Anything at all remains to be done before a ring promotion may be
    /// attempted.
    pub fn has_more_tasks(&self) -> (r: bool)
        ensures
            r == (self.pending@.len() != 0 || self.requests != 0 || self.processes != 0
                || self.conclusions@.len() != 0),
    {
        self.pending.len() != 0 || self.has_processing()
    }

    /// The four queue cardinalities, used for progress logging.
    pub fn lens(&self) -> (r: (usize, usize, usize, usize))
        ensures
            r.0 == self.pending@.len(),
            r.1 == self.requests,
            r.2 == self.processes,
            r.3 == self.conclusions@.len(),
    {
        (self.pending.len(), self.requests, self.processes, self.conclusions.len())
    }
}

impl Default for SchedulerState {
    fn default() -> (r: SchedulerState)
        ensures
            r.time == 0,
            r.pending@ == Seq::<usize>::empty(),
            r.requests == 0,
            r.processes == 0,
            r.conclusions@.len() == 0,
            !r.writer,
    {
        SchedulerState::new(0)
    }
}

} // verus!
