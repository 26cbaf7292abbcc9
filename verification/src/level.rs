//! A level: one tier of the tree, a capacity-bounded, recency-ordered
//! collection of runs. The run at index 0 is the most recently written
//! or merged run of the tier; higher indices are progressively older.

use vstd::prelude::*;

use std::collections::VecDeque;

use crate::run::Run;

verus! {

pub struct Level {
    pub runs: VecDeque<Run>,
    pub max_runs: usize,
    pub max_run_size: usize,
}

impl Level {
    /// Well-formed: the run count respects the bound, and every run is
    /// itself well-formed and sized to this level's run capacity.
    pub open spec fn wf(self) -> bool {
        &&& self.max_runs >= 1
        &&& self.runs@.len() <= self.max_runs
        &&& forall|i: int| 0 <= i < self.runs@.len()
                ==> (#[trigger] self.runs@[i]).wf()
                    && self.runs@[i].spec_capacity() == self.max_run_size as int
    }

    /// True when no further run fits.
    pub open spec fn spec_full(self) -> bool {
        self.runs@.len() >= self.max_runs
    }

    /// Constructs an empty level.
    pub fn new(max_runs: usize, max_run_size: usize) -> (r: Level)
        requires
            max_runs >= 1,
        ensures
            r.wf(),
            r.runs@.len() == 0,
            r.max_runs == max_runs,
            r.max_run_size == max_run_size,
    {
        Level { runs: VecDeque::new(), max_runs, max_run_size }
    }

    /// Free run capacity. Calling this in a state where the run count
    /// exceeds the bound would claim negative capacity; that state is
    /// an internal-invariant violation and is ruled out here.
    pub fn remaining(&self) -> (r: usize)
        requires
            self.runs@.len() <= self.max_runs,
        ensures
            r == self.max_runs - self.runs@.len(),
    {
        self.max_runs - self.runs.len()
    }
}

} // verus!
