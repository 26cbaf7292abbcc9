//! Coordination for fan-out point lookups.
//!
//! A lookup may probe many runs in parallel; probes complete in any
//! order. One `ProbeState` per lookup records the most-recent rank
//! (lower rank = more recent run) for which a confirmed hit has
//! arrived, so that probes of strictly older runs can short-circuit,
//! and it aggregates probe failures so that an I/O error is never
//! silently reported as "key not present". Recency still governs
//! acceptance: a later-arriving hit from a more recent run overrides
//! an earlier-arriving hit from an older one, never the reverse.

use vstd::prelude::*;

use crate::data::copy_bytes;

verus! {

/// The aggregated result of one fan-out lookup.
pub enum LookupOutcome {
    /// A hit whose rank is more recent than every failed probe.
    Found(Vec<u8>),
    /// Every probe completed and none held the key.
    NotFound,
    /// Some probe failed and no strictly more recent hit shadows it:
    /// the key's status is unknown, which is distinct from a miss.
    Degraded,
}

/// Shared best-result-so-far state for one point lookup.
pub struct ProbeState {
    pub has_hit: bool,
    pub best_rank: usize,
    pub best_value: Vec<u8>,
    pub has_failure: bool,
    pub failed_rank: usize,
}

impl ProbeState {
    /// Fresh state for one lookup call: no hit, no failure yet.
    pub fn new() -> (r: ProbeState)
        ensures
            !r.has_hit,
            !r.has_failure,
    {
        ProbeState {
            has_hit: false,
            best_rank: 0,
            best_value: Vec::new(),
            has_failure: false,
            failed_rank: 0,
        }
    }

    /// True while a probe of rank `rank` could still matter: no hit is
    /// known from a run at least as recent.
    pub fn should_probe(&self, rank: usize) -> (r: bool)
        ensures
            r == (!self.has_hit || rank < self.best_rank),
    {
        !self.has_hit || rank < self.best_rank
    }

    /// Records a confirmed hit. It is kept only if it is more recent
    /// (lower rank) than the best hit so far; otherwise it is ignored,
    /// so an older run's value can never override a newer run's.
    pub fn record_hit(&mut self, rank: usize, value: Vec<u8>)
        ensures
            final(self).has_failure == old(self).has_failure,
            final(self).failed_rank == old(self).failed_rank,
            final(self).has_hit,
            (!old(self).has_hit || rank < old(self).best_rank)
                ==> final(self).best_rank == rank && final(self).best_value@ == value@,
            !(!old(self).has_hit || rank < old(self).best_rank)
                ==> final(self).best_rank == old(self).best_rank
                    && final(self).best_value == old(self).best_value,
    {
        if !self.has_hit || rank < self.best_rank {
            self.has_hit = true;
            self.best_rank = rank;
            self.best_value = value;
        }
    }

    /// Records a failed probe; only the most recent (lowest) failed
    /// rank matters for the outcome.
    pub fn record_failure(&mut self, rank: usize)
        ensures
            final(self).has_hit == old(self).has_hit,
            final(self).best_rank == old(self).best_rank,
            final(self).best_value == old(self).best_value,
            final(self).has_failure,
            (!old(self).has_failure || rank < old(self).failed_rank)
                ==> final(self).failed_rank == rank,
            !(!old(self).has_failure || rank < old(self).failed_rank)
                ==> final(self).failed_rank == old(self).failed_rank,
    {
        if !self.has_failure || rank < self.failed_rank {
            self.has_failure = true;
            self.failed_rank = rank;
        }
    }

    /// The aggregated outcome once every scheduled probe has either
    /// completed or been short-circuited. A hit counts only if no
    /// failed probe was more recent than it; a failure that is not
    /// shadowed by a more recent hit degrades the lookup instead of
    /// masquerading as "not found".
    pub fn outcome(&self) -> (r: LookupOutcome)
        ensures
            match r {
                LookupOutcome::Found(v) => self.has_hit && v@ == self.best_value@
                    && (!self.has_failure || self.best_rank < self.failed_rank),
                LookupOutcome::NotFound => !self.has_hit && !self.has_failure,
                LookupOutcome::Degraded => self.has_failure
                    && (!self.has_hit || self.failed_rank <= self.best_rank),
            },
    {
        if self.has_hit {
            if !self.has_failure || self.best_rank < self.failed_rank {
                LookupOutcome::Found(copy_bytes(&self.best_value))
            } else {
                LookupOutcome::Degraded
            }
        } else {
            if self.has_failure {
                LookupOutcome::Degraded
            } else {
                LookupOutcome::NotFound
            }
        }
    }
}

} // verus!
