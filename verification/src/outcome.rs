//! Per-file outcomes and the run-wide counters.

use vstd::prelude::*;

verus! {

/// Why a candidate file failed: its image could not be decoded, its
/// configuration admitted no tiling, or at least one of its tiles could
/// not be written.
#[derive(Clone, Copy, PartialEq, Eq, Structural, Debug)]
pub enum FailureReason {
    Decode,
    InvalidConfig,
    Write,
}

/// The result of processing one candidate file: left untouched because
/// it is not oversized, tiled into the given number of output files, or
/// failed.  A failure never aborts the run; the walk continues.
#[derive(Clone, Copy, PartialEq, Eq, Structural, Debug)]
pub enum ProcessingOutcome {
    Skipped,
    Tiled(usize),
    Failed(FailureReason),
}

/// How many outcomes of the sequence are `Tiled`.
pub open spec fn tiled_count(s: Seq<ProcessingOutcome>) -> nat
    decreases s.len(),
{
    if s.len() == 0 {
        0
    } else {
        tiled_count(s.drop_last()) + (if s.last() is Tiled {
            1nat
        } else {
            0nat
        })
    }
}

/// At most every candidate is tiled.
pub proof fn lemma_tiled_le_total(s: Seq<ProcessingOutcome>)
    ensures
        tiled_count(s) <= s.len(),
    decreases s.len(),
{
    if s.len() > 0 {
        lemma_tiled_le_total(s.drop_last());
    }
}

/// A run with at least one candidate that was not tiled — a decode
/// failure, say — still counts every candidate, but tiles strictly fewer
/// than all of them.
pub proof fn lemma_failure_caps_tiled(s: Seq<ProcessingOutcome>, i: int)
    requires
        0 <= i < s.len(),
        !(s[i] is Tiled),
    ensures
        tiled_count(s) < s.len(),
    decreases s.len(),
{
    if i == s.len() - 1 {
        lemma_tiled_le_total(s.drop_last());
    } else {
        lemma_failure_caps_tiled(s.drop_last(), i);
    }
}

/// The two counters a whole run reports: candidates seen, and candidates
/// successfully tiled.
#[derive(Clone, Copy, PartialEq, Eq, Structural, Debug)]
pub struct RunStats {
    pub total_candidates: usize,
    pub tiled: usize,
}

impl RunStats {
    /// A fresh run: nothing seen yet.
    pub fn new() -> (r: RunStats)
        ensures
            r.total_candidates == 0,
            r.tiled == 0,
    {
        RunStats { total_candidates: 0, tiled: 0 }
    }

    /// Record one candidate's outcome: every candidate counts, and only
    /// a tiled one raises the tiled count.
    pub fn record(&mut self, outcome: &ProcessingOutcome)
        requires
            old(self).total_candidates < usize::MAX,
            old(self).tiled <= old(self).total_candidates,
        ensures
            final(self).total_candidates == old(self).total_candidates + 1,
            outcome is Tiled ==> final(self).tiled == old(self).tiled + 1,
            !(outcome is Tiled) ==> final(self).tiled == old(self).tiled,
            final(self).tiled <= final(self).total_candidates,
    {
        self.total_candidates = self.total_candidates + 1;
        if let ProcessingOutcome::Tiled(_) = outcome {
            self.tiled = self.tiled + 1;
        }
    }
}

/// Tally a whole run's outcomes: the total is the number of candidates,
/// the tiled count the number of `Tiled` outcomes among them.
pub fn tally_outcomes(outcomes: &Vec<ProcessingOutcome>) -> (r: RunStats)
    ensures
        r.total_candidates == outcomes@.len(),
        r.tiled == tiled_count(outcomes@),
{
    let mut stats = RunStats::new();
    let mut i: usize = 0;
    while i < outcomes.len()
        invariant
            i <= outcomes@.len(),
            stats.total_candidates == i,
            stats.tiled == tiled_count(outcomes@.subrange(0, i as int)),
            stats.tiled <= i,
        decreases outcomes@.len() - i,
    {
        proof {
            assert(outcomes@.subrange(0, i + 1).drop_last() =~= outcomes@.subrange(0, i as int));
            assert(outcomes@.subrange(0, i + 1).last() == outcomes@[i as int]);
        }
        stats.record(&outcomes[i]);
        i = i + 1;
    }
    proof {
        assert(outcomes@.subrange(0, outcomes@.len() as int) =~= outcomes@);
    }
    stats
}

} // verus!
