//! The incremental frontier builder: candidates are presented one at a
//! time, each after a checked preflight of the work counters, and the
//! retained set stays the preference-aware Pareto frontier in
//! presentation order.
use crate::cost::{cost_le, cost_lt, ConsumerCost};
use crate::render::{add_pruned, stats_add_fits, zero_stats, RenderError, SolveCounter, SolveStats};
use vstd::prelude::*;

verus! {

/// A candidate offered to the builder: cost, last column and the position
/// in which it was presented.
#[derive(Clone, Copy, Debug, PartialEq, Eq, Structural)]
pub struct ScratchCandidate {
    /// Cost of the candidate.
    pub cost: ConsumerCost,
    /// Final display column.
    pub last: u32,
    /// Presentation order.
    pub precedence: u64,
}

/// An earlier candidate `p` makes `c` redundant: same end and no dearer,
/// or an earlier end and strictly cheaper.
pub open spec fn scratch_redundant(p: ScratchCandidate, c: ScratchCandidate) -> bool {
    (p.last == c.last && cost_le(p.cost, c.cost)) || (p.last < c.last && cost_lt(p.cost, c.cost))
}

/// A new candidate `c` evicts a retained `p` it strictly beats while
/// ending no further right.
pub open spec fn scratch_evicts(c: ScratchCandidate, p: ScratchCandidate) -> bool {
    c.last <= p.last && cost_lt(c.cost, p.cost)
}

/// The retained candidates that `c` does not evict, in order.
pub open spec fn survivors(s: Seq<ScratchCandidate>, c: ScratchCandidate) -> Seq<ScratchCandidate>
    decreases s.len(),
{
    if s.len() == 0 {
        seq![]
    } else {
        let rest = survivors(s.drop_last(), c);
        if scratch_evicts(c, s.last()) {
            rest
        } else {
            rest.push(s.last())
        }
    }
}

/// The number of retained candidates that `c` evicts.
pub open spec fn evicted_count(s: Seq<ScratchCandidate>, c: ScratchCandidate) -> nat
    decreases s.len(),
{
    if s.len() == 0 {
        0
    } else {
        evicted_count(s.drop_last(), c) + if scratch_evicts(c, s.last()) {
            1nat
        } else {
            0nat
        }
    }
}

/// `stats` with one more work item and one more generated candidate.
pub open spec fn counted(stats: SolveStats) -> SolveStats {
    SolveStats {
        work_items: (stats.work_items + 1) as u64,
        candidates_generated: (stats.candidates_generated + 1) as u64,
        ..stats
    }
}

/// `stats` with `amount` more pruned candidates.
pub open spec fn pruned_more(stats: SolveStats, amount: nat) -> SolveStats {
    SolveStats { candidates_pruned: (stats.candidates_pruned + amount) as u64, ..stats }
}

/// The overflow error of `counter` at `stats`.
pub open spec fn counter_overflow(counter: SolveCounter, required: int, stats: SolveStats) -> RenderError {
    RenderError::StatisticsOverflow { counter, required: required as u128, maximum: u64::MAX, stats }
}

/// Retains the frontier of the candidates presented so far.
pub struct FrontierBuilder {
    /// Counters of the presentation work.
    pub stats: SolveStats,
    live: Vec<ScratchCandidate>,
}

impl FrontierBuilder {
    /// The retained candidates in presentation order.
    pub closed spec fn spec_live(&self) -> Seq<ScratchCandidate> {
        self.live@
    }

    /// The counters.
    pub closed spec fn spec_stats(&self) -> SolveStats {
        self.stats
    }

    /// An empty builder with zero counters.
    pub fn new() -> (r: Self)
        ensures
            r.spec_live() == Seq::<ScratchCandidate>::empty(),
            r.spec_stats() == zero_stats(),
    {
        FrontierBuilder { stats: SolveStats::default(), live: Vec::new() }
    }

    /// Forgets every retained candidate; the counters stay.
    pub fn clear(&mut self)
        ensures
            final(self).spec_live() == Seq::<ScratchCandidate>::empty(),
            final(self).spec_stats() == old(self).spec_stats(),
    {
        self.live = Vec::new();
    }

    /// The number of retained candidates.
    pub fn live_count(&self) -> (r: usize)
        ensures
            r == self.spec_live().len(),
    {
        self.live.len()
    }

    /// The retained candidates in presentation order.
    pub fn candidates(&self) -> (r: &Vec<ScratchCandidate>)
        ensures
            r@ == self.spec_live(),
    {
        &self.live
    }

    /// Presents `candidate`. Both work counters are checked before anything
    /// changes, work items first; the candidate then takes the number of
    /// candidates generated before it as its precedence. A redundant
    /// candidate is counted as pruned; otherwise the candidates it evicts
    /// are counted as pruned and it is retained last.
    pub fn present(&mut self, candidate: ScratchCandidate) -> (r: Result<(), RenderError>)
        ensures
            ({
                let s = old(self).spec_stats();
                let live = old(self).spec_live();
                let c = ScratchCandidate { precedence: s.candidates_generated, ..candidate };
                let s1 = counted(s);
                if s.work_items == u64::MAX {
                    r == Err::<(), RenderError>(counter_overflow(SolveCounter::WorkItems, s.work_items + 1, s))
                        && final(self).spec_stats() == s && final(self).spec_live() == live
                } else if s.candidates_generated == u64::MAX {
                    r == Err::<(), RenderError>(
                        counter_overflow(SolveCounter::CandidatesGenerated, s.candidates_generated + 1, s),
                    ) && final(self).spec_stats() == s && final(self).spec_live() == live
                } else if exists|j: int| 0 <= j < live.len() && scratch_redundant(#[trigger] live[j], c) {
                    if stats_add_fits(s1, 1) {
                        r is Ok && final(self).spec_stats() == pruned_more(s1, 1) && final(self).spec_live() == live
                    } else {
                        r == Err::<(), RenderError>(
                            counter_overflow(SolveCounter::CandidatesPruned, s1.candidates_pruned + 1, s1),
                        ) && final(self).spec_stats() == s1 && final(self).spec_live() == live
                    }
                } else {
                    if s1.candidates_pruned + evicted_count(live, c) <= u64::MAX {
                        r is Ok && final(self).spec_stats() == pruned_more(s1, evicted_count(live, c))
                            && final(self).spec_live() == survivors(live, c).push(c)
                    } else {
                        r == Err::<(), RenderError>(
                            counter_overflow(
                                SolveCounter::CandidatesPruned,
                                s1.candidates_pruned + evicted_count(live, c),
                                s1,
                            ),
                        ) && final(self).spec_stats() == s1 && final(self).spec_live() == live
                    }
                }
            }),
    {
        if self.stats.work_items == u64::MAX {
            return Err(
                RenderError::StatisticsOverflow {
                    counter: SolveCounter::WorkItems,
                    required: self.stats.work_items as u128 + 1,
                    maximum: u64::MAX,
                    stats: self.stats,
                },
            );
        }
        if self.stats.candidates_generated == u64::MAX {
            return Err(
                RenderError::StatisticsOverflow {
                    counter: SolveCounter::CandidatesGenerated,
                    required: self.stats.candidates_generated as u128 + 1,
                    maximum: u64::MAX,
                    stats: self.stats,
                },
            );
        }
        let c = ScratchCandidate { precedence: self.stats.candidates_generated, ..candidate };
        self.stats.work_items = self.stats.work_items + 1;
        self.stats.candidates_generated = self.stats.candidates_generated + 1;
        let ghost live = self.live@;
        let mut dominated = false;
        let mut i: usize = 0;
        while i < self.live.len()
            invariant
                live == self.live@,
                i <= live.len(),
                dominated == exists|j: int| 0 <= j < i && scratch_redundant(#[trigger] live[j], c),
            decreases live.len() - i,
        {
            let p = &self.live[i];
            if (p.last == c.last && p.cost.is_at_most(&c.cost)) || (p.last < c.last && p.cost.is_cheaper_than(
                &c.cost,
            )) {
                dominated = true;
            }
            i = i + 1;
        }
        if dominated {
            return add_pruned(&mut self.stats, 1);
        }
        let mut kept: Vec<ScratchCandidate> = Vec::new();
        let mut removed: usize = 0;
        let mut i: usize = 0;
        while i < self.live.len()
            invariant
                live == self.live@,
                i <= live.len(),
                kept@ == survivors(live.take(i as int), c),
                removed == evicted_count(live.take(i as int), c),
                removed <= i,
            decreases live.len() - i,
        {
            let p = self.live[i];
            assert(live.take(i as int + 1).drop_last() == live.take(i as int));
            if c.last <= p.last && c.cost.is_cheaper_than(&p.cost) {
                removed = removed + 1;
            } else {
                kept.push(p);
            }
            i = i + 1;
        }
        assert(live.take(live.len() as int) == live);
        add_pruned(&mut self.stats, removed)?;
        kept.push(c);
        self.live = kept;
        Ok(())
    }
}

} // verus!
