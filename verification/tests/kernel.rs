use laidout::cost::ConsumerCost;
use laidout::kernel::{FrontierBuilder, ScratchCandidate};
use laidout::render::{add_pruned, increment, RenderError, SolveCounter, SolveStats};

fn scratch_candidate(overflow: u128, burden: u64, last: u32) -> ScratchCandidate {
    ScratchCandidate {
        cost: ConsumerCost { overflow, burden },
        last,
        precedence: 0,
    }
}

#[test]
fn every_semantic_counter_fails_before_the_first_invalid_increment() {
    for counter in [
        SolveCounter::WorkItems,
        SolveCounter::FitChecks,
        SolveCounter::MemoHits,
        SolveCounter::MemoMisses,
        SolveCounter::CandidatesGenerated,
        SolveCounter::CandidatesPruned,
    ] {
        let mut stats = SolveStats::default();
        match counter {
            SolveCounter::WorkItems => stats.work_items = u64::MAX,
            SolveCounter::FitChecks => stats.fit_checks = u64::MAX,
            SolveCounter::MemoHits => stats.memo_hits = u64::MAX,
            SolveCounter::MemoMisses => stats.memo_misses = u64::MAX,
            SolveCounter::CandidatesGenerated => stats.candidates_generated = u64::MAX,
            SolveCounter::CandidatesPruned => stats.candidates_pruned = u64::MAX,
        }
        let before = stats;
        let error = increment(&mut stats, counter).unwrap_err();
        assert!(matches!(
            error,
            RenderError::StatisticsOverflow {
                counter: actual,
                required,
                maximum: u64::MAX,
                stats: snapshot,
            } if actual == counter
                && required == u128::from(u64::MAX) + 1
                && snapshot == before
        ));
        assert_eq!(stats, before);
    }

    let mut stats = SolveStats {
        candidates_pruned: u64::MAX,
        ..SolveStats::default()
    };
    let before = stats;
    assert!(matches!(
        add_pruned(&mut stats, 1),
        Err(RenderError::StatisticsOverflow {
            counter: SolveCounter::CandidatesPruned,
            required,
            stats: snapshot,
            ..
        }) if required == u128::from(u64::MAX) + 1 && snapshot == before
    ));
    assert_eq!(stats, before);
}

#[test]
fn exact_candidate_preflight_is_atomic_and_work_items_win_the_tie() {
    let mut solver = FrontierBuilder::new();
    solver.stats.work_items = u64::MAX;
    solver.stats.candidates_generated = u64::MAX;
    let before = solver.stats;
    assert!(matches!(
        solver.present(scratch_candidate(0, 0, 0)),
        Err(RenderError::StatisticsOverflow {
            counter: SolveCounter::WorkItems,
            stats: snapshot,
            ..
        }) if snapshot == before
    ));
    assert_eq!(solver.stats, before);
    assert_eq!(solver.live_count(), 0);

    solver.stats.work_items = 0;
    let before = solver.stats;
    assert!(matches!(
        solver.present(scratch_candidate(0, 0, 0)),
        Err(RenderError::StatisticsOverflow {
            counter: SolveCounter::CandidatesGenerated,
            stats: snapshot,
            ..
        }) if snapshot == before
    ));
    assert_eq!(solver.stats, before);
    assert_eq!(solver.live_count(), 0);
}

#[test]
fn increments_count_one_step_at_a_time() {
    let mut stats = SolveStats::default();
    assert_eq!(increment(&mut stats, SolveCounter::MemoHits), Ok(1));
    assert_eq!(increment(&mut stats, SolveCounter::MemoHits), Ok(2));
    assert_eq!(stats.memo_hits, 2);
    assert_eq!(stats.work_items, 0);
    assert_eq!(add_pruned(&mut stats, 5), Ok(()));
    assert_eq!(stats.candidates_pruned, 5);
}

#[test]
fn builder_keeps_the_frontier_and_counts_pruned_candidates() {
    let mut builder = FrontierBuilder::new();
    builder.present(scratch_candidate(0, 1, 5)).unwrap();
    builder.present(scratch_candidate(0, 2, 5)).unwrap();
    assert_eq!(builder.live_count(), 1);
    assert_eq!(builder.stats.candidates_pruned, 1);
    builder.present(scratch_candidate(0, 0, 4)).unwrap();
    assert_eq!(builder.live_count(), 1);
    assert_eq!(builder.stats.candidates_pruned, 2);
    let live = builder.candidates();
    assert_eq!(live[0].last, 4);
    assert_eq!(live[0].precedence, 2);
    assert_eq!(builder.stats.work_items, 3);
    assert_eq!(builder.stats.candidates_generated, 3);
    builder.clear();
    assert_eq!(builder.live_count(), 0);
    assert_eq!(builder.stats.work_items, 3);
}
