use laidout::cost::OverflowThenHeight;
use laidout::doc::{choice, concat2, text};
use laidout::frontier::{best, Cand, best_with_limits, prune, Engine, RenderError, SolveLimitKind, SolveLimits};
use laidout::research::{out_empty, to_string};
use laidout::table::{table, Column};
use laidout::cost::ConsumerCost;

#[test]
fn structurally_equal_rebuilt_subtrees_share_memo_entries() {
    let left = concat2(text("same"), laidout::doc::line());
    let rebuilt = concat2(text("same"), laidout::doc::line());
    assert!(!std::rc::Rc::ptr_eq(&left, &rebuilt));

    let cm = OverflowThenHeight { width: 20 };
    let mut engine = Engine::new(&cm);
    engine.solve(&left, 0, 0).unwrap();
    let after_first = engine.memo_len();
    let docs_after_first = engine.interned_len();
    engine.solve(&rebuilt, 0, 0).unwrap();

    assert_eq!(engine.memo_len(), after_first);
    assert_eq!(engine.interned_len(), docs_after_first);
}

#[test]
fn rebuilt_equal_tables_share_interned_documents_and_memo_entries() {
    let build = || {
        table(vec![Column::new(), Column::new()])
            .row(vec![text("left"), text("right")])
            .row(vec![text("up"), text("down")])
            .build()
            .unwrap()
    };
    let left = build();
    let rebuilt = build();
    assert!(!std::rc::Rc::ptr_eq(&left, &rebuilt));
    assert_eq!(left, rebuilt);

    let cm = OverflowThenHeight { width: 20 };
    let mut engine = Engine::new(&cm);
    engine.solve(&left, 0, 0).unwrap();
    let after_first = engine.memo_len();
    let docs_after_first = engine.interned_len();
    engine.solve(&rebuilt, 0, 0).unwrap();

    assert_eq!(engine.memo_len(), after_first);
    assert_eq!(engine.interned_len(), docs_after_first);
}

#[test]
fn limit_abort_never_caches_the_incomplete_root() {
    let doc = concat2(text("left"), text("right"));
    let cm = OverflowThenHeight { width: 20 };
    let mut engine = Engine::with_limits(
        &cm,
        SolveLimits {
            max_candidates: Some(1),
            ..SolveLimits::default()
        },
    );

    let error = engine.solve(&doc, 0, 0).unwrap_err();
    assert!(matches!(
        error,
        RenderError::LimitExceeded {
            kind: SolveLimitKind::Candidates,
            configured: 1,
            ..
        }
    ));
    assert!(!engine.is_memoized(&doc, 0, 0));
    assert_eq!(engine.stats().memo_entries, 1);
}

#[test]
fn column_overflow_is_typed_instead_of_clamped() {
    let doc = text("xx");
    let cm = OverflowThenHeight { width: u32::MAX };
    let mut engine = Engine::new(&cm);

    assert!(matches!(
        engine.solve(&doc, u32::MAX - 1, 0),
        Err(RenderError::ColumnOverflow {
            column,
            width: 2,
            ..
        }) if column == u32::MAX - 1
    ));
}

#[test]
fn equal_cost_ties_keep_the_preferred_branch() {
    let doc = choice(text("ab"), text("cd"));
    let cm = OverflowThenHeight { width: 80 };
    let found = best(&cm, &doc).unwrap();
    assert_eq!(to_string(&found.out), "ab");
    assert_eq!(found.cost, ConsumerCost::zero());
}

#[test]
fn the_cheapest_branch_wins_over_the_preferred_one() {
    let doc = choice(text("abcdef"), laidout::doc::concat(vec![text("abc"), laidout::doc::line(), text("def")]));
    let cm = OverflowThenHeight { width: 4 };
    let found = best(&cm, &doc).unwrap();
    assert_eq!(to_string(&found.out), "abc\ndef");
    assert_eq!(found.cost, ConsumerCost { overflow: 0, burden: 1 });
    let unlimited = best_with_limits(&cm, &doc, SolveLimits::default()).unwrap();
    assert_eq!(unlimited.candidate.cost, found.cost);
}

#[test]
fn memo_entries_are_reused_on_a_second_solve() {
    let doc = laidout::doc::concat(vec![text("a"), laidout::doc::line(), text("b")]);
    let cm = OverflowThenHeight { width: 20 };
    let mut engine = Engine::new(&cm);
    engine.solve(&doc, 0, 0).unwrap();
    assert!(engine.is_memoized(&doc, 0, 0));
    let misses = engine.stats().memo_misses;
    engine.solve(&doc, 0, 0).unwrap();
    assert_eq!(engine.stats().memo_misses, misses);
    assert!(engine.stats().memo_hits >= 1);
}

#[test]
fn pruning_drops_dominated_candidates_and_counts_them() {
    let c = |overflow: u128, burden: u64, last: u32| Cand {
        cost: ConsumerCost { overflow, burden },
        last,
        out: out_empty(),
    };
    let (kept, pruned) = prune(vec![c(0, 1, 5), c(0, 2, 5), c(0, 0, 7), c(1, 0, 3)]);
    assert_eq!(pruned, 1);
    let shape: Vec<(u128, u64, u32)> = kept.iter().map(|k| (k.cost.overflow, k.cost.burden, k.last)).collect();
    assert_eq!(shape, vec![(0, 1, 5), (0, 0, 7), (1, 0, 3)]);
}

#[test]
fn the_exact_layout_is_never_costlier_than_the_greedy_one_and_its_cost_is_its_output_cost() {
    let cm = laidout::cost::OverflowThenHeight { width: 6 };
    let doc = laidout::doc::choice(
        laidout::doc::concat(vec![
            laidout::doc::text("ab"),
            laidout::doc::text(" "),
            laidout::doc::text("cdefgh"),
        ]),
        laidout::doc::concat(vec![
            laidout::doc::text("ab"),
            laidout::doc::hardline(),
            laidout::doc::text("cdefgh"),
        ]),
    );
    let exact = laidout::frontier::best(&cm, &doc).unwrap();
    let greedy = laidout::greedy::layout(&cm, &doc, 6).unwrap();
    assert_eq!(exact.cost, laidout::ConsumerCost { overflow: 0, burden: 1 });
    assert!(exact.cost <= greedy.cost);
    assert_eq!(laidout::research::cost_of_out(&cm, &exact.out), Some(exact.cost));
}

#[test]
fn a_limited_solve_that_succeeds_stays_within_every_limit() {
    let cm = laidout::cost::OverflowThenHeight { width: 20 };
    let limits = laidout::frontier::SolveLimits {
        max_solve_calls: Some(50),
        max_candidates: Some(50),
        max_memo_entries: Some(50),
    };
    let mut engine = laidout::frontier::Engine::with_limits(&cm, limits);
    let doc = laidout::doc::group(laidout::doc::concat(vec![
        laidout::doc::text("left"),
        laidout::doc::line(),
        laidout::doc::text("right"),
    ]));
    assert!(engine.solve(&doc, 0, 0).is_ok());
    let stats = engine.stats();
    assert!(stats.solve_calls <= 50);
    assert!(stats.candidates_generated <= 50);
    assert!(stats.memo_entries <= 50);
    assert_eq!(stats.memo_entries, engine.memo_len());

    let tight = laidout::frontier::SolveLimits { max_solve_calls: Some(1), ..laidout::frontier::SolveLimits::default() };
    let mut engine = laidout::frontier::Engine::with_limits(&cm, tight);
    match engine.solve(&doc, 0, 0) {
        Err(laidout::frontier::RenderError::LimitExceeded { kind, configured, stats }) => {
            assert_eq!(kind, laidout::frontier::SolveLimitKind::SolveCalls);
            assert_eq!(configured, 1);
            assert!(stats.solve_calls > 1);
            assert_eq!(stats, engine.stats());
        }
        other => panic!("unexpected {:?}", other.is_ok()),
    }
}
