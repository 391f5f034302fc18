//! Owned rendering: options, the choice of layout engine, checked solve
//! statistics, and the materialized result with its annotation spans.
use crate::brute::{all_layouts_defined, is_first_minimum, layout_cost, spec_expansions, spec_resolve};
use crate::domains::{
    ev_newlines, lemma_clean_layout_newlines, lemma_layout_span_tags, lemma_out_spans_count, newline_count, texts_clean, lemma_out_text_bytes, lemma_prepared_layouts_within, layout_within, utf8_total,
};
use crate::cost::{cost_le, cost_lt, lemma_cost_order, ConsumerCost, PreparedConsumerCostModel};
use crate::doc::{Doc, DocModel, TagId};
use crate::frontier::{
    all_defined, best_with_limits, first_cheapest_at, is_cheapest_layout, lemma_cheapest_matches_oracle, lemma_layouts_defined_iff, lemma_run_is_layout_cost, run, Cand,
    RenderError as ExactError, SolveLimits,
};
use crate::greedy::{greedy_checks, greedy_picks, greedy_renders, layout_summarized, FrameModel};
use crate::summary::sat64;
use crate::prepare::{
    add_new, bound_calc, lemma_add_new_covers, production_limits, spec_finish, tags_of, BoundsModel, PrepareError,
    PreparedDoc,
};
use crate::research::{events, materialize, out_bytes, out_size, out_spans, out_text_of, span_matches, spans_match, AnnotationSpan, Out, OutModel};
use crate::workspace::{
    allocation_refused, buffers_hold, capacity_error, empty_capacity, render_prepared_into_owned, seed, RenderWorkspace,
    ReserveError, WorkspaceMode, WorkspaceResource,
};
use std::rc::Rc;
use vstd::prelude::*;

verus! {

/// Which layout engine renders a document.
#[derive(Clone, Copy, Debug, PartialEq, Eq, Structural, Hash)]
pub enum LayoutStrategy {
    /// Greedy first-fit: each choice takes its preferred branch when the
    /// stream up to the next break fits.
    Fast,
    /// The minimum-cost layout over every resolution.
    Exact,
}

/// How indentation after a break relates to the page width.
#[derive(Clone, Copy, Debug, PartialEq, Eq, Structural, Hash)]
pub enum IndentPolicy {
    /// Indentation is emitted as requested.
    Preserve,
    /// Indentation is clamped to one less than the page width.
    ClampToWidthMinusOne,
}

/// Rendering options: page width, newline cost, engine and indentation
/// policy.
#[derive(Clone, Copy, Debug, PartialEq, Eq, Structural)]
pub struct RenderOptions {
    width: u32,
    newline_cost: u32,
    strategy: LayoutStrategy,
    indent_policy: IndentPolicy,
}

impl RenderOptions {
    /// The page width.
    pub closed spec fn spec_width(self) -> u32 {
        self.width
    }

    /// The burden charged per newline.
    pub closed spec fn spec_newline_cost(self) -> u32 {
        self.newline_cost
    }

    /// The layout engine.
    pub closed spec fn spec_strategy(self) -> LayoutStrategy {
        self.strategy
    }

    /// The indentation policy.
    pub closed spec fn spec_indent_policy(self) -> IndentPolicy {
        self.indent_policy
    }

    /// Options for a positive page `width`: newline cost one, the exact
    /// engine, indentation preserved.
    pub fn new(width: u32) -> (r: Self)
        requires
            width > 0,
        ensures
            r.spec_width() == width,
            r.spec_newline_cost() == 1,
            r.spec_strategy() == LayoutStrategy::Exact,
            r.spec_indent_policy() == IndentPolicy::Preserve,
    {
        RenderOptions {
            width,
            newline_cost: 1,
            strategy: LayoutStrategy::Exact,
            indent_policy: IndentPolicy::Preserve,
        }
    }

    /// The same options with another newline cost.
    pub fn with_newline_cost(self, newline_cost: u32) -> (r: Self)
        ensures
            r.spec_width() == self.spec_width(),
            r.spec_newline_cost() == newline_cost,
            r.spec_strategy() == self.spec_strategy(),
            r.spec_indent_policy() == self.spec_indent_policy(),
    {
        RenderOptions { newline_cost, ..self }
    }

    /// The same options with another engine.
    pub fn with_strategy(self, strategy: LayoutStrategy) -> (r: Self)
        ensures
            r.spec_width() == self.spec_width(),
            r.spec_newline_cost() == self.spec_newline_cost(),
            r.spec_strategy() == strategy,
            r.spec_indent_policy() == self.spec_indent_policy(),
    {
        RenderOptions { strategy, ..self }
    }

    /// The same options with another indentation policy.
    pub fn with_indent_policy(self, policy: IndentPolicy) -> (r: Self)
        ensures
            r.spec_width() == self.spec_width(),
            r.spec_newline_cost() == self.spec_newline_cost(),
            r.spec_strategy() == self.spec_strategy(),
            r.spec_indent_policy() == policy,
    {
        RenderOptions { indent_policy: policy, ..self }
    }

    /// The page width.
    pub fn width(&self) -> (r: u32)
        ensures
            r == self.spec_width(),
    {
        self.width
    }

    /// The burden charged per newline.
    pub fn newline_cost(&self) -> (r: u32)
        ensures
            r == self.spec_newline_cost(),
    {
        self.newline_cost
    }

    /// The layout engine.
    pub fn strategy(&self) -> (r: LayoutStrategy)
        ensures
            r == self.spec_strategy(),
    {
        self.strategy
    }

    /// The indentation policy.
    pub fn indent_policy(&self) -> (r: IndentPolicy)
        ensures
            r == self.spec_indent_policy(),
    {
        self.indent_policy
    }
}

/// The deepest indentation that options let nesting or alignment enter:
/// unbounded when indentation is preserved, one less than the width when it
/// is clamped.
pub open spec fn options_indent_cap(options: RenderOptions) -> u32 {
    match options.spec_indent_policy() {
        IndentPolicy::Preserve => u32::MAX,
        IndentPolicy::ClampToWidthMinusOne => if options.spec_width() == 0 {
            0
        } else {
            (options.spec_width() - 1) as u32
        },
    }
}

/// The cost model that options describe.
pub open spec fn options_model(options: RenderOptions) -> PreparedConsumerCostModel {
    PreparedConsumerCostModel {
        width: options.spec_width(),
        newline_cost: options.spec_newline_cost(),
        indent_cap: options_indent_cap(options),
    }
}

/// The cost model that `options` describe.
fn model_of(options: RenderOptions) -> (r: PreparedConsumerCostModel)
    ensures
        r == options_model(options),
{
    let cap = match options.indent_policy {
        IndentPolicy::Preserve => u32::MAX,
        IndentPolicy::ClampToWidthMinusOne => options.width.saturating_sub(1),
    };
    PreparedConsumerCostModel::new(options.width, options.newline_cost).with_indent_cap(cap)
}

/// A solve statistic.
#[derive(Clone, Copy, Debug, PartialEq, Eq, Structural, Hash)]
pub enum SolveCounter {
    /// Units of engine work.
    WorkItems,
    /// Fit decisions.
    FitChecks,
    /// Subproblems answered from the memo.
    MemoHits,
    /// Subproblems evaluated.
    MemoMisses,
    /// Candidates emitted before pruning.
    CandidatesGenerated,
    /// Candidates pruned.
    CandidatesPruned,
}

/// Counters collected while rendering.
#[derive(Clone, Copy, Debug, PartialEq, Eq, Structural)]
pub struct SolveStats {
    /// Units of engine work.
    pub work_items: u64,
    /// Fit decisions.
    pub fit_checks: u64,
    /// Subproblems answered from the memo.
    pub memo_hits: u64,
    /// Subproblems evaluated.
    pub memo_misses: u64,
    /// Candidates emitted before pruning.
    pub candidates_generated: u64,
    /// Candidates pruned.
    pub candidates_pruned: u64,
    /// Largest retained frontier.
    pub peak_frontier: usize,
    /// Completed memo entries.
    pub memo_entries: usize,
    /// Nodes of the selected layout.
    pub plan_nodes: usize,
}

/// Every counter at zero.
pub open spec fn zero_stats() -> SolveStats {
    SolveStats {
        work_items: 0,
        fit_checks: 0,
        memo_hits: 0,
        memo_misses: 0,
        candidates_generated: 0,
        candidates_pruned: 0,
        peak_frontier: 0,
        memo_entries: 0,
        plan_nodes: 0,
    }
}

impl Default for SolveStats {
    fn default() -> (r: Self)
        ensures
            r == zero_stats(),
    {
        SolveStats {
            work_items: 0,
            fit_checks: 0,
            memo_hits: 0,
            memo_misses: 0,
            candidates_generated: 0,
            candidates_pruned: 0,
            peak_frontier: 0,
            memo_entries: 0,
            plan_nodes: 0,
        }
    }
}

/// The value of a counter.
pub open spec fn counter_value(stats: SolveStats, counter: SolveCounter) -> u64 {
    match counter {
        SolveCounter::WorkItems => stats.work_items,
        SolveCounter::FitChecks => stats.fit_checks,
        SolveCounter::MemoHits => stats.memo_hits,
        SolveCounter::MemoMisses => stats.memo_misses,
        SolveCounter::CandidatesGenerated => stats.candidates_generated,
        SolveCounter::CandidatesPruned => stats.candidates_pruned,
    }
}

/// `stats` with one counter replaced.
pub open spec fn with_counter(stats: SolveStats, counter: SolveCounter, value: u64) -> SolveStats {
    match counter {
        SolveCounter::WorkItems => SolveStats { work_items: value, ..stats },
        SolveCounter::FitChecks => SolveStats { fit_checks: value, ..stats },
        SolveCounter::MemoHits => SolveStats { memo_hits: value, ..stats },
        SolveCounter::MemoMisses => SolveStats { memo_misses: value, ..stats },
        SolveCounter::CandidatesGenerated => SolveStats { candidates_generated: value, ..stats },
        SolveCounter::CandidatesPruned => SolveStats { candidates_pruned: value, ..stats },
    }
}

/// Failure of rendering.
#[derive(Clone, Copy, Debug, PartialEq, Eq, Structural)]
pub enum RenderError {
    /// A statistic would leave `u64`; `stats` are those before the step.
    StatisticsOverflow { counter: SolveCounter, required: u128, maximum: u64, stats: SolveStats },
    /// A column or indentation of the explored layouts left `u32`.
    ColumnOverflow { column: u32, width: u32 },
    /// A layout cost left its checked domain.
    CostDomainViolation,
    /// The chosen layout's columns, cost or bytes left their domains.
    LayoutDomainExceeded,
    /// The rendered text has more bytes than `usize` counts.
    OutputOverflow,
    /// A fixed workspace holds less of `resource` than the rendering needs.
    WorkspaceExhausted { resource: WorkspaceResource, capacity: usize, required: usize, stats: SolveStats },
    /// The allocator refused to grow a workspace's `resource`.
    WorkspaceGrowthFailed { resource: WorkspaceResource, capacity: usize, required: usize, stats: SolveStats },
}

/// Counts one more step of `counter`; on overflow `stats` stay as they
/// were and the error reports them.
pub fn increment(stats: &mut SolveStats, counter: SolveCounter) -> (r: Result<u64, RenderError>)
    ensures
        counter_value(*old(stats), counter) < u64::MAX ==> r == Ok::<u64, RenderError>(
            (counter_value(*old(stats), counter) + 1) as u64,
        ) && *final(stats) == with_counter(*old(stats), counter, (counter_value(*old(stats), counter) + 1) as u64),
        counter_value(*old(stats), counter) == u64::MAX ==> r == Err::<u64, RenderError>(
            RenderError::StatisticsOverflow {
                counter,
                required: 0x1_0000_0000_0000_0000u128,
                maximum: u64::MAX,
                stats: *old(stats),
            },
        ) && *final(stats) == *old(stats),
{
    let current = match counter {
        SolveCounter::WorkItems => stats.work_items,
        SolveCounter::FitChecks => stats.fit_checks,
        SolveCounter::MemoHits => stats.memo_hits,
        SolveCounter::MemoMisses => stats.memo_misses,
        SolveCounter::CandidatesGenerated => stats.candidates_generated,
        SolveCounter::CandidatesPruned => stats.candidates_pruned,
    };
    if current == u64::MAX {
        return Err(
            RenderError::StatisticsOverflow {
                counter,
                required: u64::MAX as u128 + 1,
                maximum: u64::MAX,
                stats: *stats,
            },
        );
    }
    let next = current + 1;
    match counter {
        SolveCounter::WorkItems => stats.work_items = next,
        SolveCounter::FitChecks => stats.fit_checks = next,
        SolveCounter::MemoHits => stats.memo_hits = next,
        SolveCounter::MemoMisses => stats.memo_misses = next,
        SolveCounter::CandidatesGenerated => stats.candidates_generated = next,
        SolveCounter::CandidatesPruned => stats.candidates_pruned = next,
    }
    Ok(next)
}

/// Counts `amount` more pruned candidates; on overflow `stats` stay as
/// they were and the error reports them.
pub fn add_pruned(stats: &mut SolveStats, amount: usize) -> (r: Result<(), RenderError>)
    ensures
        stats_add_fits(*old(stats), amount) ==> r is Ok && *final(stats) == with_counter(
            *old(stats),
            SolveCounter::CandidatesPruned,
            (old(stats).candidates_pruned + amount) as u64,
        ),
        !stats_add_fits(*old(stats), amount) ==> r == Err::<(), RenderError>(
            pruned_overflow(*old(stats), amount),
        ) && *final(stats) == *old(stats),
{
    let required = stats.candidates_pruned as u128 + amount as u128;
    if required > u64::MAX as u128 {
        return Err(
            RenderError::StatisticsOverflow {
                counter: SolveCounter::CandidatesPruned,
                required,
                maximum: u64::MAX,
                stats: *stats,
            },
        );
    }
    stats.candidates_pruned = required as u64;
    Ok(())
}

/// The error for `amount` more pruned candidates than the counter holds.
pub open spec fn pruned_overflow(stats: SolveStats, amount: usize) -> RenderError {
    RenderError::StatisticsOverflow {
        counter: SolveCounter::CandidatesPruned,
        required: (stats.candidates_pruned + amount) as u128,
        maximum: u64::MAX,
        stats,
    }
}

/// `amount` more pruned candidates still fit the counter.
pub open spec fn stats_add_fits(stats: SolveStats, amount: usize) -> bool {
    stats.candidates_pruned + amount <= u64::MAX
}

/// Position of a span in a rendering's span table.
#[derive(Clone, Copy, Debug, PartialEq, Eq, Structural, Hash)]
pub struct SpanId(pub u32);

impl SpanId {
    /// The position as an index.
    pub fn index(self) -> (r: usize)
        ensures
            r == self.0,
    {
        self.0 as usize
    }
}

/// An owned rendering: text, tag spans, cost and telemetry.
#[derive(Clone, Debug)]
pub struct Rendered {
    text: String,
    spans: Vec<AnnotationSpan>,
    cost: ConsumerCost,
    stats: SolveStats,
}

/// Independently owned fields extracted from a [`Rendered`] value.
pub struct RenderedParts {
    /// Rendered UTF-8 text.
    pub text: String,
    /// Tag spans into `text`.
    pub spans: Vec<AnnotationSpan>,
    /// Cost of the selected layout.
    pub cost: ConsumerCost,
    /// Solver counters.
    pub stats: SolveStats,
}

impl Rendered {
    /// The rendered text.
    pub closed spec fn spec_text(&self) -> Seq<char> {
        self.text@
    }

    /// The tag spans.
    pub closed spec fn spec_spans(&self) -> Seq<AnnotationSpan> {
        self.spans@
    }

    /// The cost of the selected layout.
    pub closed spec fn spec_cost(&self) -> ConsumerCost {
        self.cost
    }

    /// The counters.
    pub closed spec fn spec_stats(&self) -> SolveStats {
        self.stats
    }

    /// The rendered text.
    pub fn text(&self) -> (r: &str)
        ensures
            r@ == self.spec_text(),
    {
        self.text.as_str()
    }

    /// Tag spans into the text.
    pub fn spans(&self) -> (r: &Vec<AnnotationSpan>)
        ensures
            r@ == self.spec_spans(),
    {
        &self.spans
    }

    /// The cost of the selected layout.
    pub fn cost(&self) -> (r: ConsumerCost)
        ensures
            r == self.spec_cost(),
    {
        self.cost
    }

    /// Counters collected while solving.
    pub fn stats(&self) -> (r: SolveStats)
        ensures
            r == self.spec_stats(),
    {
        self.stats
    }

    /// Every span paired with its tag.
    pub fn resolved_spans(&self) -> (r: Vec<(AnnotationSpan, TagId)>)
        ensures
            r@.len() == self.spec_spans().len(),
            forall|i: int|
                0 <= i < r@.len() ==> (#[trigger] r@[i]).0 == self.spec_spans()[i] && r@[i].1
                    == self.spec_spans()[i].tag,
    {
        let mut out: Vec<(AnnotationSpan, TagId)> = Vec::new();
        let mut i: usize = 0;
        while i < self.spans.len()
            invariant
                i <= self.spans@.len(),
                out@.len() == i,
                forall|j: int|
                    0 <= j < i ==> (#[trigger] out@[j]).0 == self.spans@[j] && out@[j].1
                        == self.spans@[j].tag,
            decreases self.spans@.len() - i,
        {
            let span = &self.spans[i];
            out.push((AnnotationSpan { tag: span.tag, start: span.start, end: span.end, parent: span.parent }, span.tag));
            i = i + 1;
        }
        out
    }

    /// Consume the rendering and return only its text.
    pub fn into_text(self) -> (r: String)
        ensures
            r@ == self.spec_text(),
    {
        self.text
    }

    /// Consume the rendering and expose all owned fields.
    pub fn into_parts(self) -> (r: RenderedParts)
        ensures
            r.text@ == self.spec_text(),
            r.spans@ == self.spec_spans(),
            r.cost == self.spec_cost(),
            r.stats == self.spec_stats(),
    {
        RenderedParts { text: self.text, spans: self.spans, cost: self.cost, stats: self.stats }
    }
}

/// `r` renders output `o` at `cost`.
pub open spec fn renders_out(r: Rendered, o: OutModel, cost: ConsumerCost) -> bool {
    &&& r.spec_text() == out_text_of(o)
    &&& spans_match(r.spec_spans(), out_spans(o))
    &&& r.spec_cost() == cost
}

/// `r` renders the `k`-th resolution of `doc` at that resolution's cost.
pub open spec fn renders_expansion(m: PreparedConsumerCostModel, doc: DocModel, k: int, r: Rendered) -> bool {
    let d = spec_expansions(doc)[k];
    &&& spec_resolve(d, 0, 0, m.indent_cap) matches Some((o, _))
    &&& layout_cost(m, d) == Some(r.spec_cost())
    &&& renders_out(r, o, r.spec_cost())
}

/// What a successful rendering of `doc` under `options` is.
pub open spec fn is_rendering(doc: DocModel, options: RenderOptions, r: Rendered) -> bool {
    let m = options_model(options);
    match options.spec_strategy() {
        LayoutStrategy::Exact => exists|c: Cand|
            is_cheapest_layout(m, doc, c) && #[trigger] renders_out(r, c.out@, c.cost),
        LayoutStrategy::Fast => exists|k: int|
            0 <= k < spec_expansions(doc).len() && greedy_picks(doc, options.spec_width(), m.indent_cap, k)
                && #[trigger] renders_expansion(m, doc, k, r),
    }
}

/// Every rendering of a document that passes the production limits, by
/// either engine and under any options, takes at most the prepared bound
/// on output bytes.
pub proof fn lemma_rendering_within_output_bound(doc: DocModel, options: RenderOptions, r: Rendered)
    requires
        spec_finish(bound_calc(doc), production_limits()) is Ok,
        is_rendering(doc, options, r),
    ensures
        utf8_total(r.spec_text()) <= spec_finish(bound_calc(doc), production_limits())->Ok_0.output_bytes_upper,
{
    let m = options_model(options);
    let b = spec_finish(bound_calc(doc), production_limits())->Ok_0;
    let e = spec_expansions(doc);
    lemma_prepared_layouts_within(doc, m);
    match options.spec_strategy() {
        LayoutStrategy::Exact => {
            let c = choose|c: Cand| is_cheapest_layout(m, doc, c) && #[trigger] renders_out(r, c.out@, c.cost);
            let k = choose|k: int| first_cheapest_at(m, doc, c, k);
            lemma_run_is_layout_cost(m, e[k]);
            assert(layout_within(m, b, e[k]));
            lemma_out_text_bytes(c.out@);
        },
        LayoutStrategy::Fast => {
            let k = choose|k: int|
                0 <= k < e.len() && greedy_picks(doc, options.spec_width(), m.indent_cap, k)
                    && #[trigger] renders_expansion(m, doc, k, r);
            assert(layout_within(m, b, e[k]));
            lemma_out_text_bytes(spec_resolve(e[k], 0, 0, m.indent_cap).unwrap().0);
        },
    }
}

/// Every span of a rendering is tagged with one of the document's distinct
/// tags: the tags a prepared document keeps, so each span resolves to one
/// of its annotations.
pub proof fn lemma_rendering_spans_tagged(doc: DocModel, options: RenderOptions, r: Rendered)
    requires
        is_rendering(doc, options, r),
    ensures
        forall|i: int|
            0 <= i < r.spec_spans().len() ==> add_new(seq![], tags_of(doc)).contains(#[trigger] r.spec_spans()[i].tag),
{
    let m = options_model(options);
    let e = spec_expansions(doc);
    let (k, o) = match options.spec_strategy() {
        LayoutStrategy::Exact => {
            let c = choose|c: Cand| is_cheapest_layout(m, doc, c) && #[trigger] renders_out(r, c.out@, c.cost);
            let k = choose|k: int| first_cheapest_at(m, doc, c, k);
            lemma_run_is_layout_cost(m, e[k]);
            (k, c.out@)
        },
        LayoutStrategy::Fast => {
            let k = choose|k: int|
                0 <= k < e.len() && greedy_picks(doc, options.spec_width(), m.indent_cap, k)
                    && #[trigger] renders_expansion(m, doc, k, r);
            (k, spec_resolve(e[k], 0, 0, m.indent_cap).unwrap().0)
        },
    };
    assert(spec_resolve(e[k], 0, 0, m.indent_cap) matches Some((o2, _)) && o2 == o);
    lemma_layout_span_tags(doc, k, m.indent_cap);
    lemma_add_new_covers(seq![], tags_of(doc));
    assert forall|i: int| 0 <= i < r.spec_spans().len() implies add_new(seq![], tags_of(doc)).contains(
        #[trigger] r.spec_spans()[i].tag,
    ) by {
        assert(span_matches(r.spec_spans()[i], out_spans(o)[i]));
        let t = r.spec_spans()[i].tag;
        assert(tags_of(doc).contains(t));
        let j = choose|j: int| 0 <= j < tags_of(doc).len() && tags_of(doc)[j] == t;
        assert(add_new(seq![], tags_of(doc)).contains(tags_of(doc)[j]));
    }
}

/// A document has one rendering under given options: any two agree on
/// text, spans and cost.
pub proof fn lemma_rendering_unique(doc: DocModel, options: RenderOptions, r1: Rendered, r2: Rendered)
    requires
        is_rendering(doc, options, r1),
        is_rendering(doc, options, r2),
    ensures
        r1.spec_text() == r2.spec_text(),
        r1.spec_spans() == r2.spec_spans(),
        r1.spec_cost() == r2.spec_cost(),
{
    let m = options_model(options);
    let e = spec_expansions(doc);
    let (o, cost) = match options.spec_strategy() {
        LayoutStrategy::Exact => {
            let c1 = choose|c: Cand| is_cheapest_layout(m, doc, c) && #[trigger] renders_out(r1, c.out@, c.cost);
            let c2 = choose|c: Cand| is_cheapest_layout(m, doc, c) && #[trigger] renders_out(r2, c.out@, c.cost);
            let k1 = choose|k: int| first_cheapest_at(m, doc, c1, k);
            let k2 = choose|k: int| first_cheapest_at(m, doc, c2, k);
            assert(run(m, e[k1], 0, 0) is Some);
            assert(run(m, e[k2], 0, 0) is Some);
            lemma_cost_order(c1.cost, c2.cost, c1.cost);
            if k1 < k2 {
                assert(cost_lt(c2.cost, c1.cost));
                assert(cost_le(c1.cost, c2.cost));
                assert(false);
            } else if k2 < k1 {
                assert(cost_lt(c1.cost, c2.cost));
                assert(cost_le(c2.cost, c1.cost));
                assert(false);
            }
            (c1.out@, c1.cost)
        },
        LayoutStrategy::Fast => {
            let k1 = choose|k: int|
                0 <= k < e.len() && greedy_picks(doc, options.spec_width(), m.indent_cap, k)
                    && #[trigger] renders_expansion(m, doc, k, r1);
            let k2 = choose|k: int|
                0 <= k < e.len() && greedy_picks(doc, options.spec_width(), m.indent_cap, k)
                    && #[trigger] renders_expansion(m, doc, k, r2);
            assert(e[k1] == e[k2]);
            (spec_resolve(e[k1], 0, 0, m.indent_cap).unwrap().0, r1.spec_cost())
        },
    };
    assert(r1.spec_text() == out_text_of(o) && r2.spec_text() == out_text_of(o));
    assert forall|i: int| 0 <= i < r1.spec_spans().len() implies r1.spec_spans()[i] == r2.spec_spans()[i] by {
        assert(span_matches(r1.spec_spans()[i], out_spans(o)[i]));
        assert(span_matches(r2.spec_spans()[i], out_spans(o)[i]));
    }
    assert(r1.spec_spans() =~= r2.spec_spans());
}

/// Every rendering of a document that passes the production limits and
/// whose texts hold no newline character, by either engine and under any
/// options, has at most the prepared bound on lines: its text holds fewer
/// newline characters than that bound.
pub proof fn lemma_rendering_within_line_bound(doc: DocModel, options: RenderOptions, r: Rendered)
    requires
        spec_finish(bound_calc(doc), production_limits()) is Ok,
        texts_clean(doc),
        is_rendering(doc, options, r),
    ensures
        newline_count(r.spec_text()) + 1 <= spec_finish(bound_calc(doc), production_limits())->Ok_0.line_count_upper,
{
    let m = options_model(options);
    let b = spec_finish(bound_calc(doc), production_limits())->Ok_0;
    let e = spec_expansions(doc);
    lemma_prepared_layouts_within(doc, m);
    match options.spec_strategy() {
        LayoutStrategy::Exact => {
            let c = choose|c: Cand| is_cheapest_layout(m, doc, c) && #[trigger] renders_out(r, c.out@, c.cost);
            let k = choose|k: int| first_cheapest_at(m, doc, c, k);
            lemma_run_is_layout_cost(m, e[k]);
            assert(layout_within(m, b, e[k]));
            lemma_clean_layout_newlines(doc, k, m.indent_cap);
        },
        LayoutStrategy::Fast => {
            let k = choose|k: int|
                0 <= k < e.len() && greedy_picks(doc, options.spec_width(), m.indent_cap, k)
                    && #[trigger] renders_expansion(m, doc, k, r);
            assert(layout_within(m, b, e[k]));
            lemma_clean_layout_newlines(doc, k, m.indent_cap);
        },
    }
}

/// Every rendering of a document that passes the production limits, by
/// either engine and under any options, costs at most the prepared bounds
/// on overflow and on burden.
pub proof fn lemma_rendering_within_cost_bounds(doc: DocModel, options: RenderOptions, r: Rendered)
    requires
        spec_finish(bound_calc(doc), production_limits()) is Ok,
        is_rendering(doc, options, r),
    ensures
        r.spec_cost().overflow <= spec_finish(bound_calc(doc), production_limits())->Ok_0.overflow_cost_upper,
        r.spec_cost().burden <= spec_finish(bound_calc(doc), production_limits())->Ok_0.burden_cost_upper,
{
    let m = options_model(options);
    let b = spec_finish(bound_calc(doc), production_limits())->Ok_0;
    let e = spec_expansions(doc);
    lemma_prepared_layouts_within(doc, m);
    match options.spec_strategy() {
        LayoutStrategy::Exact => {
            let c = choose|c: Cand| is_cheapest_layout(m, doc, c) && #[trigger] renders_out(r, c.out@, c.cost);
            let k = choose|k: int| first_cheapest_at(m, doc, c, k);
            lemma_run_is_layout_cost(m, e[k]);
            assert(layout_within(m, b, e[k]));
        },
        LayoutStrategy::Fast => {
            let k = choose|k: int|
                0 <= k < e.len() && greedy_picks(doc, options.spec_width(), m.indent_cap, k)
                    && #[trigger] renders_expansion(m, doc, k, r);
            assert(layout_within(m, b, e[k]));
        },
    }
}

/// Every rendering of a document that passes the production limits, by
/// either engine and under any options, has at most the prepared bound on
/// span occurrences.
pub proof fn lemma_rendering_within_span_bound(doc: DocModel, options: RenderOptions, r: Rendered)
    requires
        spec_finish(bound_calc(doc), production_limits()) is Ok,
        is_rendering(doc, options, r),
    ensures
        r.spec_spans().len() <= spec_finish(bound_calc(doc), production_limits())->Ok_0.spans_upper,
{
    let m = options_model(options);
    let b = spec_finish(bound_calc(doc), production_limits())->Ok_0;
    let e = spec_expansions(doc);
    lemma_prepared_layouts_within(doc, m);
    match options.spec_strategy() {
        LayoutStrategy::Exact => {
            let c = choose|c: Cand| is_cheapest_layout(m, doc, c) && #[trigger] renders_out(r, c.out@, c.cost);
            let k = choose|k: int| first_cheapest_at(m, doc, c, k);
            lemma_run_is_layout_cost(m, e[k]);
            assert(layout_within(m, b, e[k]));
            lemma_out_spans_count(c.out@);
        },
        LayoutStrategy::Fast => {
            let k = choose|k: int|
                0 <= k < e.len() && greedy_picks(doc, options.spec_width(), m.indent_cap, k)
                    && #[trigger] renders_expansion(m, doc, k, r);
            assert(layout_within(m, b, e[k]));
            lemma_out_spans_count(spec_resolve(e[k], 0, 0, m.indent_cap).unwrap().0);
        },
    }
}

/// The layout that either engine selects for a document that passes the
/// production limits, under any options, breaks into at most the prepared
/// bound on lines.
pub proof fn lemma_layout_within_line_bound(doc: DocModel, options: RenderOptions, o: OutModel, cost: ConsumerCost)
    requires
        spec_finish(bound_calc(doc), production_limits()) is Ok,
        is_layout(doc, options, o, cost),
    ensures
        ev_newlines(events(o)) + 1 <= spec_finish(bound_calc(doc), production_limits())->Ok_0.line_count_upper,
{
    let m = options_model(options);
    let b = spec_finish(bound_calc(doc), production_limits())->Ok_0;
    let e = spec_expansions(doc);
    lemma_prepared_layouts_within(doc, m);
    match options.spec_strategy() {
        LayoutStrategy::Exact => {
            let c = choose|c: Cand| #[trigger] is_cheapest_layout(m, doc, c) && c.out@ == o && c.cost == cost;
            let k = choose|k: int| first_cheapest_at(m, doc, c, k);
            lemma_run_is_layout_cost(m, e[k]);
            assert(layout_within(m, b, e[k]));
        },
        LayoutStrategy::Fast => {
            let k = choose|k: int|
                0 <= k < e.len() && #[trigger] greedy_picks(doc, options.spec_width(), m.indent_cap, k)
                    && spec_resolve(e[k], 0, 0, m.indent_cap) is Some && spec_resolve(e[k], 0, 0, m.indent_cap).unwrap().0
                    == o && layout_cost(m, e[k]) == Some(cost);
            assert(layout_within(m, b, e[k]));
        },
    }
}

/// An exact rendering of a document whose every layout is defined is the
/// exhaustive oracle's answer: the output and cost of the first resolution
/// of least cost.
pub proof fn lemma_exact_rendering_is_oracle(doc: DocModel, options: RenderOptions, r: Rendered, k: int)
    requires
        options.spec_strategy() == LayoutStrategy::Exact,
        is_rendering(doc, options, r),
        is_first_minimum(options_model(options), doc, k),
        all_layouts_defined(options_model(options), doc),
    ensures
        renders_out(
            r,
            spec_resolve(spec_expansions(doc)[k], 0, 0, options_model(options).indent_cap).unwrap().0,
            layout_cost(options_model(options), spec_expansions(doc)[k]).unwrap(),
        ),
{
    let m = options_model(options);
    let c = choose|c: Cand| is_cheapest_layout(m, doc, c) && #[trigger] renders_out(r, c.out@, c.cost);
    lemma_cheapest_matches_oracle(m, doc, c, k);
}

/// `o` at `cost` is the layout that `options` select for `doc`: the exact
/// engine's first cheapest layout, or the layout of the resolution that
/// the greedy engine picks.
pub open spec fn is_layout(doc: DocModel, options: RenderOptions, o: OutModel, cost: ConsumerCost) -> bool {
    let m = options_model(options);
    match options.spec_strategy() {
        LayoutStrategy::Exact => exists|c: Cand| #[trigger] is_cheapest_layout(m, doc, c) && c.out@ == o && c.cost == cost,
        LayoutStrategy::Fast => exists|k: int|
            0 <= k < spec_expansions(doc).len() && #[trigger] greedy_picks(doc, options.spec_width(), m.indent_cap, k)
                && spec_resolve(spec_expansions(doc)[k], 0, 0, m.indent_cap) is Some && spec_resolve(
                spec_expansions(doc)[k],
                0,
                0,
                m.indent_cap,
            ).unwrap().0 == o && layout_cost(m, spec_expansions(doc)[k]) == Some(cost),
    }
}

/// Materializing the selected layout gives a rendering.
pub proof fn lemma_layout_renders(doc: DocModel, options: RenderOptions, o: OutModel, cost: ConsumerCost, r: Rendered)
    requires
        is_layout(doc, options, o, cost),
        renders_out(r, o, cost),
    ensures
        is_rendering(doc, options, r),
{
    let m = options_model(options);
    match options.spec_strategy() {
        LayoutStrategy::Exact => {
            let c = choose|c: Cand| #[trigger] is_cheapest_layout(m, doc, c) && c.out@ == o && c.cost == cost;
            assert(renders_out(r, c.out@, c.cost));
        },
        LayoutStrategy::Fast => {
            let k = choose|k: int|
                0 <= k < spec_expansions(doc).len() && #[trigger] greedy_picks(doc, options.spec_width(), m.indent_cap, k)
                    && spec_resolve(spec_expansions(doc)[k], 0, 0, m.indent_cap) is Some && spec_resolve(
                    spec_expansions(doc)[k],
                    0,
                    0,
                    m.indent_cap,
                ).unwrap().0 == o && layout_cost(m, spec_expansions(doc)[k]) == Some(cost);
            assert(renders_expansion(m, doc, k, r));
        },
    }
}

/// `n`, or `usize::MAX` where `n` is larger.
pub open spec fn saturated(n: nat) -> usize {
    if n > usize::MAX {
        usize::MAX
    } else {
        n as usize
    }
}

/// The number of nodes of an output tree, saturating at `usize::MAX`.
pub fn out_nodes(o: &Out) -> (r: usize)
    ensures
        r == saturated(out_size(o@)),
    decreases *o,
{
    match o {
        Out::Cat(a, b) => {
            let l = out_nodes(a);
            let r = out_nodes(b);
            l.saturating_add(r).saturating_add(1)
        },
        Out::Tagged { child, .. } => out_nodes(child).saturating_add(1),
        Out::Penalty { child, .. } => out_nodes(child).saturating_add(1),
        _ => 1,
    }
}

/// Solves `doc` under `options` with the engine they select, giving the
/// output tree, its cost and the solver's counters; the greedy engine
/// reports zero counters.
pub(crate) fn solve_layout(prepared: &PreparedDoc, options: RenderOptions) -> (r: Result<
    (Rc<Out>, ConsumerCost, SolveStats),
    RenderError,
>)
    ensures
        r matches Ok((o, cost, _)) ==> is_layout(prepared.spec_doc(), options, o@, cost),
        r matches Ok((o, _, stats)) ==> stats.plan_nodes == saturated(out_size(o@)),
        options.spec_strategy() == LayoutStrategy::Fast ==> (r matches Ok((o, _, stats)) ==> stats == (SolveStats {
            plan_nodes: saturated(out_size(o@)),
            fit_checks: sat64(
                greedy_checks(
                    prepared.spec_doc(),
                    0,
                    0,
                    options.spec_width(),
                    Seq::<FrameModel>::empty(),
                    options_model(options).indent_cap,
                ),
            ),
            ..zero_stats()
        })),
        options.spec_strategy() == LayoutStrategy::Exact && all_defined(options_model(options), prepared.spec_doc(), 0, 0)
            ==> r is Ok,
        r matches Err(e) ==> !(e is WorkspaceExhausted) && !(e is WorkspaceGrowthFailed) && !(e is OutputOverflow),
        spec_finish(bound_calc(prepared.spec_doc()), production_limits()) is Ok ==> (r matches Ok((o, _, _)) && out_bytes(o@)
            <= usize::MAX),
{
    proof {
        if spec_finish(bound_calc(prepared.spec_doc()), production_limits()) is Ok {
            lemma_prepared_layouts_within(prepared.spec_doc(), options_model(options));
            lemma_layouts_defined_iff(options_model(options), prepared.spec_doc());
        }
    }
    let cm = model_of(options);
    match options.strategy {
        LayoutStrategy::Exact => {
            let solved = match best_with_limits(&cm, prepared.doc(), SolveLimits::default()) {
                Ok(s) => s,
                Err(ExactError::ColumnOverflow { column, width, .. }) => {
                    return Err(RenderError::ColumnOverflow { column, width });
                },
                Err(_) => {
                    return Err(RenderError::CostDomainViolation);
                },
            };
            let stats = SolveStats {
                work_items: solved.stats.solve_calls,
                fit_checks: 0,
                memo_hits: solved.stats.memo_hits,
                memo_misses: solved.stats.memo_misses,
                candidates_generated: solved.stats.candidates_generated,
                candidates_pruned: solved.stats.candidates_pruned,
                peak_frontier: solved.stats.peak_frontier,
                memo_entries: solved.stats.memo_entries,
                plan_nodes: out_nodes(&solved.candidate.out),
            };
            proof {
                if spec_finish(bound_calc(prepared.spec_doc()), production_limits()) is Ok {
                    let c = solved.candidate;
                    let k = choose|k: int|
                        0 <= k < spec_expansions(prepared.spec_doc()).len() && run(
                            cm,
                            #[trigger] spec_expansions(prepared.spec_doc())[k],
                            0,
                            0,
                        ) == Some((c.out@, c.last, c.cost));
                    lemma_run_is_layout_cost(cm, spec_expansions(prepared.spec_doc())[k]);
                    assert(layout_within(
                        cm,
                        spec_finish(bound_calc(prepared.spec_doc()), production_limits())->Ok_0,
                        spec_expansions(prepared.spec_doc())[k],
                    ));
                }
                assert(is_cheapest_layout(options_model(options), prepared.spec_doc(), solved.candidate));
            }
            let cost = solved.candidate.cost;
            Ok((solved.candidate.out, cost, stats))
        },
        LayoutStrategy::Fast => match layout_summarized(&cm, prepared.doc(), prepared.summaries(), options.width) {
            None => {
                proof {
                    if spec_finish(bound_calc(prepared.spec_doc()), production_limits()) is Ok {
                        let k = choose|k: int|
                            0 <= k < spec_expansions(prepared.spec_doc()).len() && (layout_cost(cm, spec_expansions(prepared.spec_doc())[k])
                                is None || out_bytes(spec_resolve(spec_expansions(prepared.spec_doc())[k], 0, 0, cm.indent_cap).unwrap().0)
                                > usize::MAX);
                        assert(layout_within(
                            cm,
                            spec_finish(bound_calc(prepared.spec_doc()), production_limits())->Ok_0,
                            spec_expansions(prepared.spec_doc())[k],
                        ));
                    }
                }
                Err(RenderError::LayoutDomainExceeded)
            },
            Some(g) => {
                let ghost k = choose|k: int| greedy_renders(cm, prepared.spec_doc(), k, g) && greedy_picks(prepared.spec_doc(), options.width, cm.indent_cap, k);
                proof {
                    if spec_finish(bound_calc(prepared.spec_doc()), production_limits()) is Ok {
                        assert(layout_within(
                            cm,
                            spec_finish(bound_calc(prepared.spec_doc()), production_limits())->Ok_0,
                            spec_expansions(prepared.spec_doc())[k],
                        ));
                    }
                    assert(cm == options_model(options));
                    assert(greedy_picks(prepared.spec_doc(), options.spec_width(), options_model(options).indent_cap, k));
                }
                let cost = g.cost;
                let zero = SolveStats::default();
                let plan_nodes = out_nodes(&g.out);
                let fit_checks = g.fit_checks;
                Ok((g.out, cost, SolveStats { plan_nodes, fit_checks, ..zero }))
            },
        },
    }
}

/// Renders `doc` under `options` with the engine they select: the exact
/// engine's first cheapest layout, or the greedy layout.
pub(crate) fn render_document(prepared: &PreparedDoc, options: RenderOptions) -> (r: Result<Rendered, RenderError>)
    ensures
        r matches Ok(out) ==> is_rendering(prepared.spec_doc(), options, out),
        options.spec_strategy() == LayoutStrategy::Exact && all_defined(options_model(options), prepared.spec_doc(), 0, 0)
            ==> r is Ok || r == Err::<Rendered, RenderError>(RenderError::OutputOverflow),
        r matches Err(e) ==> !(e is WorkspaceExhausted) && !(e is WorkspaceGrowthFailed),
        spec_finish(bound_calc(prepared.spec_doc()), production_limits()) is Ok ==> r is Ok,
{
    let (o, cost, stats) = match solve_layout(prepared, options) {
        Ok(t) => t,
        Err(e) => {
            return Err(e);
        },
    };
    match materialize(cost, &o) {
        Some(m) => {
            let out = Rendered { text: m.text, spans: m.spans, cost: m.cost, stats };
            proof {
                assert(renders_out(out, o@, cost));
                lemma_layout_renders(prepared.spec_doc(), options, o@, cost, out);
            }
            Ok(out)
        },
        None => Err(RenderError::OutputOverflow),
    }
}

/// Failure of preparing and rendering a document.
#[derive(Clone, Copy, Debug, PartialEq, Eq, Structural)]
pub enum OwnedRenderError {
    /// Preparing the document failed.
    Prepare(PrepareError),
    /// Reserving the reusable workspace failed.
    Reserve(ReserveError),
    /// Solving or materializing the prepared document failed.
    Render(RenderError),
}

/// Stable category of an [`OwnedRenderError`].
#[derive(Clone, Copy, Debug, PartialEq, Eq, Structural, Hash)]
#[non_exhaustive]
pub enum OwnedRenderErrorKind {
    /// Preparation failed.
    Prepare,
    /// Workspace reservation failed.
    Reserve,
    /// Rendering failed.
    Render,
}

impl OwnedRenderError {
    /// The stable category of this error.
    pub fn kind(&self) -> (r: OwnedRenderErrorKind)
        ensures
            r == (match *self {
                OwnedRenderError::Prepare(_) => OwnedRenderErrorKind::Prepare,
                OwnedRenderError::Reserve(_) => OwnedRenderErrorKind::Reserve,
                OwnedRenderError::Render(_) => OwnedRenderErrorKind::Render,
            }),
    {
        match self {
            OwnedRenderError::Prepare(_) => OwnedRenderErrorKind::Prepare,
            OwnedRenderError::Reserve(_) => OwnedRenderErrorKind::Reserve,
            OwnedRenderError::Render(_) => OwnedRenderErrorKind::Render,
        }
    }
}

/// Cost and counters of a rendering handed to a sink.
#[derive(Clone, Copy, Debug, PartialEq, Eq, Structural)]
pub struct RenderSummary {
    /// Cost of the selected layout.
    pub cost: ConsumerCost,
    /// Counters collected while solving.
    pub stats: SolveStats,
}

impl Rendered {
    /// The cost and counters of this rendering.
    pub fn summary(&self) -> (r: RenderSummary)
        ensures
            r.cost == self.spec_cost(),
            r.stats == self.spec_stats(),
    {
        RenderSummary { cost: self.cost, stats: self.stats }
    }
}

/// The outcome of rendering a prepared document: every success is a
/// rendering under `options`, every failure is a rendering error, the
/// exact engine succeeds whenever every layout has a defined cost and the
/// text fits `usize`, and both engines succeed on a document within the
/// production limits.
pub open spec fn renders_prepared(doc: DocModel, options: RenderOptions, r: Result<Rendered, OwnedRenderError>) -> bool {
    &&& r matches Ok(out) ==> is_rendering(doc, options, out)
    &&& r matches Err(e) ==> e is Render
    &&& options.spec_strategy() == LayoutStrategy::Exact && all_defined(options_model(options), doc, 0, 0)
        ==> r is Ok || r == Err::<Rendered, OwnedRenderError>(OwnedRenderError::Render(RenderError::OutputOverflow))
    &&& spec_finish(bound_calc(doc), production_limits()) is Ok ==> r is Ok
}

/// Renders an already prepared document under `options`.
pub fn render_prepared(prepared: &PreparedDoc, options: RenderOptions) -> (r: Result<Rendered, OwnedRenderError>)
    ensures
        renders_prepared(prepared.spec_doc(), options, r),
{
    match render_document(prepared, options) {
        Ok(out) => Ok(out),
        Err(e) => Err(OwnedRenderError::Render(e)),
    }
}

/// Prepares `doc` against the production limits, then renders it under
/// `options`: a document that prepares always renders, and a preparation
/// failure is returned as it is.
pub fn render(doc: &Rc<Doc>, options: RenderOptions) -> (r: Result<Rendered, OwnedRenderError>)
    ensures
        match spec_finish(bound_calc(doc@), production_limits()) {
            Ok(_) => r matches Ok(out) && is_rendering(doc@, options, out),
            Err(e) => r == Err::<Rendered, OwnedRenderError>(OwnedRenderError::Prepare(e)),
        },
{
    match Doc::prepare(doc) {
        Ok(prepared) => render_prepared(&prepared, options),
        Err(e) => Err(OwnedRenderError::Prepare(e)),
    }
}

/// A renderer that keeps one workspace across renderings.
pub struct Renderer {
    workspace: RenderWorkspace,
}

impl Renderer {
    /// The renderer's workspace.
    pub closed spec fn spec_workspace(&self) -> RenderWorkspace {
        self.workspace
    }

    /// A renderer backed by a growable workspace.
    pub fn new() -> (r: Self)
        ensures
            r.spec_workspace().spec_mode() == WorkspaceMode::Growable,
            r.spec_workspace().spec_capacity() == empty_capacity(),
    {
        Renderer { workspace: RenderWorkspace::growable() }
    }

    /// A renderer that owns `workspace`.
    pub fn with_workspace(workspace: RenderWorkspace) -> (r: Self)
        ensures
            r.spec_workspace() == workspace,
    {
        Renderer { workspace }
    }

    /// The reusable workspace.
    pub fn workspace(&self) -> (r: &RenderWorkspace)
        ensures
            *r == self.spec_workspace(),
    {
        &self.workspace
    }

    /// The reusable workspace, to change.
    pub fn workspace_mut(&mut self) -> (r: &mut RenderWorkspace)
        ensures
            *r == old(self).spec_workspace(),
            final(self).spec_workspace() == *final(r),
    {
        &mut self.workspace
    }

    /// The workspace, giving up the renderer.
    pub fn into_workspace(self) -> (r: RenderWorkspace)
        ensures
            r == self.spec_workspace(),
    {
        self.workspace
    }

    /// Prepares `doc` and renders it with this renderer's workspace: a
    /// preparation failure is returned as it is, and a document that
    /// prepares fails only where reserving the workspace fails.
    pub fn render(&mut self, doc: &Rc<Doc>, options: RenderOptions) -> (r: Result<Rendered, OwnedRenderError>)
        ensures
            final(self).spec_workspace().spec_mode() == old(self).spec_workspace().spec_mode(),
            r matches Ok(out) ==> is_rendering(doc@, options, out),
            match spec_finish(bound_calc(doc@), production_limits()) {
                Ok(b) => {
                    &&& r matches Err(OwnedRenderError::Reserve(e)) ==> capacity_error(seed(b, options.spec_strategy()))
                        == Some(e) || allocation_refused(seed(b, options.spec_strategy()), e)
                    &&& r matches Err(OwnedRenderError::Render(e)) ==> e is WorkspaceExhausted
                        && old(self).spec_workspace().spec_mode() == WorkspaceMode::Fixed
                    &&& !(r matches Err(OwnedRenderError::Prepare(_)))
                    &&& old(self).spec_workspace().spec_mode() == WorkspaceMode::Growable && capacity_error(
                        seed(b, options.spec_strategy()),
                    ) is None && buffers_hold(old(self).spec_workspace().spec_capacity(), seed(b, options.spec_strategy()))
                        ==> r is Ok
                },
                Err(e) => r == Err::<Rendered, OwnedRenderError>(OwnedRenderError::Prepare(e)),
            },
    {
        match Doc::prepare(doc) {
            Ok(prepared) => render_prepared_into_owned(&prepared, options, &mut self.workspace),
            Err(e) => Err(OwnedRenderError::Prepare(e)),
        }
    }

    /// Renders a prepared document with this renderer's workspace, as
    /// [`render_prepared_into_owned`] does.
    pub fn render_prepared(&mut self, prepared: &PreparedDoc, options: RenderOptions) -> (r: Result<
        Rendered,
        OwnedRenderError,
    >)
        ensures
            final(self).spec_workspace().spec_mode() == old(self).spec_workspace().spec_mode(),
            r matches Ok(out) ==> is_rendering(prepared.spec_doc(), options, out),
            r matches Err(e) ==> e is Render || e is Reserve,
            r matches Err(OwnedRenderError::Reserve(e)) ==> capacity_error(
                seed(prepared.spec_bounds(), options.spec_strategy()),
            ) == Some(e) || allocation_refused(seed(prepared.spec_bounds(), options.spec_strategy()), e),
            spec_finish(bound_calc(prepared.spec_doc()), production_limits()) == Ok::<
                BoundsModel,
                PrepareError,
            >(prepared.spec_bounds()) ==> (r matches Err(OwnedRenderError::Render(e)) ==> e is WorkspaceExhausted
                && old(self).spec_workspace().spec_mode() == WorkspaceMode::Fixed),
            spec_finish(bound_calc(prepared.spec_doc()), production_limits()) == Ok::<
                BoundsModel,
                PrepareError,
            >(prepared.spec_bounds()) && old(self).spec_workspace().spec_mode() == WorkspaceMode::Growable
                && capacity_error(seed(prepared.spec_bounds(), options.spec_strategy())) is None && buffers_hold(
                old(self).spec_workspace().spec_capacity(),
                seed(prepared.spec_bounds(), options.spec_strategy()),
            ) ==> r is Ok,
    {
        render_prepared_into_owned(prepared, options, &mut self.workspace)
    }
}

impl Default for Renderer {
    fn default() -> (r: Self) {
        Renderer::new()
    }
}

} // verus!
