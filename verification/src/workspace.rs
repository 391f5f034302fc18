//! Reusable rendering workspaces: logical capacities per resource, a
//! growable or fixed mode, and rendering that accounts for the output it
//! materializes against those capacities.
use crate::doc::{byte_offset, lemma_byte_offset_step, utf8_len};
use crate::domains::utf8_total;
use crate::prepare::{bound_calc, production_limits, spec_finish, BoundsModel, PreparedBounds, PreparedDoc};
use crate::render::{
    is_rendering, lemma_rendering_within_output_bound, lemma_rendering_within_span_bound, render_document,
    LayoutStrategy, OwnedRenderError, RenderError, RenderOptions, Rendered, SolveStats,
};
use crate::research::AnnotationSpan;
use vstd::prelude::*;

verus! {

/// Whether a workspace may grow while rendering.
#[derive(Clone, Copy, Debug, PartialEq, Eq, Structural)]
pub enum WorkspaceMode {
    /// Storage grows on demand.
    Growable,
    /// Storage never grows; a shortfall is a typed error.
    Fixed,
}

/// A resource whose capacity a workspace tracks.
#[derive(Clone, Copy, Debug, PartialEq, Eq, Structural, Hash)]
pub enum WorkspaceResource {
    /// Work items of the fast engine.
    FastWorkItems,
    /// Work items of the exact engine.
    ExactWorkItems,
    /// Memo entries of the exact engine.
    MemoEntries,
    /// Candidates retained by the exact engine.
    RetainedCandidates,
    /// Frontier scratch slots of the exact engine.
    FrontierScratch,
    /// Layout plan nodes.
    PlanNodes,
    /// Work items of a layout visit.
    VisitWorkItems,
    /// Depth of nested annotations during a visit.
    AnnotationDepth,
    /// Bytes of materialized output.
    OutputBytes,
    /// Materialized annotation spans.
    Spans,
}

/// Capacity of the fast engine.
#[derive(Clone, Copy, Debug, PartialEq, Eq, Structural, Default)]
pub struct FastSolveCapacity {
    /// Work items.
    pub work_items: usize,
}

/// Capacity of the exact engine.
#[derive(Clone, Copy, Debug, PartialEq, Eq, Structural, Default)]
pub struct ExactSolveCapacity {
    /// Memo entries.
    pub memo_entries: usize,
    /// Retained candidates.
    pub retained_candidates: usize,
    /// Frontier scratch slots.
    pub frontier_scratch: usize,
    /// Work items.
    pub work_items: usize,
}

/// Capacity of a layout visit.
#[derive(Clone, Copy, Debug, PartialEq, Eq, Structural, Default)]
pub struct VisitCapacity {
    /// Work items.
    pub work_items: usize,
    /// Nesting depth of annotations.
    pub annotation_depth: usize,
}

/// Capacity of materialized output.
#[derive(Clone, Copy, Debug, PartialEq, Eq, Structural, Default)]
pub struct MaterializeCapacity {
    /// Output bytes.
    pub output_bytes: usize,
    /// Annotation spans.
    pub spans: usize,
}

/// The logical capacity of every workspace resource.
#[derive(Clone, Copy, Debug, PartialEq, Eq, Structural, Default)]
pub struct RenderCapacity {
    /// Fast engine.
    pub fast: FastSolveCapacity,
    /// Exact engine.
    pub exact: ExactSolveCapacity,
    /// Layout plan nodes.
    pub plan_nodes: usize,
    /// Layout visits.
    pub visit: VisitCapacity,
    /// Materialized output.
    pub materialize: MaterializeCapacity,
}

/// Failure of reserving workspace capacity.
#[derive(Clone, Copy, Debug, PartialEq, Eq, Structural)]
pub enum ReserveError {
    /// The requested capacity of `resource` is not representable.
    CapacityOverflow { resource: WorkspaceResource, requested: usize },
    /// The allocator refused storage for `requested` entries of `resource`.
    Allocation { resource: WorkspaceResource, requested: usize },
}

/// The capacity with every field zero.
pub open spec fn empty_capacity() -> RenderCapacity {
    RenderCapacity {
        fast: FastSolveCapacity { work_items: 0 },
        exact: ExactSolveCapacity { memo_entries: 0, retained_candidates: 0, frontier_scratch: 0, work_items: 0 },
        plan_nodes: 0,
        visit: VisitCapacity { work_items: 0, annotation_depth: 0 },
        materialize: MaterializeCapacity { output_bytes: 0, spans: 0 },
    }
}

/// The larger of two sizes.
pub open spec fn size_max(a: usize, b: usize) -> usize {
    if a < b {
        b
    } else {
        a
    }
}

/// Field-wise maximum of two capacities.
pub open spec fn capacity_max(a: RenderCapacity, b: RenderCapacity) -> RenderCapacity {
    RenderCapacity {
        fast: FastSolveCapacity { work_items: size_max(a.fast.work_items, b.fast.work_items) },
        exact: ExactSolveCapacity {
            memo_entries: size_max(a.exact.memo_entries, b.exact.memo_entries),
            retained_candidates: size_max(a.exact.retained_candidates, b.exact.retained_candidates),
            frontier_scratch: size_max(a.exact.frontier_scratch, b.exact.frontier_scratch),
            work_items: size_max(a.exact.work_items, b.exact.work_items),
        },
        plan_nodes: size_max(a.plan_nodes, b.plan_nodes),
        visit: VisitCapacity {
            work_items: size_max(a.visit.work_items, b.visit.work_items),
            annotation_depth: size_max(a.visit.annotation_depth, b.visit.annotation_depth),
        },
        materialize: MaterializeCapacity {
            output_bytes: size_max(a.materialize.output_bytes, b.materialize.output_bytes),
            spans: size_max(a.materialize.spans, b.materialize.spans),
        },
    }
}

/// Memo slots needed for `entries` entries, doubling from `slots` until
/// seven tenths of the slots hold them; `None` when a step leaves `usize`.
pub open spec fn memo_slots_from(slots: int, entries: int) -> Option<int>
    decreases usize::MAX - slots,
{
    if slots <= 0 || slots * 7 > usize::MAX {
        None
    } else if slots * 7 / 10 >= entries {
        Some(slots)
    } else if slots * 2 > usize::MAX {
        None
    } else {
        memo_slots_from(slots * 2, entries)
    }
}

/// Memo slots needed for `entries` entries: none for none, else a power of
/// two from eight up that keeps the load at most seven tenths.
pub open spec fn memo_slots(entries: usize) -> Option<int> {
    if entries == 0 {
        Some(0)
    } else {
        memo_slots_from(8, entries as int)
    }
}

/// The first capacity that cannot be represented, in the order in which
/// they are checked: indexed resources must fit `u32`, and the memo table
/// for the requested entries must fit `usize`.
pub open spec fn capacity_error(c: RenderCapacity) -> Option<ReserveError> {
    if c.exact.retained_candidates > u32::MAX {
        Some(
            ReserveError::CapacityOverflow {
                resource: WorkspaceResource::RetainedCandidates,
                requested: c.exact.retained_candidates,
            },
        )
    } else if c.exact.frontier_scratch > u32::MAX {
        Some(
            ReserveError::CapacityOverflow {
                resource: WorkspaceResource::FrontierScratch,
                requested: c.exact.frontier_scratch,
            },
        )
    } else if c.plan_nodes > u32::MAX {
        Some(ReserveError::CapacityOverflow { resource: WorkspaceResource::PlanNodes, requested: c.plan_nodes })
    } else if c.materialize.spans > u32::MAX {
        Some(ReserveError::CapacityOverflow { resource: WorkspaceResource::Spans, requested: c.materialize.spans })
    } else if memo_slots(c.exact.memo_entries) is None {
        Some(
            ReserveError::CapacityOverflow {
                resource: WorkspaceResource::MemoEntries,
                requested: c.exact.memo_entries,
            },
        )
    } else {
        None
    }
}

/// The allocator refused the storage that `requested` asks for.
pub open spec fn allocation_refused(requested: RenderCapacity, e: ReserveError) -> bool {
    ||| e == ReserveError::Allocation {
        resource: WorkspaceResource::OutputBytes,
        requested: requested.materialize.output_bytes,
    }
    ||| e == ReserveError::Allocation { resource: WorkspaceResource::Spans, requested: requested.materialize.spans }
}

/// The buffered capacities of `c`, output bytes and spans, already hold
/// those of `requested`.
pub open spec fn buffers_hold(c: RenderCapacity, requested: RenderCapacity) -> bool {
    &&& requested.materialize.output_bytes <= c.materialize.output_bytes
    &&& requested.materialize.spans <= c.materialize.spans
}

/// `Vec::try_reserve_exact`: asks the allocator for room for `additional`
/// more elements. The elements stay as they were; whether the allocator
/// grants the request is not stated.
#[verifier::external_body]
fn try_reserve_exact<T>(v: &mut Vec<T>, additional: usize) -> (r: bool)
    ensures
        final(v)@ == old(v)@,
{
    v.try_reserve_exact(additional).is_ok()
}

/// The memo slots for `entries` entries, or the typed overflow.
pub fn memo_slots_for(entries: usize) -> (r: Result<usize, ReserveError>)
    ensures
        match memo_slots(entries) {
            Some(s) => r == Ok::<usize, ReserveError>(s as usize),
            None => r == Err::<usize, ReserveError>(
                ReserveError::CapacityOverflow { resource: WorkspaceResource::MemoEntries, requested: entries },
            ),
        },
{
    if entries == 0 {
        return Ok(0);
    }
    let overflow = ReserveError::CapacityOverflow { resource: WorkspaceResource::MemoEntries, requested: entries };
    let mut slots: usize = 8;
    loop
        invariant
            entries > 0,
            slots > 0,
            memo_slots(entries) == memo_slots_from(slots as int, entries as int),
            overflow == (ReserveError::CapacityOverflow { resource: WorkspaceResource::MemoEntries, requested: entries }),
        decreases usize::MAX - slots,
    {
        let seven: usize = match slots.checked_mul(7) {
            Some(v) => v,
            None => {
                return Err(overflow);
            },
        };
        if seven / 10 >= entries {
            return Ok(slots);
        }
        slots = match slots.checked_mul(2) {
            Some(v) => v,
            None => {
                return Err(overflow);
            },
        };
    }
}

/// Checks that every requested capacity is representable.
pub fn validate_capacity(capacity: RenderCapacity) -> (r: Result<(), ReserveError>)
    ensures
        match capacity_error(capacity) {
            Some(e) => r == Err::<(), ReserveError>(e),
            None => r is Ok,
        },
{
    if capacity.exact.retained_candidates > 0xffff_ffff {
        return Err(
            ReserveError::CapacityOverflow {
                resource: WorkspaceResource::RetainedCandidates,
                requested: capacity.exact.retained_candidates,
            },
        );
    }
    if capacity.exact.frontier_scratch > 0xffff_ffff {
        return Err(
            ReserveError::CapacityOverflow {
                resource: WorkspaceResource::FrontierScratch,
                requested: capacity.exact.frontier_scratch,
            },
        );
    }
    if capacity.plan_nodes > 0xffff_ffff {
        return Err(
            ReserveError::CapacityOverflow { resource: WorkspaceResource::PlanNodes, requested: capacity.plan_nodes },
        );
    }
    if capacity.materialize.spans > 0xffff_ffff {
        return Err(
            ReserveError::CapacityOverflow { resource: WorkspaceResource::Spans, requested: capacity.materialize.spans },
        );
    }
    match memo_slots_for(capacity.exact.memo_entries) {
        Ok(_) => Ok(()),
        Err(e) => Err(e),
    }
}

fn size_max_exec(a: usize, b: usize) -> (r: usize)
    ensures
        r == size_max(a, b),
{
    if a < b {
        b
    } else {
        a
    }
}

/// Field-wise maximum of two capacities.
pub fn merge_capacity(a: RenderCapacity, b: RenderCapacity) -> (r: RenderCapacity)
    ensures
        r == capacity_max(a, b),
{
    RenderCapacity {
        fast: FastSolveCapacity { work_items: size_max_exec(a.fast.work_items, b.fast.work_items) },
        exact: ExactSolveCapacity {
            memo_entries: size_max_exec(a.exact.memo_entries, b.exact.memo_entries),
            retained_candidates: size_max_exec(a.exact.retained_candidates, b.exact.retained_candidates),
            frontier_scratch: size_max_exec(a.exact.frontier_scratch, b.exact.frontier_scratch),
            work_items: size_max_exec(a.exact.work_items, b.exact.work_items),
        },
        plan_nodes: size_max_exec(a.plan_nodes, b.plan_nodes),
        visit: VisitCapacity {
            work_items: size_max_exec(a.visit.work_items, b.visit.work_items),
            annotation_depth: size_max_exec(a.visit.annotation_depth, b.visit.annotation_depth),
        },
        materialize: MaterializeCapacity {
            output_bytes: size_max_exec(a.materialize.output_bytes, b.materialize.output_bytes),
            spans: size_max_exec(a.materialize.spans, b.materialize.spans),
        },
    }
}

/// Reusable rendering storage with a logical capacity per resource.
pub struct RenderWorkspace {
    mode: WorkspaceMode,
    capacity: RenderCapacity,
    output: Vec<u8>,
    spans: Vec<AnnotationSpan>,
}

impl RenderWorkspace {
    /// The mode.
    pub closed spec fn spec_mode(&self) -> WorkspaceMode {
        self.mode
    }

    /// The logical capacities.
    pub closed spec fn spec_capacity(&self) -> RenderCapacity {
        self.capacity
    }

    /// An empty workspace that grows on demand.
    pub fn growable() -> (r: Self)
        ensures
            r.spec_mode() == WorkspaceMode::Growable,
            r.spec_capacity() == empty_capacity(),
    {
        RenderWorkspace {
            mode: WorkspaceMode::Growable,
            capacity: RenderCapacity {
                fast: FastSolveCapacity { work_items: 0 },
                exact: ExactSolveCapacity { memo_entries: 0, retained_candidates: 0, frontier_scratch: 0, work_items: 0 },
                plan_nodes: 0,
                visit: VisitCapacity { work_items: 0, annotation_depth: 0 },
                materialize: MaterializeCapacity { output_bytes: 0, spans: 0 },
            },
            output: Vec::new(),
            spans: Vec::new(),
        }
    }

    /// A fixed workspace holding `capacity`: refused exactly as
    /// [`RenderWorkspace::reserve`] refuses it.
    pub fn fixed(capacity: RenderCapacity) -> (r: Result<Self, ReserveError>)
        ensures
            capacity_error(capacity) matches Some(e) ==> r == Err::<Self, ReserveError>(e),
            capacity_error(capacity) is None && buffers_hold(empty_capacity(), capacity) ==> r is Ok,
            r matches Err(e) ==> capacity_error(capacity) == Some(e) || allocation_refused(capacity, e),
            r matches Ok(w) ==> w.spec_mode() == WorkspaceMode::Fixed && w.spec_capacity() == capacity,
    {
        let mut workspace = Self::growable();
        match workspace.reserve(capacity) {
            Ok(()) => {},
            Err(e) => {
                return Err(e);
            },
        }
        workspace.mode = WorkspaceMode::Fixed;
        proof {
            assert(capacity_max(empty_capacity(), capacity) == capacity);
        }
        Ok(workspace)
    }

    /// The mode.
    pub fn mode(&self) -> (r: WorkspaceMode)
        ensures
            r == self.spec_mode(),
    {
        self.mode
    }

    /// Switches the mode; capacities stay.
    pub fn set_mode(&mut self, mode: WorkspaceMode)
        ensures
            final(self).spec_mode() == mode,
            final(self).spec_capacity() == old(self).spec_capacity(),
    {
        self.mode = mode;
    }

    /// The logical capacities.
    pub fn capacity(&self) -> (r: RenderCapacity)
        ensures
            r == self.spec_capacity(),
    {
        self.capacity
    }

    /// Grows every capacity to at least `requested`. A capacity that cannot
    /// be represented is refused before anything is allocated; storage is
    /// asked of the allocator only for a buffer whose capacity is short, so
    /// a request the buffers already hold always succeeds. On any failure
    /// the capacities stay as they were. The mode never changes.
    pub fn reserve(&mut self, requested: RenderCapacity) -> (r: Result<(), ReserveError>)
        ensures
            final(self).spec_mode() == old(self).spec_mode(),
            capacity_error(requested) matches Some(e) ==> r == Err::<(), ReserveError>(e),
            capacity_error(requested) is None && buffers_hold(old(self).spec_capacity(), requested) ==> r is Ok,
            r matches Err(e) ==> capacity_error(requested) == Some(e) || allocation_refused(requested, e),
            r is Ok ==> final(self).spec_capacity() == capacity_max(old(self).spec_capacity(), requested),
            r is Err ==> final(self).spec_capacity() == old(self).spec_capacity(),
    {
        self.clear_buffers();
        match validate_capacity(requested) {
            Ok(()) => {},
            Err(e) => {
                return Err(e);
            },
        }
        if requested.materialize.output_bytes > self.capacity.materialize.output_bytes && !try_reserve_exact(
            &mut self.output,
            requested.materialize.output_bytes,
        ) {
            return Err(
                ReserveError::Allocation {
                    resource: WorkspaceResource::OutputBytes,
                    requested: requested.materialize.output_bytes,
                },
            );
        }
        if requested.materialize.spans > self.capacity.materialize.spans && !try_reserve_exact(
            &mut self.spans,
            requested.materialize.spans,
        ) {
            return Err(
                ReserveError::Allocation { resource: WorkspaceResource::Spans, requested: requested.materialize.spans },
            );
        }
        self.capacity = merge_capacity(self.capacity, requested);
        Ok(())
    }

    /// Empties the buffers, keeping their storage, the mode and the
    /// capacities.
    pub(crate) fn clear_buffers(&mut self)
        ensures
            final(self).spec_mode() == old(self).spec_mode(),
            final(self).spec_capacity() == old(self).spec_capacity(),
    {
        self.output.clear();
        self.spans.clear();
    }

    /// Accounts `need`, which no buffer backs: a fixed workspace refuses it
    /// with the first [`shortfall`] and stays as it was; otherwise every
    /// capacity grows to hold it.
    pub(crate) fn account(&mut self, need: RenderCapacity) -> (r: Result<(), (WorkspaceResource, usize, usize)>)
        ensures
            final(self).spec_mode() == old(self).spec_mode(),
            old(self).spec_mode() == WorkspaceMode::Fixed && shortfall(old(self).spec_capacity(), need) is Some ==> r
                == Err::<(), (WorkspaceResource, usize, usize)>(shortfall(old(self).spec_capacity(), need).unwrap())
                && final(self).spec_capacity() == old(self).spec_capacity(),
            !(old(self).spec_mode() == WorkspaceMode::Fixed && shortfall(old(self).spec_capacity(), need) is Some)
                ==> r is Ok && final(self).spec_capacity() == capacity_max(old(self).spec_capacity(), need),
    {
        if self.mode == WorkspaceMode::Fixed {
            match find_shortfall(self.capacity, need) {
                Some(t) => {
                    return Err(t);
                },
                None => {},
            }
        }
        self.capacity = merge_capacity(self.capacity, need);
        Ok(())
    }

    /// Drops all storage; every capacity becomes zero and the mode stays.
    pub fn release_capacity(&mut self)
        ensures
            final(self).spec_mode() == old(self).spec_mode(),
            final(self).spec_capacity() == empty_capacity(),
    {
        self.output = Vec::new();
        self.spans = Vec::new();
        self.capacity = RenderCapacity {
            fast: FastSolveCapacity { work_items: 0 },
            exact: ExactSolveCapacity { memo_entries: 0, retained_candidates: 0, frontier_scratch: 0, work_items: 0 },
            plan_nodes: 0,
            visit: VisitCapacity { work_items: 0, annotation_depth: 0 },
            materialize: MaterializeCapacity { output_bytes: 0, spans: 0 },
        };
    }
}

/// UTF-8 length in bytes of the text of `r`.
pub open spec fn rendered_bytes(r: Rendered) -> nat {
    byte_offset(r.spec_text(), r.spec_text().len() as int)
}

/// What rendering with `strategy` needs of each resource, given the
/// prepared bounds `b`, the solve's counters `stats` and the materialized
/// size: the engine's work items and the visit's storage up to the
/// bounds, the memo entries and the frontier the exact solve reports, the
/// plan nodes of the selected layout, and the output's bytes and spans.
pub open spec fn need_capacity(
    b: BoundsModel,
    strategy: LayoutStrategy,
    stats: SolveStats,
    bytes: usize,
    spans: usize,
) -> RenderCapacity {
    let exact = strategy == LayoutStrategy::Exact;
    RenderCapacity {
        fast: FastSolveCapacity {
            work_items: if exact {
                0
            } else {
                b.fast_work_items
            },
        },
        exact: ExactSolveCapacity {
            memo_entries: if exact {
                stats.memo_entries
            } else {
                0
            },
            retained_candidates: if exact {
                stats.peak_frontier
            } else {
                0
            },
            frontier_scratch: if exact {
                stats.peak_frontier
            } else {
                0
            },
            work_items: if exact {
                b.fast_work_items
            } else {
                0
            },
        },
        plan_nodes: stats.plan_nodes,
        visit: VisitCapacity { work_items: b.visit_work_items, annotation_depth: b.annotation_depth },
        materialize: MaterializeCapacity { output_bytes: bytes, spans },
    }
}

/// What solving with `strategy`, with counters `stats`, needs of each
/// resource before anything is materialized.
pub open spec fn solve_need(b: BoundsModel, strategy: LayoutStrategy, stats: SolveStats) -> RenderCapacity {
    need_capacity(b, strategy, stats, 0, 0)
}

/// What materializing `r`, rendered with `strategy` from a document with
/// bounds `b`, needs of each resource.
pub open spec fn rendering_need(b: BoundsModel, strategy: LayoutStrategy, r: Rendered) -> RenderCapacity {
    need_capacity(b, strategy, r.spec_stats(), rendered_bytes(r) as usize, r.spec_spans().len() as usize)
}

/// The first resource, in the order in which [`WorkspaceResource`] lists
/// them, of which `c` holds less than `need`, with its capacity and need.
pub open spec fn shortfall(c: RenderCapacity, need: RenderCapacity) -> Option<(WorkspaceResource, usize, usize)> {
    if need.fast.work_items > c.fast.work_items {
        Some((WorkspaceResource::FastWorkItems, c.fast.work_items, need.fast.work_items))
    } else if need.exact.work_items > c.exact.work_items {
        Some((WorkspaceResource::ExactWorkItems, c.exact.work_items, need.exact.work_items))
    } else if need.exact.memo_entries > c.exact.memo_entries {
        Some((WorkspaceResource::MemoEntries, c.exact.memo_entries, need.exact.memo_entries))
    } else if need.exact.retained_candidates > c.exact.retained_candidates {
        Some((WorkspaceResource::RetainedCandidates, c.exact.retained_candidates, need.exact.retained_candidates))
    } else if need.exact.frontier_scratch > c.exact.frontier_scratch {
        Some((WorkspaceResource::FrontierScratch, c.exact.frontier_scratch, need.exact.frontier_scratch))
    } else if need.plan_nodes > c.plan_nodes {
        Some((WorkspaceResource::PlanNodes, c.plan_nodes, need.plan_nodes))
    } else if need.visit.work_items > c.visit.work_items {
        Some((WorkspaceResource::VisitWorkItems, c.visit.work_items, need.visit.work_items))
    } else if need.visit.annotation_depth > c.visit.annotation_depth {
        Some((WorkspaceResource::AnnotationDepth, c.visit.annotation_depth, need.visit.annotation_depth))
    } else if need.materialize.output_bytes > c.materialize.output_bytes {
        Some((WorkspaceResource::OutputBytes, c.materialize.output_bytes, need.materialize.output_bytes))
    } else if need.materialize.spans > c.materialize.spans {
        Some((WorkspaceResource::Spans, c.materialize.spans, need.materialize.spans))
    } else {
        None
    }
}

/// The capacities [`need_capacity`] gives.
pub fn need_of(bounds: PreparedBounds, strategy: LayoutStrategy, stats: SolveStats, bytes: usize, spans: usize) -> (r:
    RenderCapacity)
    ensures
        r == need_capacity(bounds@, strategy, stats, bytes, spans),
{
    let (fast, exact) = match strategy {
        LayoutStrategy::Exact => (
            FastSolveCapacity { work_items: 0 },
            ExactSolveCapacity {
                memo_entries: stats.memo_entries,
                retained_candidates: stats.peak_frontier,
                frontier_scratch: stats.peak_frontier,
                work_items: bounds.fast_work_items(),
            },
        ),
        LayoutStrategy::Fast => (
            FastSolveCapacity { work_items: bounds.fast_work_items() },
            ExactSolveCapacity { memo_entries: 0, retained_candidates: 0, frontier_scratch: 0, work_items: 0 },
        ),
    };
    RenderCapacity {
        fast,
        exact,
        plan_nodes: stats.plan_nodes,
        visit: VisitCapacity { work_items: bounds.visit_work_items(), annotation_depth: bounds.annotation_depth() },
        materialize: MaterializeCapacity { output_bytes: bytes, spans },
    }
}

/// The first resource of which `c` holds less than `need`, as
/// [`shortfall`] gives it.
pub fn find_shortfall(c: RenderCapacity, need: RenderCapacity) -> (r: Option<(WorkspaceResource, usize, usize)>)
    ensures
        r == shortfall(c, need),
{
    if need.fast.work_items > c.fast.work_items {
        Some((WorkspaceResource::FastWorkItems, c.fast.work_items, need.fast.work_items))
    } else if need.exact.work_items > c.exact.work_items {
        Some((WorkspaceResource::ExactWorkItems, c.exact.work_items, need.exact.work_items))
    } else if need.exact.memo_entries > c.exact.memo_entries {
        Some((WorkspaceResource::MemoEntries, c.exact.memo_entries, need.exact.memo_entries))
    } else if need.exact.retained_candidates > c.exact.retained_candidates {
        Some((WorkspaceResource::RetainedCandidates, c.exact.retained_candidates, need.exact.retained_candidates))
    } else if need.exact.frontier_scratch > c.exact.frontier_scratch {
        Some((WorkspaceResource::FrontierScratch, c.exact.frontier_scratch, need.exact.frontier_scratch))
    } else if need.plan_nodes > c.plan_nodes {
        Some((WorkspaceResource::PlanNodes, c.plan_nodes, need.plan_nodes))
    } else if need.visit.work_items > c.visit.work_items {
        Some((WorkspaceResource::VisitWorkItems, c.visit.work_items, need.visit.work_items))
    } else if need.visit.annotation_depth > c.visit.annotation_depth {
        Some((WorkspaceResource::AnnotationDepth, c.visit.annotation_depth, need.visit.annotation_depth))
    } else if need.materialize.output_bytes > c.materialize.output_bytes {
        Some((WorkspaceResource::OutputBytes, c.materialize.output_bytes, need.materialize.output_bytes))
    } else if need.materialize.spans > c.materialize.spans {
        Some((WorkspaceResource::Spans, c.materialize.spans, need.materialize.spans))
    } else {
        None
    }
}

/// A capacity with no shortfall against `need` already holds it.
pub proof fn lemma_no_shortfall_holds(c: RenderCapacity, need: RenderCapacity)
    requires
        shortfall(c, need) is None,
    ensures
        capacity_max(c, need) == c,
{
}

proof fn lemma_byte_offset_monotone(s: Seq<char>, i: int, j: int)
    requires
        0 <= i <= j <= s.len(),
    ensures
        byte_offset(s, i) <= byte_offset(s, j),
    decreases j - i,
{
    if i < j {
        lemma_byte_offset_step(s, j - 1);
        lemma_byte_offset_monotone(s, i, j - 1);
    }
}

/// UTF-8 length of `value` in bytes, or `None` where it leaves `usize`.
fn checked_byte_len(value: &str) -> (r: Option<usize>)
    ensures
        r matches Some(n) ==> n == byte_offset(value@, value@.len() as int),
        r is None ==> byte_offset(value@, value@.len() as int) > usize::MAX,
{
    let n = value.unicode_len();
    let mut i: usize = 0;
    let mut offset: usize = 0;
    while i < n
        invariant
            n == value@.len(),
            0 <= i <= n,
            offset == byte_offset(value@, i as int),
        decreases n - i,
    {
        let c = value.get_char(i);
        proof {
            lemma_byte_offset_step(value@, i as int);
        }
        let l = crate::doc::char_utf8_len(c);
        match offset.checked_add(l) {
            Some(v) => {
                offset = v;
            },
            None => {
                proof {
                    lemma_byte_offset_monotone(value@, i + 1, n as int);
                }
                return None;
            },
        }
        i = i + 1;
    }
    Some(offset)
}

/// Renders a prepared document, accounting what the rendering needs of
/// each workspace resource (see [`rendering_need`]). A fixed workspace
/// that holds less of a resource than the rendering needs gives
/// `WorkspaceExhausted` for the first such resource and stays as it was; a
/// growable one grows every capacity to what the rendering needs, asking
/// the allocator only for the output buffers that are short.
pub fn render_into(prepared: &PreparedDoc, options: RenderOptions, workspace: &mut RenderWorkspace) -> (r: Result<
    Rendered,
    RenderError,
>)
    ensures
        final(workspace).spec_mode() == old(workspace).spec_mode(),
        r matches Ok(out) ==> is_rendering(prepared.spec_doc(), options, out),
        r matches Ok(out) ==> rendered_bytes(out) <= usize::MAX && final(workspace).spec_capacity() == capacity_max(
            old(workspace).spec_capacity(),
            rendering_need(prepared.spec_bounds(), options.spec_strategy(), out),
        ),
        old(workspace).spec_mode() == WorkspaceMode::Fixed ==> (r matches Ok(out) ==> shortfall(
            old(workspace).spec_capacity(),
            rendering_need(prepared.spec_bounds(), options.spec_strategy(), out),
        ) is None),
        r is Err ==> final(workspace).spec_capacity() == old(workspace).spec_capacity(),
        r matches Err(RenderError::WorkspaceExhausted { resource, capacity, required, stats }) ==> old(
            workspace,
        ).spec_mode() == WorkspaceMode::Fixed && exists|out: Rendered|
            is_rendering(prepared.spec_doc(), options, out) && rendered_bytes(out) <= usize::MAX && #[trigger] shortfall(
                old(workspace).spec_capacity(),
                rendering_need(prepared.spec_bounds(), options.spec_strategy(), out),
            ) == Some((resource, capacity, required)) && out.spec_stats() == stats,
        r matches Err(RenderError::WorkspaceGrowthFailed { resource, capacity, required, stats }) ==> old(
            workspace,
        ).spec_mode() == WorkspaceMode::Growable && capacity < required && exists|out: Rendered|
            #[trigger] is_rendering(prepared.spec_doc(), options, out) && out.spec_stats() == stats && (
            resource == WorkspaceResource::OutputBytes && capacity == old(
                workspace,
            ).spec_capacity().materialize.output_bytes && required == rendered_bytes(out) || resource
                == WorkspaceResource::Spans && capacity == old(workspace).spec_capacity().materialize.spans
                && required == out.spec_spans().len()),
        r == Err::<Rendered, RenderError>(RenderError::OutputOverflow) && spec_finish(
            bound_calc(prepared.spec_doc()),
            production_limits(),
        ) is Ok ==> exists|out: Rendered|
            is_rendering(prepared.spec_doc(), options, out) && #[trigger] rendered_bytes(out) > usize::MAX,
        spec_finish(bound_calc(prepared.spec_doc()), production_limits()) is Ok ==> r is Ok || r
            is Err && (r->Err_0 is WorkspaceExhausted || r->Err_0 is WorkspaceGrowthFailed || r->Err_0
            is OutputOverflow),
{
    let ghost old_cap = workspace.capacity;
    workspace.clear_buffers();
    let out = match render_document(prepared, options) {
        Ok(o) => o,
        Err(e) => {
            return Err(e);
        },
    };
    let bytes = match checked_byte_len(out.text()) {
        Some(n) => n,
        None => {
            assert(rendered_bytes(out) > usize::MAX);
            return Err(RenderError::OutputOverflow);
        },
    };
    let spans = out.spans().len();
    let stats = out.stats();
    let need = need_of(prepared.bounds(), options.strategy(), stats, bytes, spans);
    assert(need == rendering_need(prepared.spec_bounds(), options.spec_strategy(), out));
    let cap = workspace.capacity.materialize;
    if workspace.mode == WorkspaceMode::Fixed {
        match find_shortfall(workspace.capacity, need) {
            Some((resource, capacity, required)) => {
                return Err(RenderError::WorkspaceExhausted { resource, capacity, required, stats });
            },
            None => {
                proof {
                    lemma_no_shortfall_holds(old_cap, need);
                }
            },
        }
    } else {
        if bytes > cap.output_bytes && !try_reserve_exact(&mut workspace.output, bytes) {
            return Err(
                RenderError::WorkspaceGrowthFailed {
                    resource: WorkspaceResource::OutputBytes,
                    capacity: cap.output_bytes,
                    required: bytes,
                    stats,
                },
            );
        }
        if spans > cap.spans && !try_reserve_exact(&mut workspace.spans, spans) {
            return Err(
                RenderError::WorkspaceGrowthFailed {
                    resource: WorkspaceResource::Spans,
                    capacity: cap.spans,
                    required: spans,
                    stats,
                },
            );
        }
    }
    workspace.capacity = merge_capacity(workspace.capacity, need);
    Ok(out)
}

/// The capacity a prepared document's bounds ask for before rendering it
/// with `strategy`: its plan, visit and output bounds, and the engine's
/// own work items.
pub open spec fn seed(b: BoundsModel, strategy: LayoutStrategy) -> RenderCapacity {
    RenderCapacity {
        fast: FastSolveCapacity {
            work_items: if strategy == LayoutStrategy::Fast {
                b.fast_work_items
            } else {
                0
            },
        },
        exact: if strategy == LayoutStrategy::Exact {
            ExactSolveCapacity {
                memo_entries: 1,
                retained_candidates: 1,
                frontier_scratch: 1,
                work_items: b.fast_work_items,
            }
        } else {
            ExactSolveCapacity { memo_entries: 0, retained_candidates: 0, frontier_scratch: 0, work_items: 0 }
        },
        plan_nodes: b.single_plan_nodes_upper,
        visit: VisitCapacity { work_items: b.visit_work_items, annotation_depth: b.annotation_depth },
        materialize: MaterializeCapacity { output_bytes: b.output_bytes_upper, spans: b.spans_upper },
    }
}

/// The capacity [`seed`] gives.
pub fn seed_capacity(bounds: PreparedBounds, strategy: LayoutStrategy) -> (r: RenderCapacity)
    ensures
        r == seed(bounds@, strategy),
{
    let fast = match strategy {
        LayoutStrategy::Fast => FastSolveCapacity { work_items: bounds.fast_work_items() },
        LayoutStrategy::Exact => FastSolveCapacity { work_items: 0 },
    };
    let exact = match strategy {
        LayoutStrategy::Exact => ExactSolveCapacity {
            memo_entries: 1,
            retained_candidates: 1,
            frontier_scratch: 1,
            work_items: bounds.fast_work_items(),
        },
        LayoutStrategy::Fast => ExactSolveCapacity {
            memo_entries: 0,
            retained_candidates: 0,
            frontier_scratch: 0,
            work_items: 0,
        },
    };
    RenderCapacity {
        fast,
        exact,
        plan_nodes: bounds.single_plan_nodes_upper(),
        visit: VisitCapacity { work_items: bounds.visit_work_items(), annotation_depth: bounds.annotation_depth() },
        materialize: MaterializeCapacity { output_bytes: bounds.output_bytes_upper(), spans: bounds.spans_upper() },
    }
}

/// Renders a prepared document into owned output with a caller's
/// workspace, first reserving what the document's bounds ask for (see
/// [`seed`]). Every success is a rendering. A growable workspace, for a
/// document prepared against the production limits, fails only where the
/// reservation fails, and succeeds whenever its buffers already hold the
/// seed; a fixed one may also run out of the storage the solve needs.
pub fn render_prepared_into_owned(
    prepared: &PreparedDoc,
    options: RenderOptions,
    workspace: &mut RenderWorkspace,
) -> (r: Result<Rendered, OwnedRenderError>)
    ensures
        final(workspace).spec_mode() == old(workspace).spec_mode(),
        r matches Ok(out) ==> is_rendering(prepared.spec_doc(), options, out),
        r matches Err(e) ==> e is Render || e is Reserve,
        r matches Err(OwnedRenderError::Reserve(e)) ==> capacity_error(seed(prepared.spec_bounds(), options.spec_strategy()))
            == Some(e) || allocation_refused(seed(prepared.spec_bounds(), options.spec_strategy()), e),
        spec_finish(bound_calc(prepared.spec_doc()), production_limits()) == Ok::<
            BoundsModel,
            crate::prepare::PrepareError,
        >(prepared.spec_bounds()) ==> (r matches Err(OwnedRenderError::Render(e)) ==> e is WorkspaceExhausted && old(
            workspace,
        ).spec_mode() == WorkspaceMode::Fixed),
        spec_finish(bound_calc(prepared.spec_doc()), production_limits()) == Ok::<BoundsModel, crate::prepare::PrepareError>(
            prepared.spec_bounds(),
        ) && old(workspace).spec_mode() == WorkspaceMode::Growable && capacity_error(
            seed(prepared.spec_bounds(), options.spec_strategy()),
        ) is None && buffers_hold(old(workspace).spec_capacity(), seed(prepared.spec_bounds(), options.spec_strategy()))
            ==> r is Ok,
{
    let seeded = seed_capacity(prepared.bounds(), options.strategy());
    match workspace.reserve(seeded) {
        Ok(()) => {},
        Err(e) => {
            return Err(OwnedRenderError::Reserve(e));
        },
    }
    let ghost cap = workspace.spec_capacity();
    let ghost doc = prepared.spec_doc();
    match render_into(prepared, options, workspace) {
        Ok(out) => Ok(out),
        Err(e) => {
            proof {
                if spec_finish(bound_calc(doc), production_limits()) == Ok::<BoundsModel, crate::prepare::PrepareError>(
                    prepared.spec_bounds(),
                ) {
                    let b = prepared.spec_bounds();
                    assert(cap.materialize.output_bytes >= b.output_bytes_upper);
                    assert(cap.materialize.spans >= b.spans_upper);
                    match e {
                        RenderError::WorkspaceGrowthFailed { resource, capacity, required, stats } => {
                            let out = choose|out: Rendered|
                                #[trigger] is_rendering(doc, options, out) && out.spec_stats() == stats && (
                                resource == WorkspaceResource::OutputBytes && capacity == cap.materialize.output_bytes
                                    && required == rendered_bytes(out) || resource == WorkspaceResource::Spans
                                    && capacity == cap.materialize.spans && required == out.spec_spans().len());
                            lemma_rendering_within_output_bound(doc, options, out);
                            lemma_rendering_within_span_bound(doc, options, out);
                            assert(rendered_bytes(out) == utf8_total(out.spec_text()));
                        },
                        RenderError::OutputOverflow => {
                            let out = choose|out: Rendered|
                                is_rendering(doc, options, out) && #[trigger] rendered_bytes(out) > usize::MAX;
                            lemma_rendering_within_output_bound(doc, options, out);
                            assert(rendered_bytes(out) == utf8_total(out.spec_text()));
                        },
                        _ => {},
                    }
                }
            }
            Err(OwnedRenderError::Render(e))
        },
    }
}

} // verus!
