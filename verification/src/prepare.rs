//! Prepared documents and their conservative, width-independent domain
//! bounds.
use crate::doc::{byte_offset, Doc, DocModel, TagId};
use std::rc::Rc;
use crate::summary::{build_source, summarizes_doc, SumTree};
use vstd::prelude::*;

verus! {

/// A checked bound: `None` once a computation left `u128`.
pub open spec fn opt_add(a: Option<u128>, b: Option<u128>) -> Option<u128> {
    match (a, b) {
        (Some(x), Some(y)) => if x + y <= u128::MAX {
            Some((x + y) as u128)
        } else {
            None
        },
        _ => None,
    }
}

/// Checked product of bounds.
pub open spec fn opt_mul(a: Option<u128>, b: Option<u128>) -> Option<u128> {
    match (a, b) {
        (Some(x), Some(y)) => if x * y <= u128::MAX {
            Some((x * y) as u128)
        } else {
            None
        },
        _ => None,
    }
}

/// Larger of two bounds.
pub open spec fn opt_max(a: Option<u128>, b: Option<u128>) -> Option<u128> {
    match (a, b) {
        (Some(x), Some(y)) => Some(if x >= y { x } else { y }),
        _ => None,
    }
}

fn checked_add(a: Option<u128>, b: Option<u128>) -> (r: Option<u128>)
    ensures
        r == opt_add(a, b),
{
    match (a, b) {
        (Some(x), Some(y)) => x.checked_add(y),
        _ => None,
    }
}

fn checked_mul(a: Option<u128>, b: Option<u128>) -> (r: Option<u128>)
    ensures
        r == opt_mul(a, b),
{
    match (a, b) {
        (Some(x), Some(y)) => x.checked_mul(y),
        _ => None,
    }
}

fn option_max(a: Option<u128>, b: Option<u128>) -> (r: Option<u128>)
    ensures
        r == opt_max(a, b),
{
    match (a, b) {
        (Some(x), Some(y)) => Some(if x >= y { x } else { y }),
        _ => None,
    }
}

/// Structural bounds of a document, each `None` when it left `u128`.
#[derive(Clone, Copy, Debug, PartialEq, Eq, Structural)]
pub struct BoundCalc {
    /// Text bytes of the longest resolution.
    pub text_bytes: Option<u128>,
    /// Text columns of the widest resolution.
    pub display_columns: Option<u128>,
    /// Breaks of the resolution with most breaks.
    pub newlines: Option<u128>,
    /// Penalty of the most penalized resolution.
    pub penalty: Option<u128>,
    /// Tagged regions of the resolution with most of them.
    pub spans: Option<u128>,
    /// Deepest nesting.
    pub nest: Option<u128>,
    /// Deepest tag nesting.
    pub annotation_depth: Option<u128>,
    /// Layout nodes of the largest selected layout.
    pub plan_nodes: Option<u128>,
    /// Number of resolutions.
    pub derivations: Option<u128>,
    /// Subproblem interpretations of an exhaustive solve.
    pub interpretations: Option<u128>,
    /// Candidates an exact solve emits.
    pub emissions: Option<u128>,
    /// Fit decisions of a greedy solve.
    pub fit_checks: Option<u128>,
    /// Peak traversal stack of a greedy solve.
    pub fast_work: Option<u128>,
}

/// The bounds of a leaf.
pub open spec fn leaf_calc() -> BoundCalc {
    BoundCalc {
        text_bytes: Some(0),
        display_columns: Some(0),
        newlines: Some(0),
        penalty: Some(0),
        spans: Some(0),
        nest: Some(0),
        annotation_depth: Some(0),
        plan_nodes: Some(1),
        derivations: Some(1),
        interpretations: Some(1),
        emissions: Some(1),
        fit_checks: Some(0),
        fast_work: Some(1),
    }
}

/// The bounds of a node with one child.
pub open spec fn unary_calc(child: BoundCalc) -> BoundCalc {
    BoundCalc {
        interpretations: opt_add(Some(1), child.interpretations),
        emissions: opt_add(child.emissions, child.derivations),
        fast_work: opt_add(child.fast_work, Some(1)),
        ..child
    }
}

/// The bounds of a choice between two alternatives.
pub open spec fn maximum_calc(l: BoundCalc, r: BoundCalc) -> BoundCalc {
    BoundCalc {
        text_bytes: opt_max(l.text_bytes, r.text_bytes),
        display_columns: opt_max(l.display_columns, r.display_columns),
        newlines: opt_max(l.newlines, r.newlines),
        penalty: opt_max(l.penalty, r.penalty),
        spans: opt_max(l.spans, r.spans),
        nest: opt_max(l.nest, r.nest),
        annotation_depth: opt_max(l.annotation_depth, r.annotation_depth),
        plan_nodes: opt_max(l.plan_nodes, r.plan_nodes),
        derivations: opt_add(l.derivations, r.derivations),
        interpretations: opt_add(Some(1), opt_add(l.interpretations, r.interpretations)),
        emissions: opt_add(opt_add(l.emissions, r.emissions), opt_add(l.derivations, r.derivations)),
        fit_checks: opt_add(Some(1), opt_max(l.fit_checks, r.fit_checks)),
        fast_work: opt_add(opt_max(l.fast_work, r.fast_work), Some(1)),
    }
}

/// The bounds of `l` followed by `r` in a sequence.
pub open spec fn sequence_calc(l: BoundCalc, r: BoundCalc) -> BoundCalc {
    BoundCalc {
        text_bytes: opt_add(l.text_bytes, r.text_bytes),
        display_columns: opt_add(l.display_columns, r.display_columns),
        newlines: opt_add(l.newlines, r.newlines),
        penalty: opt_add(l.penalty, r.penalty),
        spans: opt_add(l.spans, r.spans),
        nest: opt_add(l.nest, r.nest),
        annotation_depth: opt_max(l.annotation_depth, r.annotation_depth),
        plan_nodes: opt_add(opt_add(l.plan_nodes, r.plan_nodes), Some(1)),
        derivations: opt_mul(l.derivations, r.derivations),
        interpretations: opt_add(l.interpretations, opt_mul(l.derivations, r.interpretations)),
        emissions: opt_add(
            l.emissions,
            opt_add(opt_mul(l.derivations, r.emissions), opt_mul(l.derivations, r.derivations)),
        ),
        fit_checks: opt_add(l.fit_checks, r.fit_checks),
        fast_work: opt_add(opt_max(l.fast_work, r.fast_work), Some(1)),
    }
}

/// The bounds of a two-element sequence.
pub open spec fn pair_calc(a: BoundCalc, b: BoundCalc) -> BoundCalc {
    let start = BoundCalc { plan_nodes: Some(0), emissions: Some(0), ..leaf_calc() };
    let both = sequence_calc(sequence_calc(start, a), b);
    BoundCalc {
        plan_nodes: opt_add(both.plan_nodes, Some(1)),
        fast_work: opt_add(both.fast_work, Some(2)),
        ..both
    }
}

/// The structural bounds of a document.
pub open spec fn bound_calc(d: DocModel) -> BoundCalc
    decreases d,
{
    match d {
        DocModel::Empty => leaf_calc(),
        DocModel::Text(t) => BoundCalc {
            text_bytes: if byte_offset(t.value, t.value.len() as int) <= u128::MAX {
                Some(byte_offset(t.value, t.value.len() as int) as u128)
            } else {
                None
            },
            display_columns: Some(t.columns as u128),
            ..leaf_calc()
        },
        DocModel::Line(_) => BoundCalc { newlines: Some(1), ..leaf_calc() },
        DocModel::Concat(a, b) => pair_calc(bound_calc(*a), bound_calc(*b)),
        DocModel::Nest(n, x) => {
            let v = unary_calc(bound_calc(*x));
            BoundCalc { nest: opt_add(v.nest, Some(n as u128)), ..v }
        },
        DocModel::Align(x) => unary_calc(bound_calc(*x)),
        DocModel::Choice(p, q) => maximum_calc(bound_calc(*p), bound_calc(*q)),
        DocModel::Tag(_, x) => {
            let v = unary_calc(bound_calc(*x));
            BoundCalc {
                spans: opt_add(v.spans, Some(1)),
                annotation_depth: opt_add(v.annotation_depth, Some(1)),
                plan_nodes: opt_add(v.plan_nodes, Some(1)),
                ..v
            }
        },
        DocModel::Penalty(amount, x) => {
            let v = unary_calc(bound_calc(*x));
            BoundCalc {
                penalty: opt_add(v.penalty, Some(amount as u128)),
                plan_nodes: opt_add(v.plan_nodes, Some(1)),
                ..v
            }
        },
    }
}

fn leaf() -> (r: BoundCalc)
    ensures
        r == leaf_calc(),
{
    BoundCalc {
        text_bytes: Some(0),
        display_columns: Some(0),
        newlines: Some(0),
        penalty: Some(0),
        spans: Some(0),
        nest: Some(0),
        annotation_depth: Some(0),
        plan_nodes: Some(1),
        derivations: Some(1),
        interpretations: Some(1),
        emissions: Some(1),
        fit_checks: Some(0),
        fast_work: Some(1),
    }
}

fn unary(child: BoundCalc) -> (r: BoundCalc)
    ensures
        r == unary_calc(child),
{
    BoundCalc {
        interpretations: checked_add(Some(1), child.interpretations),
        emissions: checked_add(child.emissions, child.derivations),
        fast_work: checked_add(child.fast_work, Some(1)),
        ..child
    }
}

fn maximum(l: BoundCalc, r: BoundCalc) -> (res: BoundCalc)
    ensures
        res == maximum_calc(l, r),
{
    BoundCalc {
        text_bytes: option_max(l.text_bytes, r.text_bytes),
        display_columns: option_max(l.display_columns, r.display_columns),
        newlines: option_max(l.newlines, r.newlines),
        penalty: option_max(l.penalty, r.penalty),
        spans: option_max(l.spans, r.spans),
        nest: option_max(l.nest, r.nest),
        annotation_depth: option_max(l.annotation_depth, r.annotation_depth),
        plan_nodes: option_max(l.plan_nodes, r.plan_nodes),
        derivations: checked_add(l.derivations, r.derivations),
        interpretations: checked_add(Some(1), checked_add(l.interpretations, r.interpretations)),
        emissions: checked_add(
            checked_add(l.emissions, r.emissions),
            checked_add(l.derivations, r.derivations),
        ),
        fit_checks: checked_add(Some(1), option_max(l.fit_checks, r.fit_checks)),
        fast_work: checked_add(option_max(l.fast_work, r.fast_work), Some(1)),
    }
}

fn sequence_step(l: BoundCalc, r: BoundCalc) -> (res: BoundCalc)
    ensures
        res == sequence_calc(l, r),
{
    BoundCalc {
        text_bytes: checked_add(l.text_bytes, r.text_bytes),
        display_columns: checked_add(l.display_columns, r.display_columns),
        newlines: checked_add(l.newlines, r.newlines),
        penalty: checked_add(l.penalty, r.penalty),
        spans: checked_add(l.spans, r.spans),
        nest: checked_add(l.nest, r.nest),
        annotation_depth: option_max(l.annotation_depth, r.annotation_depth),
        plan_nodes: checked_add(checked_add(l.plan_nodes, r.plan_nodes), Some(1)),
        derivations: checked_mul(l.derivations, r.derivations),
        interpretations: checked_add(l.interpretations, checked_mul(l.derivations, r.interpretations)),
        emissions: checked_add(
            l.emissions,
            checked_add(checked_mul(l.derivations, r.emissions), checked_mul(l.derivations, r.derivations)),
        ),
        fit_checks: checked_add(l.fit_checks, r.fit_checks),
        fast_work: checked_add(option_max(l.fast_work, r.fast_work), Some(1)),
    }
}

/// The structural bounds of `d`.
/// Every entry of `cache` holds the bounds of its document.
spec fn bounds_cached(cache: Seq<(Rc<Doc>, BoundCalc)>) -> bool {
    forall|i: int| 0 <= i < cache.len() ==> (#[trigger] cache[i]).1 == bound_calc(cache[i].0@)
}

/// The bounds cached for the allocation of `d`, if any.
fn cached_bounds(d: &Rc<Doc>, cache: &Vec<(Rc<Doc>, BoundCalc)>) -> (r: Option<BoundCalc>)
    requires
        bounds_cached(cache@),
    ensures
        r matches Some(b) ==> b == bound_calc(d@),
{
    let mut i: usize = 0;
    while i < cache.len()
        invariant
            0 <= i <= cache.len(),
            bounds_cached(cache@),
        decreases cache.len() - i,
    {
        if crate::same_allocation(&cache[i].0, d) {
            return Some(cache[i].1);
        }
        i = i + 1;
    }
    None
}

/// The structural bounds of `d`; a subdocument shared by several handles
/// is measured once and its bounds are reused.
fn compute_bounds(d: &Rc<Doc>, cache: &mut Vec<(Rc<Doc>, BoundCalc)>) -> (r: BoundCalc)
    requires
        bounds_cached(old(cache)@),
    ensures
        r == bound_calc(d@),
        bounds_cached(final(cache)@),
    decreases *d,
{
    let shared = crate::handle_count(d) > 1;
    if shared {
        match cached_bounds(d, cache) {
            Some(b) => {
                return b;
            },
            None => {},
        }
    }
    let r = match &**d {
        Doc::Empty => leaf(),
        Doc::Text(run) => BoundCalc {
            text_bytes: Some(run.byte_len() as u128),
            display_columns: Some(run.columns() as u128),
            ..leaf()
        },
        Doc::Line { .. } => BoundCalc { newlines: Some(1), ..leaf() },
        Doc::Concat(a, b) => {
            let ba = compute_bounds(a, cache);
            let bb = compute_bounds(b, cache);
            let start = BoundCalc { plan_nodes: Some(0), emissions: Some(0), ..leaf() };
            let both = sequence_step(sequence_step(start, ba), bb);
            BoundCalc {
                plan_nodes: checked_add(both.plan_nodes, Some(1)),
                fast_work: checked_add(both.fast_work, Some(2)),
                ..both
            }
        },
        Doc::Nest(n, x) => {
            let v = unary(compute_bounds(x, cache));
            BoundCalc { nest: checked_add(v.nest, Some(*n as u128)), ..v }
        },
        Doc::Align(x) => unary(compute_bounds(x, cache)),
        Doc::Choice(p, q) => maximum(compute_bounds(p, cache), compute_bounds(q, cache)),
        Doc::Tag(_, x) => {
            let v = unary(compute_bounds(x, cache));
            BoundCalc {
                spans: checked_add(v.spans, Some(1)),
                annotation_depth: checked_add(v.annotation_depth, Some(1)),
                plan_nodes: checked_add(v.plan_nodes, Some(1)),
                ..v
            }
        },
        Doc::Penalty { amount, doc } => {
            let v = unary(compute_bounds(doc, cache));
            BoundCalc {
                penalty: checked_add(v.penalty, Some(*amount as u128)),
                plan_nodes: checked_add(v.plan_nodes, Some(1)),
                ..v
            }
        },
    };
    if shared {
        cache.push((crate::share(d), r));
    }
    r
}


/// A prepared representation resource.
#[derive(Clone, Copy, Debug, PartialEq, Eq, Structural, Hash)]
#[non_exhaustive]
pub enum PreparedResource {
    /// Prepared nodes.
    Nodes,
    /// Child edges.
    Edges,
    /// Interned text records.
    Texts,
    /// Annotation handles.
    Annotations,
    /// UTF-8 text payload bytes.
    TextBytes,
    /// Display-column sums.
    DisplayColumns,
    /// Materialized output bytes.
    OutputBytes,
    /// Materialized line count.
    LineCount,
    /// Structural indentation.
    Indentation,
    /// Simultaneously active annotations.
    AnnotationDepth,
    /// Materialized span occurrences.
    SpanOccurrences,
    /// Selected-layout node identifiers.
    PlanNodes,
}

/// A cost component checked during preparation.
#[derive(Clone, Copy, Debug, PartialEq, Eq, Structural, Hash)]
#[non_exhaustive]
pub enum CostComponent {
    /// Squared horizontal overflow.
    Overflow,
    /// Newline-and-penalty burden.
    Burden,
}

/// Failure while preparing a document for repeated solving.
#[derive(Clone, Copy, Debug, PartialEq, Eq, Structural)]
pub enum PrepareError {
    /// A prepared representation bound cannot be represented.
    RepresentationExceeded {
        /// Resource whose bound failed.
        resource: PreparedResource,
        /// Exact requirement, or `None` if its calculation overflowed.
        required: Option<u128>,
        /// Largest representable value.
        maximum: u128,
    },
    /// A complete layout can exceed the checked cost domain.
    CostDomainExceeded {
        /// Cost component whose bound failed.
        component: CostComponent,
        /// Exact requirement, or `None` if its calculation overflowed.
        required: Option<u128>,
        /// Largest representable value.
        maximum: u128,
    },
}

/// Stable category for a [`PrepareError`].
#[derive(Clone, Copy, Debug, PartialEq, Eq, Structural, Hash)]
#[non_exhaustive]
pub enum PrepareErrorKind {
    /// Prepared representation was not representable.
    RepresentationExceeded,
    /// Layout cost was not representable.
    CostDomainExceeded,
}

impl PrepareError {
    /// The stable error category.
    pub fn kind(&self) -> (r: PrepareErrorKind)
        ensures
            r == (match *self {
                PrepareError::RepresentationExceeded { .. } => PrepareErrorKind::RepresentationExceeded,
                PrepareError::CostDomainExceeded { .. } => PrepareErrorKind::CostDomainExceeded,
            }),
    {
        match self {
            PrepareError::RepresentationExceeded { .. } => PrepareErrorKind::RepresentationExceeded,
            PrepareError::CostDomainExceeded { .. } => PrepareErrorKind::CostDomainExceeded,
        }
    }
}

/// Conservative, width-independent bounds computed during preparation.
#[derive(Clone, Copy, Debug, PartialEq, Eq, Structural)]
pub struct PreparedBounds {
    output_bytes_upper: usize,
    line_count_upper: usize,
    spans_upper: usize,
    annotation_depth: usize,
    fast_work_items: usize,
    solve_work_items_upper: Option<u128>,
    fast_fit_checks_upper: Option<u128>,
    single_plan_nodes_upper: usize,
    visit_work_items: usize,
    candidate_emissions_upper: Option<u128>,
    overflow_cost_upper: u128,
    burden_cost_upper: u64,
}

/// The content of prepared bounds.
pub struct BoundsModel {
    /// Maximum output bytes.
    pub output_bytes_upper: usize,
    /// Maximum line count.
    pub line_count_upper: usize,
    /// Maximum span count.
    pub spans_upper: usize,
    /// Maximum tag nesting.
    pub annotation_depth: usize,
    /// Greedy traversal stack requirement.
    pub fast_work_items: usize,
    /// Solve work bound when representable.
    pub solve_work_items_upper: Option<u128>,
    /// Greedy decision bound when representable.
    pub fast_fit_checks_upper: Option<u128>,
    /// Maximum selected-layout nodes.
    pub single_plan_nodes_upper: usize,
    /// Layout visitor stack requirement.
    pub visit_work_items: usize,
    /// Exact candidate emission bound when representable.
    pub candidate_emissions_upper: Option<u128>,
    /// Maximum squared overflow.
    pub overflow_cost_upper: u128,
    /// Maximum burden.
    pub burden_cost_upper: u64,
}

impl View for PreparedBounds {
    type V = BoundsModel;

    closed spec fn view(&self) -> BoundsModel {
        BoundsModel {
            output_bytes_upper: self.output_bytes_upper,
            line_count_upper: self.line_count_upper,
            spans_upper: self.spans_upper,
            annotation_depth: self.annotation_depth,
            fast_work_items: self.fast_work_items,
            solve_work_items_upper: self.solve_work_items_upper,
            fast_fit_checks_upper: self.fast_fit_checks_upper,
            single_plan_nodes_upper: self.single_plan_nodes_upper,
            visit_work_items: self.visit_work_items,
            candidate_emissions_upper: self.candidate_emissions_upper,
            overflow_cost_upper: self.overflow_cost_upper,
            burden_cost_upper: self.burden_cost_upper,
        }
    }
}

impl PreparedBounds {
    /// Maximum materialized UTF-8 bytes for one layout.
    pub fn output_bytes_upper(self) -> (r: usize)
        ensures
            r == self@.output_bytes_upper,
    {
        self.output_bytes_upper
    }

    /// Maximum materialized line count for one layout.
    pub fn line_count_upper(self) -> (r: usize)
        ensures
            r == self@.line_count_upper,
    {
        self.line_count_upper
    }

    /// Maximum materialized annotation spans for one layout.
    pub fn spans_upper(self) -> (r: usize)
        ensures
            r == self@.spans_upper,
    {
        self.spans_upper
    }

    /// Maximum simultaneously active annotations.
    pub fn annotation_depth(self) -> (r: usize)
        ensures
            r == self@.annotation_depth,
    {
        self.annotation_depth
    }

    /// Peak greedy traversal stack requirement.
    pub fn fast_work_items(self) -> (r: usize)
        ensures
            r == self@.fast_work_items,
    {
        self.fast_work_items
    }

    /// Conservative solve-work upper bound when representable.
    pub fn solve_work_items_upper(self) -> (r: Option<u128>)
        ensures
            r == self@.solve_work_items_upper,
    {
        self.solve_work_items_upper
    }

    /// Conservative greedy decision upper bound when representable.
    pub fn fast_fit_checks_upper(self) -> (r: Option<u128>)
        ensures
            r == self@.fast_fit_checks_upper,
    {
        self.fast_fit_checks_upper
    }

    /// Maximum selected-layout nodes in one layout.
    pub fn single_plan_nodes_upper(self) -> (r: usize)
        ensures
            r == self@.single_plan_nodes_upper,
    {
        self.single_plan_nodes_upper
    }

    /// Selected-layout visitor stack requirement.
    pub fn visit_work_items(self) -> (r: usize)
        ensures
            r == self@.visit_work_items,
    {
        self.visit_work_items
    }

    /// Conservative exact candidate-emission upper bound when representable.
    pub fn candidate_emissions_upper(self) -> (r: Option<u128>)
        ensures
            r == self@.candidate_emissions_upper,
    {
        self.candidate_emissions_upper
    }

    /// Maximum squared-overflow cost of a complete layout.
    pub fn overflow_cost_upper(self) -> (r: u128)
        ensures
            r == self@.overflow_cost_upper,
    {
        self.overflow_cost_upper
    }

    /// Maximum newline-and-penalty burden of a complete layout.
    pub fn burden_cost_upper(self) -> (r: u64)
        ensures
            r == self@.burden_cost_upper,
    {
        self.burden_cost_upper
    }
}

/// The largest value each prepared bound may take.
#[derive(Clone, Copy, Debug, PartialEq, Eq, Structural)]
pub struct BoundLimits {
    /// Text bytes.
    pub text_bytes: u128,
    /// Display columns.
    pub display_columns: u128,
    /// Indentation.
    pub indentation: u128,
    /// Breaks.
    pub newlines: u128,
    /// Span occurrences.
    pub spans: u128,
    /// Tag nesting.
    pub annotation_depth: u128,
    /// Selected-layout nodes.
    pub plan_nodes: u128,
    /// Output bytes.
    pub output_bytes: u128,
    /// Line count.
    pub line_count: u128,
    /// Squared overflow.
    pub overflow_cost: u128,
    /// Burden.
    pub burden_cost: u128,
}

/// The production limits: what the machine's integers represent.
pub open spec fn production_limits() -> BoundLimits {
    BoundLimits {
        text_bytes: usize::MAX as u128,
        display_columns: u32::MAX as u128,
        indentation: u32::MAX as u128,
        newlines: usize::MAX as u128,
        spans: u32::MAX as u128,
        annotation_depth: usize::MAX as u128,
        plan_nodes: u32::MAX as u128,
        output_bytes: usize::MAX as u128,
        line_count: usize::MAX as u128,
        overflow_cost: u128::MAX,
        burden_cost: u64::MAX as u128,
    }
}

impl BoundLimits {
    /// The production limits.
    pub fn production() -> (r: Self)
        ensures
            r == production_limits(),
    {
        BoundLimits {
            text_bytes: usize::MAX as u128,
            display_columns: u32::MAX as u128,
            indentation: u32::MAX as u128,
            newlines: usize::MAX as u128,
            spans: u32::MAX as u128,
            annotation_depth: usize::MAX as u128,
            plan_nodes: u32::MAX as u128,
            output_bytes: usize::MAX as u128,
            line_count: usize::MAX as u128,
            overflow_cost: u128::MAX,
            burden_cost: u64::MAX as u128,
        }
    }
}

/// The representation error for `resource`.
pub open spec fn representation(resource: PreparedResource, required: Option<u128>, maximum: u128) -> PrepareError {
    PrepareError::RepresentationExceeded { resource, required, maximum }
}

/// The cost-domain error for `component`.
pub open spec fn cost_error(component: CostComponent, required: Option<u128>, maximum: u128) -> PrepareError {
    PrepareError::CostDomainExceeded { component, required, maximum }
}

/// Checks the structural bounds `v` against `limits` and derives the
/// prepared bounds: every computed quantity must exist and fit its limit;
/// a column is the text columns plus the indentation, an output has
/// `newlines` lines of at most `column + 1` bytes beyond its text, the
/// burden charges each newline at most `u32::MAX` plus the penalties, and
/// the overflow is at most `column` squared per line.
pub open spec fn spec_finish(v: BoundCalc, limits: BoundLimits) -> Result<BoundsModel, PrepareError> {
    if v.text_bytes is None {
        Err(representation(PreparedResource::TextBytes, None, limits.text_bytes))
    } else if v.display_columns is None {
        Err(representation(PreparedResource::DisplayColumns, None, limits.display_columns))
    } else if v.nest is None {
        Err(representation(PreparedResource::Indentation, None, limits.indentation))
    } else if v.newlines is None {
        Err(representation(PreparedResource::LineCount, None, limits.newlines))
    } else if v.spans is None {
        Err(representation(PreparedResource::SpanOccurrences, None, limits.spans))
    } else if v.annotation_depth is None {
        Err(representation(PreparedResource::AnnotationDepth, None, limits.annotation_depth))
    } else if v.plan_nodes is None {
        Err(representation(PreparedResource::PlanNodes, None, limits.plan_nodes))
    } else if v.fast_work is None {
        Err(representation(PreparedResource::PlanNodes, None, usize::MAX as u128))
    } else if v.penalty is None {
        Err(cost_error(CostComponent::Burden, None, limits.burden_cost))
    } else {
        let text_bytes = v.text_bytes.unwrap() as int;
        let display = v.display_columns.unwrap() as int;
        let nest = v.nest.unwrap() as int;
        let newlines = v.newlines.unwrap() as int;
        let spans = v.spans.unwrap() as int;
        let depth = v.annotation_depth.unwrap() as int;
        let plan = v.plan_nodes.unwrap() as int;
        let fast_work = v.fast_work.unwrap() as int;
        let penalty = v.penalty.unwrap() as int;
        let column = display + nest;
        if column > u128::MAX {
            Err(representation(PreparedResource::Indentation, None, limits.indentation))
        } else if column > limits.display_columns {
            Err(representation(PreparedResource::DisplayColumns, Some(column as u128), limits.display_columns))
        } else if newlines + 1 > u128::MAX {
            Err(representation(PreparedResource::LineCount, None, limits.line_count))
        } else if column + 1 > u128::MAX || newlines * (column + 1) > u128::MAX || text_bytes + newlines * (
        column + 1) > u128::MAX {
            Err(representation(PreparedResource::OutputBytes, None, limits.output_bytes))
        } else if text_bytes + newlines * (column + 1) > limits.output_bytes {
            Err(
                representation(
                    PreparedResource::OutputBytes,
                    Some((text_bytes + newlines * (column + 1)) as u128),
                    limits.output_bytes,
                ),
            )
        } else if newlines + 1 > limits.line_count {
            Err(representation(PreparedResource::LineCount, Some((newlines + 1) as u128), limits.line_count))
        } else if spans > limits.spans {
            Err(representation(PreparedResource::SpanOccurrences, Some(spans as u128), limits.spans))
        } else if depth > limits.annotation_depth {
            Err(representation(PreparedResource::AnnotationDepth, Some(depth as u128), limits.annotation_depth))
        } else if plan > limits.plan_nodes {
            Err(representation(PreparedResource::PlanNodes, Some(plan as u128), limits.plan_nodes))
        } else if newlines * u32::MAX > u128::MAX || newlines * u32::MAX + penalty > u128::MAX {
            Err(cost_error(CostComponent::Burden, None, limits.burden_cost))
        } else if newlines * u32::MAX + penalty > limits.burden_cost {
            Err(cost_error(CostComponent::Burden, Some((newlines * u32::MAX + penalty) as u128), limits.burden_cost))
        } else if (newlines + 1) * column > u128::MAX || (newlines + 1) * column * column > u128::MAX {
            Err(cost_error(CostComponent::Overflow, None, limits.overflow_cost))
        } else if (newlines + 1) * column * column > limits.overflow_cost {
            Err(
                cost_error(
                    CostComponent::Overflow,
                    Some(((newlines + 1) * column * column) as u128),
                    limits.overflow_cost,
                ),
            )
        } else {
            Ok(
                BoundsModel {
                    output_bytes_upper: (text_bytes + newlines * (column + 1)) as usize,
                    line_count_upper: (newlines + 1) as usize,
                    spans_upper: spans as usize,
                    annotation_depth: depth as usize,
                    fast_work_items: fast_work as usize,
                    solve_work_items_upper: opt_add(v.interpretations, v.emissions),
                    fast_fit_checks_upper: v.fit_checks,
                    single_plan_nodes_upper: plan as usize,
                    visit_work_items: plan as usize,
                    candidate_emissions_upper: v.emissions,
                    overflow_cost_upper: ((newlines + 1) * column * column) as u128,
                    burden_cost_upper: (newlines * u32::MAX + penalty) as u64,
                },
            )
        }
    }
}


fn representation_error(resource: PreparedResource, required: Option<u128>, maximum: u128) -> (r: PrepareError)
    ensures
        r == representation(resource, required, maximum),
{
    PrepareError::RepresentationExceeded { resource, required, maximum }
}

fn domain_error(component: CostComponent, required: Option<u128>, maximum: u128) -> (r: PrepareError)
    ensures
        r == cost_error(component, required, maximum),
{
    PrepareError::CostDomainExceeded { component, required, maximum }
}

fn required_bound(value: Option<u128>, resource: PreparedResource, maximum: u128) -> (r: Result<u128, PrepareError>)
    ensures
        match value {
            Some(v) => r == Ok::<u128, PrepareError>(v),
            None => r == Err::<u128, PrepareError>(representation(resource, None, maximum)),
        },
{
    match value {
        Some(v) => Ok(v),
        None => Err(representation_error(resource, None, maximum)),
    }
}

fn require_at_most(resource: PreparedResource, required: u128, maximum: u128) -> (r: Result<(), PrepareError>)
    ensures
        required > maximum ==> r == Err::<(), PrepareError>(representation(resource, Some(required), maximum)),
        required <= maximum ==> r is Ok,
{
    if required > maximum {
        Err(representation_error(resource, Some(required), maximum))
    } else {
        Ok(())
    }
}

/// Checks structural bounds against limits and derives the prepared bounds.
fn finish_bounds_with_limits(value: BoundCalc, limits: BoundLimits) -> (r: Result<PreparedBounds, PrepareError>)
    ensures
        match spec_finish(value, limits) {
            Ok(b) => r matches Ok(bounds) && bounds@ == b,
            Err(e) => r == Err::<PreparedBounds, PrepareError>(e),
        },
{
    let text_bytes = required_bound(value.text_bytes, PreparedResource::TextBytes, limits.text_bytes)?;
    let display_columns = required_bound(
        value.display_columns,
        PreparedResource::DisplayColumns,
        limits.display_columns,
    )?;
    let nest = required_bound(value.nest, PreparedResource::Indentation, limits.indentation)?;
    let newlines = required_bound(value.newlines, PreparedResource::LineCount, limits.newlines)?;
    let spans = required_bound(value.spans, PreparedResource::SpanOccurrences, limits.spans)?;
    let annotation_depth = required_bound(
        value.annotation_depth,
        PreparedResource::AnnotationDepth,
        limits.annotation_depth,
    )?;
    let plan_nodes = required_bound(value.plan_nodes, PreparedResource::PlanNodes, limits.plan_nodes)?;
    let fast_work = required_bound(value.fast_work, PreparedResource::PlanNodes, usize::MAX as u128)?;
    let penalty = match value.penalty {
        Some(p) => p,
        None => {
            return Err(domain_error(CostComponent::Burden, None, limits.burden_cost));
        },
    };
    let column = match display_columns.checked_add(nest) {
        Some(c) => c,
        None => {
            return Err(representation_error(PreparedResource::Indentation, None, limits.indentation));
        },
    };
    require_at_most(PreparedResource::DisplayColumns, column, limits.display_columns)?;
    let line_count = match newlines.checked_add(1) {
        Some(c) => c,
        None => {
            return Err(representation_error(PreparedResource::LineCount, None, limits.line_count));
        },
    };
    let column_plus_one = match column.checked_add(1) {
        Some(c) => c,
        None => {
            return Err(representation_error(PreparedResource::OutputBytes, None, limits.output_bytes));
        },
    };
    let extra = match newlines.checked_mul(column_plus_one) {
        Some(e) => e,
        None => {
            return Err(representation_error(PreparedResource::OutputBytes, None, limits.output_bytes));
        },
    };
    let output = match text_bytes.checked_add(extra) {
        Some(o) => o,
        None => {
            return Err(representation_error(PreparedResource::OutputBytes, None, limits.output_bytes));
        },
    };
    require_at_most(PreparedResource::OutputBytes, output, limits.output_bytes)?;
    require_at_most(PreparedResource::LineCount, line_count, limits.line_count)?;
    require_at_most(PreparedResource::SpanOccurrences, spans, limits.spans)?;
    require_at_most(PreparedResource::AnnotationDepth, annotation_depth, limits.annotation_depth)?;
    require_at_most(PreparedResource::PlanNodes, plan_nodes, limits.plan_nodes)?;
    let newline_burden = match newlines.checked_mul(u32::MAX as u128) {
        Some(b) => b,
        None => {
            return Err(domain_error(CostComponent::Burden, None, limits.burden_cost));
        },
    };
    let burden = match newline_burden.checked_add(penalty) {
        Some(b) => b,
        None => {
            return Err(domain_error(CostComponent::Burden, None, limits.burden_cost));
        },
    };
    if burden > limits.burden_cost {
        return Err(domain_error(CostComponent::Burden, Some(burden), limits.burden_cost));
    }
    let area = match line_count.checked_mul(column) {
        Some(a) => a,
        None => {
            return Err(domain_error(CostComponent::Overflow, None, limits.overflow_cost));
        },
    };
    let overflow = match area.checked_mul(column) {
        Some(o) => o,
        None => {
            return Err(domain_error(CostComponent::Overflow, None, limits.overflow_cost));
        },
    };
    if overflow > limits.overflow_cost {
        return Err(domain_error(CostComponent::Overflow, Some(overflow), limits.overflow_cost));
    }
    Ok(
        PreparedBounds {
            output_bytes_upper: output as usize,
            line_count_upper: line_count as usize,
            spans_upper: spans as usize,
            annotation_depth: annotation_depth as usize,
            fast_work_items: fast_work as usize,
            solve_work_items_upper: checked_add(value.interpretations, value.emissions),
            fast_fit_checks_upper: value.fit_checks,
            single_plan_nodes_upper: plan_nodes as usize,
            visit_work_items: plan_nodes as usize,
            candidate_emissions_upper: value.emissions,
            overflow_cost_upper: overflow,
            burden_cost_upper: burden as u64,
        },
    )
}

/// The tags of a document in preorder.
pub open spec fn tags_of(d: DocModel) -> Seq<TagId>
    decreases d,
{
    match d {
        DocModel::Concat(a, b) => tags_of(*a) + tags_of(*b),
        DocModel::Choice(a, b) => tags_of(*a) + tags_of(*b),
        DocModel::Nest(_, x) | DocModel::Align(x) | DocModel::Penalty(_, x) => tags_of(*x),
        DocModel::Tag(t, x) => seq![t] + tags_of(*x),
        _ => seq![],
    }
}

/// `acc` followed by the elements of `s` it does not hold yet, each once,
/// in first-occurrence order.
pub open spec fn add_new(acc: Seq<TagId>, s: Seq<TagId>) -> Seq<TagId>
    decreases s.len(),
{
    if s.len() == 0 {
        acc
    } else if acc.contains(s[0]) {
        add_new(acc, s.drop_first())
    } else {
        add_new(acc.push(s[0]), s.drop_first())
    }
}

/// Adding a concatenation adds its parts in turn.
proof fn lemma_add_new_append(acc: Seq<TagId>, a: Seq<TagId>, b: Seq<TagId>)
    ensures
        add_new(acc, a + b) == add_new(add_new(acc, a), b),
    decreases a.len(),
{
    if a.len() == 0 {
        assert(a + b =~= b);
    } else {
        assert((a + b).drop_first() =~= a.drop_first() + b);
        assert((a + b)[0] == a[0]);
        if acc.contains(a[0]) {
            lemma_add_new_append(acc, a.drop_first(), b);
        } else {
            lemma_add_new_append(acc.push(a[0]), a.drop_first(), b);
        }
    }
}

fn contains_tag(v: &Vec<TagId>, t: TagId) -> (r: bool)
    ensures
        r == v@.contains(t),
{
    let mut i: usize = 0;
    while i < v.len()
        invariant
            i <= v@.len(),
            forall|j: int| 0 <= j < i ==> v@[j] != t,
        decreases v@.len() - i,
    {
        if v[i] == t {
            assert(v@[i as int] == t);
            return true;
        }
        i = i + 1;
    }
    false
}

/// Adds the tags of `d` that `acc` does not hold yet.
/// Every tag of every document in `seen` is in `acc`.
spec fn tags_seen(seen: Seq<Rc<Doc>>, acc: Seq<TagId>) -> bool {
    forall|i: int, j: int|
        0 <= i < seen.len() && 0 <= j < tags_of(seen[i]@).len() ==> acc.contains(#[trigger] tags_of(seen[i]@)[j])
}

/// Adding what is already there changes nothing.
proof fn lemma_add_new_known(acc: Seq<TagId>, s: Seq<TagId>)
    requires
        forall|j: int| 0 <= j < s.len() ==> acc.contains(#[trigger] s[j]),
    ensures
        add_new(acc, s) == acc,
    decreases s.len(),
{
    if s.len() > 0 {
        assert(acc.contains(s[0]));
        assert forall|j: int| 0 <= j < s.drop_first().len() implies acc.contains(#[trigger] s.drop_first()[j]) by {
            assert(s.drop_first()[j] == s[j + 1]);
        }
        lemma_add_new_known(acc, s.drop_first());
    }
}

/// Adding keeps what was there and holds everything added.
pub proof fn lemma_add_new_covers(acc: Seq<TagId>, s: Seq<TagId>)
    ensures
        forall|y: TagId| acc.contains(y) ==> #[trigger] add_new(acc, s).contains(y),
        forall|j: int| 0 <= j < s.len() ==> add_new(acc, s).contains(#[trigger] s[j]),
    decreases s.len(),
{
    if s.len() > 0 {
        let next = if acc.contains(s[0]) {
            acc
        } else {
            acc.push(s[0])
        };
        assert forall|y: TagId| acc.contains(y) implies next.contains(y) by {
            if !acc.contains(s[0]) {
                let k = choose|k: int| 0 <= k < acc.len() && acc[k] == y;
                assert(next[k] == y);
            }
        }
        if !acc.contains(s[0]) {
            assert(next[acc.len() as int] == s[0]);
        }
        assert(next.contains(s[0]));
        assert(add_new(acc, s) == add_new(next, s.drop_first()));
        lemma_add_new_covers(next, s.drop_first());
        assert forall|y: TagId| acc.contains(y) implies #[trigger] add_new(acc, s).contains(y) by {
            assert(next.contains(y));
        }
        assert forall|j: int| 0 <= j < s.len() implies add_new(acc, s).contains(#[trigger] s[j]) by {
            if j > 0 {
                assert(s.drop_first()[j - 1] == s[j]);
            } else {
                assert(next.contains(s[0]));
            }
        }
    }
}

/// Whether the allocation of `d` is in `seen`.
fn seen_before(d: &Rc<Doc>, seen: &Vec<Rc<Doc>>) -> (r: bool)
    ensures
        r ==> exists|i: int| 0 <= i < seen@.len() && seen@[i] == *d,
{
    let mut i: usize = 0;
    while i < seen.len()
        invariant
            0 <= i <= seen.len(),
        decreases seen.len() - i,
    {
        if crate::same_allocation(&seen[i], d) {
            return true;
        }
        i = i + 1;
    }
    false
}

/// Adds the tags of `d` to `acc`, new ones in first-occurrence order; a
/// subdocument shared by several handles is walked once.
fn collect_tags(d: &Rc<Doc>, acc: Vec<TagId>, seen: &mut Vec<Rc<Doc>>) -> (r: Vec<TagId>)
    requires
        tags_seen(old(seen)@, acc@),
    ensures
        r@ == add_new(acc@, tags_of(d@)),
        tags_seen(final(seen)@, r@),
    decreases *d, 1nat,
{
    let shared = crate::handle_count(d) > 1;
    if shared && seen_before(d, seen) {
        proof {
            let i = choose|i: int| 0 <= i < seen@.len() && seen@[i] == *d;
            assert forall|j: int| 0 <= j < tags_of(d@).len() implies acc@.contains(#[trigger] tags_of(d@)[j]) by {
                assert(tags_of(seen@[i]@)[j] == tags_of(d@)[j]);
            }
            lemma_add_new_known(acc@, tags_of(d@));
        }
        return acc;
    }
    let ghost start = acc@;
    let r = collect_node(d, acc, seen);
    if shared {
        proof {
            lemma_add_new_covers(start, tags_of(d@));
        }
        let ghost before = seen@;
        seen.push(crate::share(d));
        assert forall|i: int, j: int|
            0 <= i < seen@.len() && 0 <= j < tags_of(seen@[i]@).len() implies r@.contains(
            #[trigger] tags_of(seen@[i]@)[j],
        ) by {
            if i < before.len() {
                assert(seen@[i] == before[i]);
            }
        }
    }
    r
}

/// [`collect_tags`] on the node of `d` itself.
fn collect_node(d: &Rc<Doc>, acc: Vec<TagId>, seen: &mut Vec<Rc<Doc>>) -> (r: Vec<TagId>)
    requires
        tags_seen(old(seen)@, acc@),
    ensures
        r@ == add_new(acc@, tags_of(d@)),
        tags_seen(final(seen)@, r@),
    decreases *d, 0nat,
{
    match &**d {
        Doc::Concat(a, b) => {
            proof {
                lemma_add_new_append(acc@, tags_of(a@), tags_of(b@));
            }
            let mid = collect_tags(a, acc, seen);
            collect_tags(b, mid, seen)
        },
        Doc::Choice(a, b) => {
            proof {
                lemma_add_new_append(acc@, tags_of(a@), tags_of(b@));
            }
            let mid = collect_tags(a, acc, seen);
            collect_tags(b, mid, seen)
        },
        Doc::Nest(_, x) | Doc::Align(x) => collect_tags(x, acc, seen),
        Doc::Penalty { doc: x, .. } => collect_tags(x, acc, seen),
        Doc::Tag(t, x) => {
            let ghost start = acc@;
            proof {
                lemma_add_new_append(start, seq![*t], tags_of(x@));
                assert(seq![*t].drop_first() =~= Seq::<TagId>::empty());
                assert(tags_of(d@) == seq![*t] + tags_of(x@));
                assert(seq![*t][0] == *t);
            }
            let mut next = acc;
            if !contains_tag(&next, *t) {
                next.push(*t);
                assert(add_new(start, seq![*t]) == add_new(start.push(*t), Seq::<TagId>::empty()));
                assert(add_new(start.push(*t), Seq::<TagId>::empty()) == start.push(*t));
            } else {
                assert(add_new(start, seq![*t]) == add_new(start, Seq::<TagId>::empty()));
                assert(add_new(start, Seq::<TagId>::empty()) == start);
            }
            assert(next@ == add_new(start, seq![*t]));
            proof {
                lemma_add_new_covers(start, seq![*t]);
            }
            collect_tags(x, next, seen)
        },
        _ => {
            assert(tags_of(d@) =~= Seq::<TagId>::empty());
            acc
        },
    }
}

/// A document checked against the domain limits, with its bounds and its
/// distinct tags in first-occurrence order.
#[derive(Debug)]
pub struct PreparedDoc {
    doc: Rc<Doc>,
    bounds: PreparedBounds,
    tags: Vec<TagId>,
    summaries: Rc<SumTree>,
}

impl Clone for PreparedDoc {
    /// A copy sharing the document and its summaries.
    fn clone(&self) -> (r: Self)
        ensures
            r.spec_doc() == self.spec_doc(),
            r.spec_bounds() == self.spec_bounds(),
            r.spec_tags() == self.spec_tags(),
    {
        proof {
            use_type_invariant(self);
        }
        let mut tags: Vec<TagId> = Vec::new();
        let mut i: usize = 0;
        while i < self.tags.len()
            invariant
                i <= self.tags@.len(),
                tags@ == self.tags@.take(i as int),
            decreases self.tags@.len() - i,
        {
            tags.push(self.tags[i]);
            assert(self.tags@.take(i + 1) == self.tags@.take(i as int).push(self.tags@[i as int]));
            i = i + 1;
        }
        assert(self.tags@.take(self.tags@.len() as int) == self.tags@);
        PreparedDoc {
            doc: crate::share(&self.doc),
            bounds: self.bounds,
            tags,
            summaries: crate::share(&self.summaries),
        }
    }
}

impl PreparedDoc {
    /// The summary tree describes the document.
    #[verifier::type_invariant]
    spec fn summarized(&self) -> bool {
        summarizes_doc(*self.summaries, self.doc@)
    }

    /// The first-stop summaries of the document's nodes, in its shape.
    pub fn summaries(&self) -> (r: &Rc<SumTree>)
        ensures
            summarizes_doc(**r, self.spec_doc()),
    {
        proof {
            use_type_invariant(self);
        }
        &self.summaries
    }

    /// The prepared document.
    pub closed spec fn spec_doc(&self) -> DocModel {
        self.doc@
    }

    /// The bounds computed during preparation.
    pub closed spec fn spec_bounds(&self) -> BoundsModel {
        self.bounds@
    }

    /// The distinct tags in first-occurrence order.
    pub closed spec fn spec_tags(&self) -> Seq<TagId> {
        self.tags@
    }

    /// The prepared document.
    pub fn doc(&self) -> (r: &Rc<Doc>)
        ensures
            r@ == self.spec_doc(),
    {
        &self.doc
    }

    /// The bounds computed during preparation.
    pub fn bounds(&self) -> (r: PreparedBounds)
        ensures
            r@ == self.spec_bounds(),
    {
        self.bounds
    }

    /// The number of distinct tags.
    pub fn annotation_count(&self) -> (r: usize)
        ensures
            r == self.spec_tags().len(),
    {
        self.tags.len()
    }

    /// The tag of a result-local annotation identifier.
    pub fn annotation(&self, id: AnnotationId) -> (r: Option<TagId>)
        ensures
            r == (if id.0 < self.spec_tags().len() {
                Some(self.spec_tags()[id.0 as int])
            } else {
                None
            }),
    {
        if (id.0 as usize) < self.tags.len() {
            Some(self.tags[id.0 as usize])
        } else {
            None
        }
    }
}

/// A result-local identifier of one distinct tag of a prepared document.
#[derive(Clone, Copy, Debug, PartialEq, Eq, Structural, Hash, PartialOrd, Ord)]
pub struct AnnotationId(pub u32);

/// Prepares `doc` against `limits`.
pub fn prepare_with_limits(doc: &Rc<Doc>, limits: BoundLimits) -> (r: Result<PreparedDoc, PrepareError>)
    ensures
        match spec_finish(bound_calc(doc@), limits) {
            Ok(b) => r matches Ok(p) && p.spec_bounds() == b && p.spec_doc() == doc@ && p.spec_tags() == add_new(
                seq![],
                tags_of(doc@),
            ),
            Err(e) => r == Err::<PreparedDoc, PrepareError>(e),
        },
{
    let mut cache: Vec<(Rc<Doc>, BoundCalc)> = Vec::new();
    let calc = compute_bounds(doc, &mut cache);
    let bounds = finish_bounds_with_limits(calc, limits)?;
    let mut seen: Vec<Rc<Doc>> = Vec::new();
    let tags = collect_tags(doc, Vec::new(), &mut seen);
    let mut trees: Vec<(Rc<Doc>, Rc<SumTree>)> = Vec::new();
    let summaries = build_source(doc, &mut trees);
    Ok(PreparedDoc { doc: crate::share(doc), bounds, tags, summaries })
}

impl Doc {
    /// Prepares `doc` against the production limits.
    pub fn prepare(doc: &Rc<Doc>) -> (r: Result<PreparedDoc, PrepareError>)
        ensures
            match spec_finish(bound_calc(doc@), production_limits()) {
                Ok(b) => r matches Ok(p) && p.spec_bounds() == b && p.spec_doc() == doc@ && p.spec_tags()
                    == add_new(seq![], tags_of(doc@)),
                Err(e) => r == Err::<PreparedDoc, PrepareError>(e),
            },
    {
        prepare_with_limits(doc, BoundLimits::production())
    }
}

} // verus!
