//! Prepared-document layout with tagged annotations and checked costs.
use std::rc::Rc;
use vstd::prelude::*;

pub mod cost;
pub mod doc;
pub mod research;
pub mod render;
pub mod runs;
pub mod domains;
pub mod corpus;
pub mod kernel;
pub mod prepare;
pub mod brute;
pub mod frontier;
pub mod greedy;
pub mod table;
pub mod text;
pub mod tags;
pub mod tokens;
pub mod workspace;
pub mod visit;
pub mod summary;
mod sealed;

pub use cost::ConsumerCost;
pub use doc::{
    align, choice, concat2, empty, flatten, group, hardline, join, nest, penalize, softline, tag,
    text, try_text, try_text_with, Doc, TagId, TextError, TextRun, WidthMode,
};
pub use kernel::{FrontierBuilder, ScratchCandidate};
pub use prepare::{
    AnnotationId, BoundLimits, CostComponent, PrepareError, PrepareErrorKind, PreparedBounds,
    PreparedDoc, PreparedResource,
};
pub use render::{
    render, render_prepared, IndentPolicy, LayoutStrategy, OwnedRenderError, OwnedRenderErrorKind,
    RenderError, RenderOptions, RenderSummary, Rendered, RenderedParts, Renderer, SolveCounter,
    SolveStats, SpanId,
};
pub use research::AnnotationSpan;
pub use runs::AnnotatedRun;
pub use table::{table, Alignment, Column, Table, TableError, TableErrorKind};
pub use text::{from_text, from_text_with, from_text_with_annotations, IngestOptions, TextKind};
pub use visit::{solve_into, EventLog, LayoutRef, LayoutVisitor, VisitError, VisitEvent};
pub use workspace::{
    render_prepared_into_owned, seed_capacity,
    render_into, ExactSolveCapacity, FastSolveCapacity, MaterializeCapacity, RenderCapacity,
    RenderWorkspace, ReserveError, VisitCapacity, WorkspaceMode, WorkspaceResource,
};

verus! {

/// `Rc::clone`: a new handle to the same shared value.
#[verifier::external_body]
pub(crate) fn share<T>(this: &Rc<T>) -> (res: Rc<T>)
    ensures
        res == *this,
{
    Rc::clone(this)
}

/// `Rc::ptr_eq`: whether two handles point to one allocation. Handles to
/// one allocation hold the same value.
#[verifier::external_body]
pub(crate) fn same_allocation<T>(a: &Rc<T>, b: &Rc<T>) -> (r: bool)
    ensures
        r ==> *a == *b,
{
    Rc::ptr_eq(a, b)
}

/// `Rc::strong_count`: how many handles point to the allocation of `this`.
/// Nothing is stated of the number.
#[verifier::external_body]
pub(crate) fn handle_count<T>(this: &Rc<T>) -> usize {
    Rc::strong_count(this)
}

} // verus!
