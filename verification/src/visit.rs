//! Handing a solved layout to a visitor, event by event, in output order.
use crate::cost::ConsumerCost;
use crate::doc::{TagId, TextRun};
use crate::prepare::{bound_calc, production_limits, spec_finish, PreparedDoc};
use crate::render::{
    is_layout, options_model, saturated, solve_layout, LayoutStrategy, RenderError, RenderOptions, SolveStats,
};
use crate::frontier::all_defined;
use crate::research::{events, out_size, Event, Out, OutModel};
use crate::workspace::{capacity_max, need_of, shortfall, solve_need, RenderWorkspace, WorkspaceMode};
use std::rc::Rc;
use vstd::prelude::*;

verus! {

/// A consumer of layout events. `received` is the sequence of events it
/// has accepted so far; each method that succeeds appends its event.
pub trait LayoutVisitor {
    /// The visitor's own failure.
    type Error;

    /// The events accepted so far.
    spec fn received(&self) -> Seq<Event>;

    /// A tagged region opens.
    fn enter_annotation(&mut self, tag: TagId) -> (r: Result<(), Self::Error>)
        ensures
            r is Ok ==> final(self).received() == old(self).received().push(Event::Open(tag)),
    ;

    /// The innermost tagged region, tagged `tag`, closes.
    fn exit_annotation(&mut self, tag: TagId) -> (r: Result<(), Self::Error>)
        ensures
            r is Ok ==> final(self).received() == old(self).received().push(Event::Close),
    ;

    /// A penalty of `amount` is charged.
    fn penalty(&mut self, amount: u32) -> (r: Result<(), Self::Error>)
        ensures
            r is Ok ==> final(self).received() == old(self).received().push(Event::Penalty(amount)),
    ;

    /// Non-empty text is emitted inside the open regions `annotations`,
    /// outermost first.
    fn text(&mut self, run: &TextRun, annotations: &Vec<TagId>) -> (r: Result<(), Self::Error>)
        ensures
            r is Ok ==> final(self).received() == old(self).received().push(Event::Text(run@)),
    ;

    /// A newline and `indent` spaces are emitted inside the open regions
    /// `annotations`, outermost first.
    fn newline(&mut self, indent: u32, annotations: &Vec<TagId>) -> (r: Result<(), Self::Error>)
        ensures
            r is Ok ==> final(self).received() == old(self).received().push(Event::Newline(indent)),
    ;
}

/// Failure of a visit: the visitor's own error. A visit holds its work in
/// owned storage, so nothing but the visitor can stop it.
#[derive(Debug)]
pub enum VisitError<E> {
    /// The visitor refused an event.
    Visitor(E),
}

/// The events a visitor is handed: every event but empty text.
pub open spec fn delivered(es: Seq<Event>) -> Seq<Event>
    decreases es.len(),
{
    if es.len() == 0 {
        seq![]
    } else if es[0] is Text && es[0]->Text_0.value.len() == 0 {
        delivered(es.drop_first())
    } else {
        seq![es[0]] + delivered(es.drop_first())
    }
}

/// Delivery distributes over concatenation.
pub proof fn lemma_delivered_append(a: Seq<Event>, b: Seq<Event>)
    ensures
        delivered(a + b) == delivered(a) + delivered(b),
    decreases a.len(),
{
    if a.len() == 0 {
        assert(a + b =~= b);
        assert(delivered(a) + delivered(b) =~= delivered(b));
    } else {
        assert((a + b).drop_first() =~= a.drop_first() + b);
        assert((a + b)[0] == a[0]);
        lemma_delivered_append(a.drop_first(), b);
        if a[0] is Text && a[0]->Text_0.value.len() == 0 {
        } else {
            assert(seq![a[0]] + delivered(a.drop_first()) + delivered(b) =~= seq![a[0]] + (delivered(
                a.drop_first(),
            ) + delivered(b)));
        }
    }
}

/// A single event is delivered unless it is empty text.
proof fn lemma_delivered_single(e: Event)
    ensures
        delivered(seq![e]) == (if e is Text && e->Text_0.value.len() == 0 {
            Seq::<Event>::empty()
        } else {
            seq![e]
        }),
{
    assert(seq![e].drop_first() =~= Seq::<Event>::empty());
    assert(delivered(Seq::<Event>::empty()) == Seq::<Event>::empty());
    assert(seq![e] + Seq::<Event>::empty() =~= seq![e]);
}

enum Step {
    Node(Rc<Out>),
    Exit(TagId),
}

spec fn step_events(s: Step) -> Seq<Event> {
    match s {
        Step::Node(o) => events(o@),
        Step::Exit(_) => seq![Event::Close],
    }
}

/// Events of a stack of steps, the top first.
spec fn steps_events(ss: Seq<Step>) -> Seq<Event>
    decreases ss.len(),
{
    if ss.len() == 0 {
        seq![]
    } else {
        step_events(ss.last()) + steps_events(ss.drop_last())
    }
}

spec fn steps_size(ss: Seq<Step>) -> nat
    decreases ss.len(),
{
    if ss.len() == 0 {
        0
    } else {
        (match ss.last() {
            Step::Node(o) => 2 * out_size(o@),
            Step::Exit(_) => 0,
        }) + 1 + steps_size(ss.drop_last())
    }
}

proof fn lemma_steps_push(ss: Seq<Step>, s: Step)
    ensures
        steps_events(ss.push(s)) == step_events(s) + steps_events(ss),
        steps_size(ss.push(s)) == (match s {
            Step::Node(o) => 2 * out_size(o@),
            Step::Exit(_) => 0,
        }) + 1 + steps_size(ss),
{
    assert(ss.push(s).drop_last() =~= ss);
}

/// A solved layout: its output tree, cost and counters.
pub struct LayoutRef {
    out: Rc<Out>,
    cost: ConsumerCost,
    stats: SolveStats,
}

impl LayoutRef {
    /// The output tree.
    pub closed spec fn spec_out(&self) -> OutModel {
        self.out@
    }

    /// The cost of the layout.
    pub closed spec fn spec_cost(&self) -> ConsumerCost {
        self.cost
    }

    /// The counters of the solve.
    pub closed spec fn spec_stats(&self) -> SolveStats {
        self.stats
    }

    /// The cost of the layout.
    pub fn cost(&self) -> (r: ConsumerCost)
        ensures
            r == self.spec_cost(),
    {
        self.cost
    }

    /// The counters of the solve.
    pub fn stats(&self) -> (r: SolveStats)
        ensures
            r == self.spec_stats(),
    {
        self.stats
    }

    /// Hands every event of the layout but empty text to `visitor`, in
    /// output order, stopping at the first event it refuses.
    pub fn visit<V: LayoutVisitor>(self, visitor: &mut V) -> (r: Result<(), VisitError<V::Error>>)
        ensures
            r is Ok ==> final(visitor).received() == old(visitor).received() + delivered(events(self.spec_out())),
            r matches Err(e) ==> e is Visitor,
    {
        let ghost start = visitor.received();
        let mut annotations: Vec<TagId> = Vec::new();
        let mut work: Vec<Step> = Vec::new();
        proof {
            lemma_steps_push(work@, Step::Node(self.out));
        }
        work.push(Step::Node(crate::share(&self.out)));
        assert(steps_events(work@) =~= events(self.out@)) by {
            assert(work@.drop_last() =~= Seq::<Step>::empty());
            assert(events(self.out@) + seq![] =~= events(self.out@));
        }
        loop
            invariant
                start == old(visitor).received(),
                visitor.received() + delivered(steps_events(work@)) == start + delivered(events(self.out@)),
            decreases steps_size(work@),
        {
            let ghost before = work@;
            let ghost seen = visitor.received();
            let item = match work.pop() {
                Some(item) => item,
                None => {
                    assert(steps_events(work@) =~= Seq::<Event>::empty());
                    assert(delivered(Seq::<Event>::empty()) == Seq::<Event>::empty());
                    assert(seen + Seq::<Event>::empty() =~= seen);
                    return Ok(());
                },
            };
            proof {
                assert(before =~= work@.push(item));
                lemma_steps_push(work@, item);
                lemma_delivered_append(step_events(item), steps_events(work@));
            }
            let ghost rest = delivered(steps_events(work@));
            match item {
                Step::Node(o) => match &*o {
                    Out::Empty => {
                        assert(delivered(Seq::<Event>::empty()) == Seq::<Event>::empty());
                        assert(delivered(Seq::<Event>::empty()) + rest =~= rest);
                    },
                    Out::Text(run) => {
                        proof {
                            lemma_delivered_single(Event::Text(run@));
                        }
                        if run.value().unicode_len() == 0 {
                            assert(delivered(seq![Event::Text(run@)]) + rest =~= rest);
                        } else {
                            match visitor.text(run, &annotations) {
                                Ok(()) => {},
                                Err(e) => {
                                    return Err(VisitError::Visitor(e));
                                },
                            }
                            assert(seen + (seq![Event::Text(run@)] + rest) =~= seen.push(Event::Text(run@))
                                + rest);
                        }
                    },
                    Out::Newline { indent } => {
                        proof {
                            lemma_delivered_single(Event::Newline(*indent));
                        }
                        match visitor.newline(*indent, &annotations) {
                            Ok(()) => {},
                            Err(e) => {
                                return Err(VisitError::Visitor(e));
                            },
                        }
                        assert(seen + (seq![Event::Newline(*indent)] + rest) =~= seen.push(
                            Event::Newline(*indent),
                        ) + rest);
                    },
                    Out::Cat(left, right) => {
                        proof {
                            lemma_steps_push(work@, Step::Node(*right));
                            lemma_steps_push(work@.push(Step::Node(*right)), Step::Node(*left));
                            lemma_delivered_append(events(left@), events(right@));
                            lemma_delivered_append(events(right@), steps_events(work@));
                            lemma_delivered_append(events(left@), events(right@) + steps_events(work@));
                            assert(events(left@) + events(right@) + steps_events(work@) =~= events(left@) + (
                            events(right@) + steps_events(work@)));
                        }
                        work.push(Step::Node(crate::share(right)));
                        work.push(Step::Node(crate::share(left)));
                    },
                    Out::Tagged { tag, child } => {
                        let ghost ce = events(child@);
                        match visitor.enter_annotation(*tag) {
                            Ok(()) => {},
                            Err(e) => {
                                return Err(VisitError::Visitor(e));
                            },
                        }
                        annotations.push(*tag);
                        proof {
                            lemma_steps_push(work@, Step::Exit(*tag));
                            lemma_steps_push(work@.push(Step::Exit(*tag)), Step::Node(*child));
                            let tail = steps_events(work@);
                            assert(seq![Event::Open(*tag)] + ce + seq![Event::Close] + tail =~= seq![
                                Event::Open(*tag),
                            ] + (ce + (seq![Event::Close] + tail)));
                            lemma_delivered_append(seq![Event::Open(*tag)], ce + (seq![Event::Close] + tail));
                            lemma_delivered_append(ce, seq![Event::Close] + tail);
                            lemma_delivered_append(
                                seq![Event::Open(*tag)] + ce + seq![Event::Close],
                                tail,
                            );
                            lemma_delivered_single(Event::Open(*tag));
                            assert(delivered(seq![Event::Open(*tag)]) =~= seq![Event::Open(*tag)]);
                            assert(seen + (seq![Event::Open(*tag)] + delivered(ce + (seq![Event::Close] + tail)))
                                =~= seen.push(Event::Open(*tag)) + delivered(ce + (seq![Event::Close] + tail)));
                        }
                        work.push(Step::Exit(*tag));
                        work.push(Step::Node(crate::share(child)));
                    },
                    Out::Penalty { amount, child } => {
                        let ghost ce = events(child@);
                        match visitor.penalty(*amount) {
                            Ok(()) => {},
                            Err(e) => {
                                return Err(VisitError::Visitor(e));
                            },
                        }
                        proof {
                            lemma_steps_push(work@, Step::Node(*child));
                            let tail = steps_events(work@);
                            lemma_delivered_append(seq![Event::Penalty(*amount)], ce + tail);
                            assert(seq![Event::Penalty(*amount)] + ce + tail =~= seq![Event::Penalty(*amount)] + (
                            ce + tail));
                            lemma_delivered_single(Event::Penalty(*amount));
                            assert(delivered(seq![Event::Penalty(*amount)]) =~= seq![Event::Penalty(*amount)]);
                            assert(seen + (seq![Event::Penalty(*amount)] + delivered(ce + tail)) =~= seen.push(
                                Event::Penalty(*amount),
                            ) + delivered(ce + tail));
                        }
                        work.push(Step::Node(crate::share(child)));
                    },
                },
                Step::Exit(tag) => {
                    annotations.pop();
                    match visitor.exit_annotation(tag) {
                        Ok(()) => {},
                        Err(e) => {
                            return Err(VisitError::Visitor(e));
                        },
                    }
                    proof {
                        lemma_delivered_single(Event::Close);
                    }
                    assert(seen + (seq![Event::Close] + rest) =~= seen.push(Event::Close) + rest);
                },
            }
        }
    }
}

/// One event a visitor was handed, as a value.
#[derive(Clone, Debug, PartialEq, Eq)]
pub enum VisitEvent {
    /// A tagged region opened.
    Open(TagId),
    /// The tagged region with this tag closed.
    Close(TagId),
    /// A penalty was charged.
    Penalty(u32),
    /// Text was emitted.
    Text(TextRun),
    /// A newline and this many spaces were emitted.
    Newline(u32),
}

impl VisitEvent {
    /// The layout event this value records.
    pub open spec fn model(self) -> Event {
        match self {
            VisitEvent::Open(tag) => Event::Open(tag),
            VisitEvent::Close(_) => Event::Close,
            VisitEvent::Penalty(amount) => Event::Penalty(amount),
            VisitEvent::Text(run) => Event::Text(run@),
            VisitEvent::Newline(indent) => Event::Newline(indent),
        }
    }
}

/// A visitor that records every event it is handed and refuses none.
pub struct EventLog {
    events: Vec<VisitEvent>,
}

/// The layout events a sequence of recorded events stands for.
pub open spec fn event_models(es: Seq<VisitEvent>) -> Seq<Event> {
    es.map_values(|e: VisitEvent| e.model())
}

impl EventLog {
    /// An empty log.
    pub fn new() -> (r: Self)
        ensures
            r.received() == Seq::<Event>::empty(),
    {
        let r = EventLog { events: Vec::new() };
        assert(event_models(r.events@) =~= Seq::<Event>::empty());
        r
    }

    /// The recorded events, in the order they were handed over.
    pub fn events(&self) -> (r: &Vec<VisitEvent>)
        ensures
            event_models(r@) == self.received(),
    {
        &self.events
    }

    fn record(&mut self, e: VisitEvent)
        ensures
            final(self).received() == old(self).received().push(e.model()),
    {
        let ghost before = self.events@;
        self.events.push(e);
        assert(event_models(self.events@) =~= event_models(before).push(e.model()));
    }
}

impl LayoutVisitor for EventLog {
    type Error = ();

    closed spec fn received(&self) -> Seq<Event> {
        event_models(self.events@)
    }

    fn enter_annotation(&mut self, tag: TagId) -> (r: Result<(), ()>) {
        self.record(VisitEvent::Open(tag));
        Ok(())
    }

    fn exit_annotation(&mut self, tag: TagId) -> (r: Result<(), ()>) {
        self.record(VisitEvent::Close(tag));
        Ok(())
    }

    fn penalty(&mut self, amount: u32) -> (r: Result<(), ()>) {
        self.record(VisitEvent::Penalty(amount));
        Ok(())
    }

    fn text(&mut self, run: &TextRun, annotations: &Vec<TagId>) -> (r: Result<(), ()>) {
        self.record(VisitEvent::Text(run.clone()));
        Ok(())
    }

    fn newline(&mut self, indent: u32, annotations: &Vec<TagId>) -> (r: Result<(), ()>) {
        self.record(VisitEvent::Newline(indent));
        Ok(())
    }
}

/// Solves a prepared document under `options` without materializing it:
/// the layout is the one [`crate::render_prepared`] renders. The solve's
/// needs (see [`solve_need`]) are accounted against the workspace: a fixed
/// workspace that holds too little of a resource gives
/// `WorkspaceExhausted` for the first such resource and stays as it was; a
/// growable one grows to hold them. The mode never changes.
pub fn solve_into(prepared: &PreparedDoc, options: RenderOptions, workspace: &mut RenderWorkspace) -> (r: Result<
    LayoutRef,
    RenderError,
>)
    ensures
        final(workspace).spec_mode() == old(workspace).spec_mode(),
        r matches Ok(l) ==> is_layout(prepared.spec_doc(), options, l.spec_out(), l.spec_cost()),
        r matches Ok(l) ==> l.spec_stats().plan_nodes == saturated(out_size(l.spec_out())),
        r matches Ok(l) ==> final(workspace).spec_capacity() == capacity_max(
            old(workspace).spec_capacity(),
            solve_need(prepared.spec_bounds(), options.spec_strategy(), l.spec_stats()),
        ),
        old(workspace).spec_mode() == WorkspaceMode::Fixed ==> (r matches Ok(l) ==> shortfall(
            old(workspace).spec_capacity(),
            solve_need(prepared.spec_bounds(), options.spec_strategy(), l.spec_stats()),
        ) is None),
        r is Err ==> final(workspace).spec_capacity() == old(workspace).spec_capacity(),
        r matches Err(RenderError::WorkspaceExhausted { resource, capacity, required, .. }) ==> old(
            workspace,
        ).spec_mode() == WorkspaceMode::Fixed && capacity < required,
        options.spec_strategy() == LayoutStrategy::Exact && all_defined(
            options_model(options),
            prepared.spec_doc(),
            0,
            0,
        ) ==> r is Ok || r is Err && r->Err_0 is WorkspaceExhausted,
        spec_finish(bound_calc(prepared.spec_doc()), production_limits()) is Ok ==> r is Ok || r is Err
            && r->Err_0 is WorkspaceExhausted,
        spec_finish(bound_calc(prepared.spec_doc()), production_limits()) is Ok && old(workspace).spec_mode()
            == WorkspaceMode::Growable ==> r is Ok,
{
    workspace.clear_buffers();
    let (out, cost, stats) = match solve_layout(prepared, options) {
        Ok(t) => t,
        Err(e) => {
            return Err(e);
        },
    };
    let need = need_of(prepared.bounds(), options.strategy(), stats, 0, 0);
    match workspace.account(need) {
        Ok(()) => Ok(LayoutRef { out, cost, stats }),
        Err((resource, capacity, required)) => Err(
            RenderError::WorkspaceExhausted { resource, capacity, required, stats },
        ),
    }
}

} // verus!
