//! Persistent output trees and the reference semantics of layout.
//!
//! A choice-free document renders deterministically into an [`Out`] tree;
//! an arbitrary document denotes the ordered sequence of its choice-free
//! expansions. Costs, text and annotation spans are all read off the
//! left-to-right event sequence of an output tree.
use crate::cost::{cost_add, cost_zero, ConsumerCost, CostModel};
use crate::doc::{byte_offset, Doc, TagId, TextModel, TextRun};
use std::rc::Rc;
use vstd::prelude::*;

verus! {

/// Persistent output tree used by the allocating engines.
#[derive(Debug)]
pub enum Out {
    /// Empty output.
    Empty,
    /// Measured text.
    Text(TextRun),
    /// A newline followed by indentation.
    Newline {
        /// Indentation columns emitted after the newline.
        indent: u32,
    },
    /// Concatenated output.
    Cat(Rc<Out>, Rc<Out>),
    /// Tagged child output.
    Tagged {
        /// Numeric tag applied to the child output.
        tag: TagId,
        /// Tagged output.
        child: Rc<Out>,
    },
    /// Penalized child output.
    Penalty {
        /// Additional consumer cost.
        amount: u32,
        /// Penalized output.
        child: Rc<Out>,
    },
}

/// The mathematical content of an output tree.
pub enum OutModel {
    /// Empty output.
    Empty,
    /// Text.
    Text(TextModel),
    /// A newline and indentation.
    Newline(u32),
    /// Concatenation.
    Cat(Box<OutModel>, Box<OutModel>),
    /// Tagged output.
    Tagged(TagId, Box<OutModel>),
    /// Penalized output.
    Penalty(u32, Box<OutModel>),
}

/// The model of an output tree.
pub open spec fn out_model(o: Out) -> OutModel
    decreases o,
{
    match o {
        Out::Empty => OutModel::Empty,
        Out::Text(run) => OutModel::Text(run@),
        Out::Newline { indent } => OutModel::Newline(indent),
        Out::Cat(a, b) => OutModel::Cat(Box::new(out_model(*a)), Box::new(out_model(*b))),
        Out::Tagged { tag, child } => OutModel::Tagged(tag, Box::new(out_model(*child))),
        Out::Penalty { amount, child } => OutModel::Penalty(amount, Box::new(out_model(*child))),
    }
}

impl View for Out {
    type V = OutModel;

    open spec fn view(&self) -> OutModel {
        out_model(*self)
    }
}

/// Concatenation that eliminates empty identities.
pub open spec fn spec_out_cat(left: OutModel, right: OutModel) -> OutModel {
    if left is Empty {
        right
    } else if right is Empty {
        left
    } else {
        OutModel::Cat(Box::new(left), Box::new(right))
    }
}

/// Constructs empty output.
pub fn out_empty() -> (r: Rc<Out>)
    ensures
        r@ == OutModel::Empty,
{
    Rc::new(Out::Empty)
}

/// Constructs text output.
pub fn out_text(text: TextRun) -> (r: Rc<Out>)
    ensures
        r@ == OutModel::Text(text@),
{
    Rc::new(Out::Text(text))
}

/// Constructs a newline.
pub fn out_newline(indent: u32) -> (r: Rc<Out>)
    ensures
        r@ == OutModel::Newline(indent),
{
    Rc::new(Out::Newline { indent })
}

/// Concatenates two outputs, eliminating empty identities.
pub fn out_cat(left: Rc<Out>, right: Rc<Out>) -> (r: Rc<Out>)
    ensures
        r@ == spec_out_cat(left@, right@),
{
    if matches!(&*left, Out::Empty) {
        right
    } else if matches!(&*right, Out::Empty) {
        left
    } else {
        Rc::new(Out::Cat(left, right))
    }
}

/// Wraps output in a numeric tag.
pub fn out_tagged(tag: TagId, child: Rc<Out>) -> (r: Rc<Out>)
    ensures
        r@ == OutModel::Tagged(tag, Box::new(child@)),
{
    Rc::new(Out::Tagged { tag, child })
}

/// Wraps output in a penalty.
pub fn out_penalty(amount: u32, child: Rc<Out>) -> (r: Rc<Out>)
    ensures
        r@ == OutModel::Penalty(amount, Box::new(child@)),
{
    Rc::new(Out::Penalty { amount, child })
}

/// One step of an output tree, in left-to-right order.
pub enum Event {
    /// Text is emitted.
    Text(TextModel),
    /// A newline and this many spaces are emitted.
    Newline(u32),
    /// A tagged region opens.
    Open(TagId),
    /// The innermost open tagged region closes.
    Close,
    /// A penalty is charged.
    Penalty(u32),
}

/// The event sequence of an output tree.
pub open spec fn events(o: OutModel) -> Seq<Event>
    decreases o,
{
    match o {
        OutModel::Empty => seq![],
        OutModel::Text(run) => seq![Event::Text(run)],
        OutModel::Newline(indent) => seq![Event::Newline(indent)],
        OutModel::Cat(a, b) => events(*a) + events(*b),
        OutModel::Tagged(tag, child) => seq![Event::Open(tag)] + events(*child) + seq![Event::Close],
        OutModel::Penalty(amount, child) => seq![Event::Penalty(amount)] + events(*child),
    }
}

/// The event sequence of a shared output tree.
pub open spec fn events_rc(o: Rc<Out>) -> Seq<Event> {
    events(o@)
}

/// Dropping empty identities does not change the events.
pub proof fn lemma_out_cat_events(left: OutModel, right: OutModel)
    ensures
        events(spec_out_cat(left, right)) == events(left) + events(right),
{
    if left is Empty {
        assert(events(left) + events(right) =~= events(right));
    } else if right is Empty {
        assert(events(left) + events(right) =~= events(left));
    }
}

/// `n` spaces.
pub open spec fn spaces(n: nat) -> Seq<char> {
    Seq::new(n, |i: int| ' ')
}

/// Characters emitted by one event.
pub open spec fn event_text(e: Event) -> Seq<char> {
    match e {
        Event::Text(run) => run.value,
        Event::Newline(indent) => seq!['\n'] + spaces(indent as nat),
        _ => seq![],
    }
}

/// Characters emitted by an event sequence.
pub open spec fn events_text(es: Seq<Event>) -> Seq<char>
    decreases es.len(),
{
    if es.len() == 0 {
        seq![]
    } else {
        event_text(es[0]) + events_text(es.drop_first())
    }
}

/// Text is additive over event concatenation.
pub proof fn lemma_events_text_append(a: Seq<Event>, b: Seq<Event>)
    ensures
        events_text(a + b) == events_text(a) + events_text(b),
    decreases a.len(),
{
    if a.len() == 0 {
        assert(a + b =~= b);
    } else {
        assert((a + b).drop_first() =~= a.drop_first() + b);
        lemma_events_text_append(a.drop_first(), b);
    }
}

/// The text of an output tree.
pub open spec fn out_text_of(o: OutModel) -> Seq<char> {
    events_text(events(o))
}

/// Cost and column after charging one event from `column`; `None` when a
/// column or cost leaves its domain.
pub open spec fn cost_step<M: CostModel>(m: M, state: (ConsumerCost, u32), e: Event) -> Option<
    (ConsumerCost, u32),
> {
    let (cost, column) = state;
    match e {
        Event::Text(run) => match m.spec_text(column, run.columns) {
            Some(c) => if column + run.columns > u32::MAX {
                None
            } else {
                match cost_add(cost, c) {
                    Some(total) => Some((total, (column + run.columns) as u32)),
                    None => None,
                }
            },
            None => None,
        },
        Event::Newline(indent) => match m.spec_text(0, indent) {
            Some(c) => match cost_add(cost, m.spec_newline()) {
                Some(a) => match cost_add(a, c) {
                    Some(total) => Some((total, indent)),
                    None => None,
                },
                None => None,
            },
            None => None,
        },
        Event::Penalty(amount) => match cost_add(cost, m.spec_penalty(amount)) {
            Some(total) => Some((total, column)),
            None => None,
        },
        _ => Some(state),
    }
}

/// Cost and column after charging a sequence of events.
pub open spec fn cost_fold<M: CostModel>(m: M, state: (ConsumerCost, u32), es: Seq<Event>) -> Option<
    (ConsumerCost, u32),
>
    decreases es.len(),
{
    if es.len() == 0 {
        Some(state)
    } else {
        match cost_step(m, state, es[0]) {
            Some(next) => cost_fold(m, next, es.drop_first()),
            None => None,
        }
    }
}

/// Charging a concatenation charges its parts in order.
pub proof fn lemma_cost_fold_append<M: CostModel>(
    m: M,
    state: (ConsumerCost, u32),
    a: Seq<Event>,
    b: Seq<Event>,
)
    ensures
        cost_fold(m, state, a + b) == (match cost_fold(m, state, a) {
            Some(mid) => cost_fold(m, mid, b),
            None => None,
        }),
    decreases a.len(),
{
    if a.len() == 0 {
        assert(a + b =~= b);
    } else {
        assert((a + b).drop_first() =~= a.drop_first() + b);
        assert((a + b)[0] == a[0]);
        if let Some(next) = cost_step(m, state, a[0]) {
            lemma_cost_fold_append(m, next, a.drop_first(), b);
        }
    }
}

/// The cost of an output tree laid out from column zero.
pub open spec fn out_cost<M: CostModel>(m: M, o: OutModel) -> Option<ConsumerCost> {
    match cost_fold(m, (cost_zero(), 0), events(o)) {
        Some((cost, _)) => Some(cost),
        None => None,
    }
}

/// One materialized span: tag, byte range and the index of its parent.
pub struct SpanModel {
    /// The tag.
    pub tag: TagId,
    /// First byte.
    pub start: nat,
    /// One past the last byte.
    pub end: nat,
    /// Index of the enclosing span.
    pub parent: Option<nat>,
}

/// Span-building state: bytes emitted, spans so far and the open stack.
pub struct SpanState {
    /// Bytes emitted so far.
    pub bytes: nat,
    /// Spans in opening order.
    pub spans: Seq<SpanModel>,
    /// Indexes of the open spans, innermost last.
    pub open: Seq<nat>,
}

/// UTF-8 byte length of the characters an event emits.
pub open spec fn event_bytes(e: Event) -> nat {
    match e {
        Event::Text(run) => byte_offset(run.value, run.value.len() as int),
        Event::Newline(indent) => (1 + indent) as nat,
        _ => 0,
    }
}

/// Span state after one event.
pub open spec fn span_step(s: SpanState, e: Event) -> SpanState {
    match e {
        Event::Open(tag) => SpanState {
            bytes: s.bytes,
            spans: s.spans.push(
                SpanModel {
                    tag,
                    start: s.bytes,
                    end: s.bytes,
                    parent: if s.open.len() == 0 {
                        None
                    } else {
                        Some(s.open.last())
                    },
                },
            ),
            open: s.open.push(s.spans.len()),
        },
        Event::Close => if s.open.len() == 0 {
            s
        } else {
            let i = s.open.last();
            SpanState {
                bytes: s.bytes,
                spans: s.spans.update(
                    i as int,
                    SpanModel {
                        tag: s.spans[i as int].tag,
                        start: s.spans[i as int].start,
                        end: s.bytes,
                        parent: s.spans[i as int].parent,
                    },
                ),
                open: s.open.drop_last(),
            }
        },
        _ => SpanState { bytes: s.bytes + event_bytes(e), spans: s.spans, open: s.open },
    }
}

/// Span state after a sequence of events.
pub open spec fn span_fold(s: SpanState, es: Seq<Event>) -> SpanState
    decreases es.len(),
{
    if es.len() == 0 {
        s
    } else {
        span_fold(span_step(s, es[0]), es.drop_first())
    }
}

/// UTF-8 byte length of the text of an output tree.
pub open spec fn out_bytes(o: OutModel) -> nat {
    span_fold(SpanState { bytes: 0, spans: seq![], open: seq![] }, events(o)).bytes
}

/// Span building never un-emits bytes.
pub proof fn lemma_span_fold_bytes_monotone(s: SpanState, es: Seq<Event>)
    ensures
        span_fold(s, es).bytes >= s.bytes,
    decreases es.len(),
{
    if es.len() > 0 {
        lemma_span_fold_bytes_monotone(span_step(s, es[0]), es.drop_first());
    }
}

/// The spans of an output tree.
pub open spec fn out_spans(o: OutModel) -> Seq<SpanModel> {
    span_fold(SpanState { bytes: 0, spans: seq![], open: seq![] }, events(o)).spans
}

/// Materialized numeric-tag span produced by the allocating engines.
#[derive(Clone, Debug, PartialEq, Eq)]
pub struct AnnotationSpan {
    /// Numeric tag.
    pub tag: TagId,
    /// First UTF-8 byte.
    pub start: usize,
    /// One past the last UTF-8 byte.
    pub end: usize,
    /// Parent span index, when nested.
    pub parent: Option<usize>,
}

/// The span a model describes.
pub open spec fn span_matches(s: AnnotationSpan, m: SpanModel) -> bool {
    &&& s.tag == m.tag
    &&& s.start == m.start
    &&& s.end == m.end
    &&& s.parent == (match m.parent {
        Some(p) => Some(p as usize),
        None => None,
    })
}

/// Spans agree with their models one by one.
pub open spec fn spans_match(s: Seq<AnnotationSpan>, m: Seq<SpanModel>) -> bool {
    s.len() == m.len() && forall|i: int| 0 <= i < s.len() ==> span_matches(s[i], m[i])
}

/// Materialized output and its cost.
pub struct Rendered {
    /// Rendered UTF-8 text.
    pub text: String,
    /// Structural tag spans.
    pub spans: Vec<AnnotationSpan>,
    /// Model-specific cost.
    pub cost: ConsumerCost,
}

enum Work {
    Node(Rc<Out>),
    ExitTag,
}

spec fn work_item_events(w: Work) -> Seq<Event> {
    match w {
        Work::Node(o) => events(o@),
        Work::ExitTag => seq![Event::Close],
    }
}

spec fn work_events(ws: Seq<Work>) -> Seq<Event>
    decreases ws.len(),
{
    if ws.len() == 0 {
        seq![]
    } else {
        work_item_events(ws.last()) + work_events(ws.drop_last())
    }
}

/// Number of nodes of an output tree.
pub open spec fn out_size(o: OutModel) -> nat
    decreases o,
{
    match o {
        OutModel::Cat(a, b) => 1 + out_size(*a) + out_size(*b),
        OutModel::Tagged(_, child) => 1 + out_size(*child),
        OutModel::Penalty(_, child) => 1 + out_size(*child),
        _ => 1,
    }
}

spec fn work_size(ws: Seq<Work>) -> nat
    decreases ws.len(),
{
    if ws.len() == 0 {
        0
    } else {
        (match ws.last() {
            Work::Node(o) => 2 * out_size(o@),
            Work::ExitTag => 0,
        }) + 1 + work_size(ws.drop_last())
    }
}

proof fn lemma_work_push(ws: Seq<Work>, w: Work)
    ensures
        work_events(ws.push(w)) == work_item_events(w) + work_events(ws),
        work_size(ws.push(w)) == (match w {
            Work::Node(o) => 2 * out_size(o@),
            Work::ExitTag => 0,
        }) + 1 + work_size(ws),
{
    assert(ws.push(w).drop_last() =~= ws);
}

proof fn lemma_fold_cons(s: SpanState, e: Event, rest: Seq<Event>)
    ensures
        span_fold(s, seq![e] + rest) == span_fold(span_step(s, e), rest),
        events_text(seq![e] + rest) == event_text(e) + events_text(rest),
{
    assert((seq![e] + rest).drop_first() =~= rest);
}

/// Appends `n` spaces.
pub(crate) fn push_spaces(text: &mut String, n: u32)
    ensures
        final(text)@ == old(text)@ + spaces(n as nat),
{
    let mut i: u32 = 0;
    while i < n
        invariant
            i <= n,
            text@ == old(text)@ + spaces(i as nat),
        decreases n - i,
    {
        let s = " ";
        proof {
            reveal_strlit(" ");
        }
        text.append(s);
        assert(old(text)@ + spaces(i as nat) + s@ =~= old(text)@ + spaces((i + 1) as nat));
        i = i + 1;
    }
}

/// The text and spans of `out`, or `None` when a byte count leaves `usize`.
pub fn materialize_text(out: &Rc<Out>) -> (r: Option<(String, Vec<AnnotationSpan>)>)
    ensures
        r matches Some((text, spans)) ==> text@ == out_text_of(out@) && spans_match(
            spans@,
            out_spans(out@),
        ),
        r is None ==> out_bytes(out@) > usize::MAX,
{
    let mut text = String::new();
    let mut bytes: usize = 0;
    let mut spans: Vec<AnnotationSpan> = Vec::new();
    let mut open: Vec<usize> = Vec::new();
    let mut work: Vec<Work> = Vec::new();
    let ghost init = SpanState { bytes: 0, spans: seq![], open: seq![] };
    proof {
        lemma_work_push(work@, Work::Node(*out));
    }
    work.push(Work::Node(crate::share(out)));
    assert(work_events(work@) =~= events(out@)) by {
        assert(work@.drop_last() =~= Seq::<Work>::empty());
    }
    assert(span_models(spans@) =~= seq![]);
    assert(open_models(open@) =~= seq![]);
    loop
        invariant
            text@ + events_text(work_events(work@)) == out_text_of(out@),
            span_fold(
                SpanState {
                    bytes: bytes as nat,
                    spans: span_models(spans@),
                    open: open_models(open@),
                },
                work_events(work@),
            ) == span_fold(init, events(out@)),
            forall|i: int| 0 <= i < open@.len() ==> open@[i] < spans@.len(),
            init == (SpanState { bytes: 0, spans: seq![], open: seq![] }),
        decreases work_size(work@),
    {
        let ghost before = work@;
        let item = match work.pop() {
            Some(item) => item,
            None => {
                proof {
                    assert(work_events(work@) =~= seq![]);
                    assert(text@ + seq![] =~= text@);
                    assert(spans_match(spans@, span_models(spans@)));
                }
                return Some((text, spans));
            },
        };
        proof {
            assert(before =~= work@.push(item));
            lemma_work_push(work@, item);
        }
        let ghost rest = work_events(work@);
        let ghost state = SpanState {
            bytes: bytes as nat,
            spans: span_models(spans@),
            open: open_models(open@),
        };
        match item {
            Work::Node(o) => match &*o {
                Out::Empty => {
                    assert(seq![] + rest =~= rest);
                    assert(text@ + (seq![] + events_text(rest)) =~= text@ + events_text(rest));
                },
                Out::Text(run) => {
                    let n = run.byte_len();
                    proof {
                        lemma_fold_cons(state, Event::Text(run@), rest);
                        lemma_span_fold_bytes_monotone(span_step(state, Event::Text(run@)), rest);
                    }
                    let next = match bytes.checked_add(n) {
                        Some(v) => v,
                        None => return None,
                    };
                    assert(text@ + (run@.value + events_text(rest)) =~= text@
                        + run@.value + events_text(rest));
                    text.append(run.value());
                    bytes = next;
                },
                Out::Newline { indent } => {
                    proof {
                        lemma_fold_cons(state, Event::Newline(*indent), rest);
                        lemma_span_fold_bytes_monotone(span_step(state, Event::Newline(*indent)), rest);
                    }
                    let next = match bytes.checked_add(1) {
                        Some(v) => match v.checked_add(*indent as usize) {
                            Some(w) => w,
                            None => return None,
                        },
                        None => return None,
                    };
                    proof {
                        lemma_fold_cons(state, Event::Newline(*indent), rest);
                    }
                    let ghost t0 = text@;
                    let nl = "\n";
                    proof {
                        reveal_strlit("\n");
                    }
                    text.append(nl);
                    push_spaces(&mut text, *indent);
                    assert(t0 + (seq!['\n'] + spaces(*indent as nat) + events_text(rest)) =~= text@
                        + events_text(rest));
                    bytes = next;
                },
                Out::Cat(left, right) => {
                    proof {
                        lemma_work_push(work@, Work::Node(*right));
                        lemma_work_push(work@.push(Work::Node(*right)), Work::Node(*left));
                    }
                    work.push(Work::Node(crate::share(right)));
                    work.push(Work::Node(crate::share(left)));
                    assert(events(left@) + events(right@) + rest =~= events(left@) + (
                    events(right@) + rest));
                },
                Out::Tagged { tag, child } => {
                    let ghost child_events = events_rc(*child);
                    proof {
                        lemma_fold_cons(state, Event::Open(*tag), child_events + seq![Event::Close] + rest);
                        assert(seq![Event::Open(*tag)] + events(child@) + seq![Event::Close] + rest
                            =~= seq![Event::Open(*tag)] + (events(child@) + seq![Event::Close] + rest));
                    }
                    let index = spans.len();
                    let parent = if open.len() == 0 {
                        None
                    } else {
                        Some(open[open.len() - 1])
                    };
                    spans.push(AnnotationSpan { tag: *tag, start: bytes, end: bytes, parent });
                    open.push(index);
                    proof {
                        lemma_work_push(work@, Work::ExitTag);
                        lemma_work_push(work@.push(Work::ExitTag), Work::Node(*child));
                        assert(span_models(spans@) =~= state.spans.push(
                            SpanModel {
                                tag: *tag,
                                start: state.bytes,
                                end: state.bytes,
                                parent: if state.open.len() == 0 {
                                    None
                                } else {
                                    Some(state.open.last())
                                },
                            },
                        ));
                        assert(open_models(open@) =~= state.open.push(state.spans.len()));
                    }
                    work.push(Work::ExitTag);
                    work.push(Work::Node(crate::share(child)));
                    assert(events(child@) + seq![Event::Close] + rest =~= events(child@) + (
                    seq![Event::Close] + rest));
                    assert(text@ + (seq![] + events_text(events(child@) + seq![Event::Close] + rest))
                        =~= text@ + events_text(events(child@) + seq![Event::Close] + rest));
                },
                Out::Penalty { amount, child } => {
                    let ghost child_events = events_rc(*child);
                    proof {
                        lemma_fold_cons(state, Event::Penalty(*amount), child_events + rest);
                        assert(seq![Event::Penalty(*amount)] + events(child@) + rest =~= seq![
                            Event::Penalty(*amount)] + (events(child@) + rest));
                        lemma_work_push(work@, Work::Node(*child));
                    }
                    work.push(Work::Node(crate::share(child)));
                    assert(text@ + (seq![] + events_text(events(child@) + rest)) =~= text@
                        + events_text(events(child@) + rest));
                    assert(span_step(state, Event::Penalty(*amount)) =~= state);
                },
            },
            Work::ExitTag => {
                proof {
                    lemma_fold_cons(state, Event::Close, rest);
                }
                assert(text@ + (seq![] + events_text(rest)) =~= text@ + events_text(rest));
                if open.len() > 0 {
                    let i = open.pop().unwrap();
                    let updated = AnnotationSpan {
                        tag: spans[i].tag,
                        start: spans[i].start,
                        end: bytes,
                        parent: spans[i].parent,
                    };
                    spans.set(i, updated);
                    proof {
                        assert(open_models(open@) =~= state.open.drop_last());
                        assert(span_models(spans@) =~= state.spans.update(
                            i as int,
                            SpanModel {
                                tag: state.spans[i as int].tag,
                                start: state.spans[i as int].start,
                                end: state.bytes,
                                parent: state.spans[i as int].parent,
                            },
                        ));
                    }
                }
            },
        }
    }
}

/// Recomputes the model cost of an output tree laid out from column zero;
/// `None` exactly when a column or cost leaves its domain.
pub fn cost_of_out<M: CostModel>(model: &M, out: &Rc<Out>) -> (r: Option<ConsumerCost>)
    ensures
        r == out_cost(*model, out@),
{
    let mut cost = ConsumerCost::zero();
    let mut column: u32 = 0;
    let mut work: Vec<Work> = Vec::new();
    proof {
        lemma_work_push(work@, Work::Node(*out));
    }
    work.push(Work::Node(crate::share(out)));
    assert(work_events(work@) =~= events(out@)) by {
        assert(work@.drop_last() =~= Seq::<Work>::empty());
    }
    loop
        invariant
            cost_fold(*model, (cost, column), work_events(work@)) == cost_fold(
                *model,
                (cost_zero(), 0),
                events(out@),
            ),
        decreases work_size(work@),
    {
        let ghost before = work@;
        let item = match work.pop() {
            Some(item) => item,
            None => {
                assert(work_events(work@) =~= seq![]);
                return Some(cost);
            },
        };
        proof {
            assert(before =~= work@.push(item));
            lemma_work_push(work@, item);
        }
        let ghost rest = work_events(work@);
        let ghost state = (cost, column);
        match item {
            Work::Node(o) => match &*o {
                Out::Empty => {
                    assert(seq![] + rest =~= rest);
                },
                Out::Text(run) => {
                    proof {
                        lemma_cost_cons(*model, state, Event::Text(run@), rest);
                    }
                    let piece = match model.text(column, run.columns()) {
                        Some(c) => c,
                        None => return None,
                    };
                    cost = match cost.checked_add(piece) {
                        Some(c) => c,
                        None => return None,
                    };
                    column = match column.checked_add(run.columns()) {
                        Some(c) => c,
                        None => return None,
                    };
                },
                Out::Newline { indent } => {
                    proof {
                        lemma_cost_cons(*model, state, Event::Newline(*indent), rest);
                    }
                    let piece = match model.text(0, *indent) {
                        Some(c) => c,
                        None => return None,
                    };
                    let with_newline = match cost.checked_add(model.newline()) {
                        Some(c) => c,
                        None => return None,
                    };
                    cost = match with_newline.checked_add(piece) {
                        Some(c) => c,
                        None => return None,
                    };
                    column = *indent;
                },
                Out::Cat(left, right) => {
                    proof {
                        lemma_work_push(work@, Work::Node(*right));
                        lemma_work_push(work@.push(Work::Node(*right)), Work::Node(*left));
                    }
                    work.push(Work::Node(crate::share(right)));
                    work.push(Work::Node(crate::share(left)));
                    assert(events(left@) + events(right@) + rest =~= events(left@) + (
                    events(right@) + rest));
                },
                Out::Tagged { tag, child } => {
                    let ghost child_events = events_rc(*child);
                    proof {
                        lemma_cost_cons(*model, state, Event::Open(*tag), child_events + seq![Event::Close] + rest);
                        assert(seq![Event::Open(*tag)] + events(child@) + seq![Event::Close] + rest
                            =~= seq![Event::Open(*tag)] + (events(child@) + seq![Event::Close] + rest));
                        lemma_work_push(work@, Work::ExitTag);
                        lemma_work_push(work@.push(Work::ExitTag), Work::Node(*child));
                    }
                    work.push(Work::ExitTag);
                    work.push(Work::Node(crate::share(child)));
                    assert(events(child@) + seq![Event::Close] + rest =~= events(child@) + (
                    seq![Event::Close] + rest));
                },
                Out::Penalty { amount, child } => {
                    let ghost child_events = events_rc(*child);
                    proof {
                        lemma_cost_cons(*model, state, Event::Penalty(*amount), child_events + rest);
                        assert(seq![Event::Penalty(*amount)] + events(child@) + rest =~= seq![
                            Event::Penalty(*amount)] + (events(child@) + rest));
                        lemma_work_push(work@, Work::Node(*child));
                    }
                    cost = match cost.checked_add(model.penalty(*amount)) {
                        Some(c) => c,
                        None => return None,
                    };
                    work.push(Work::Node(crate::share(child)));
                },
            },
            Work::ExitTag => {
                proof {
                    lemma_cost_cons(*model, state, Event::Close, rest);
                }
            },
        }
    }
}

proof fn lemma_cost_cons<M: CostModel>(m: M, state: (ConsumerCost, u32), e: Event, rest: Seq<Event>)
    ensures
        cost_fold(m, state, seq![e] + rest) == (match cost_step(m, state, e) {
            Some(next) => cost_fold(m, next, rest),
            None => None,
        }),
{
    assert((seq![e] + rest).drop_first() =~= rest);
}

/// Materializes an output tree as text.
pub fn to_string(out: &Rc<Out>) -> (r: String)
    ensures
        r@ == out_text_of(out@),
{
    let mut text = String::new();
    let mut work: Vec<Work> = Vec::new();
    proof {
        lemma_work_push(work@, Work::Node(*out));
    }
    work.push(Work::Node(crate::share(out)));
    assert(work_events(work@) =~= events(out@)) by {
        assert(work@.drop_last() =~= Seq::<Work>::empty());
    }
    loop
        invariant
            text@ + events_text(work_events(work@)) == out_text_of(out@),
        decreases work_size(work@),
    {
        let ghost before = work@;
        let item = match work.pop() {
            Some(item) => item,
            None => {
                assert(work_events(work@) =~= seq![]);
                assert(text@ + seq![] =~= text@);
                return text;
            },
        };
        proof {
            assert(before =~= work@.push(item));
            lemma_work_push(work@, item);
        }
        let ghost rest = work_events(work@);
        let ghost state = SpanState { bytes: 0, spans: seq![], open: seq![] };
        match item {
            Work::Node(o) => match &*o {
                Out::Empty => {
                    assert(seq![] + rest =~= rest);
                },
                Out::Text(run) => {
                    proof {
                        lemma_fold_cons(state, Event::Text(run@), rest);
                    }
                    assert(text@ + (run@.value + events_text(rest)) =~= text@
                        + run@.value + events_text(rest));
                    text.append(run.value());
                },
                Out::Newline { indent } => {
                    proof {
                        lemma_fold_cons(state, Event::Newline(*indent), rest);
                    }
                    let ghost t0 = text@;
                    let nl = "\n";
                    proof {
                        reveal_strlit("\n");
                    }
                    text.append(nl);
                    push_spaces(&mut text, *indent);
                    assert(t0 + (seq!['\n'] + spaces(*indent as nat) + events_text(rest)) =~= text@
                        + events_text(rest));
                },
                Out::Cat(left, right) => {
                    proof {
                        lemma_work_push(work@, Work::Node(*right));
                        lemma_work_push(work@.push(Work::Node(*right)), Work::Node(*left));
                    }
                    work.push(Work::Node(crate::share(right)));
                    work.push(Work::Node(crate::share(left)));
                    assert(events(left@) + events(right@) + rest =~= events(left@) + (
                    events(right@) + rest));
                },
                Out::Tagged { tag, child } => {
                    let ghost child_events = events_rc(*child);
                    proof {
                        lemma_fold_cons(state, Event::Open(*tag), child_events + seq![Event::Close] + rest);
                        assert(seq![Event::Open(*tag)] + events(child@) + seq![Event::Close] + rest
                            =~= seq![Event::Open(*tag)] + (events(child@) + seq![Event::Close] + rest));
                        lemma_work_push(work@, Work::ExitTag);
                        lemma_work_push(work@.push(Work::ExitTag), Work::Node(*child));
                    }
                    work.push(Work::ExitTag);
                    work.push(Work::Node(crate::share(child)));
                    assert(events(child@) + seq![Event::Close] + rest =~= events(child@) + (
                    seq![Event::Close] + rest));
                    assert(text@ + (seq![] + events_text(events(child@) + seq![Event::Close] + rest))
                        =~= text@ + events_text(events(child@) + seq![Event::Close] + rest));
                },
                Out::Penalty { amount, child } => {
                    let ghost child_events = events_rc(*child);
                    proof {
                        lemma_fold_cons(state, Event::Penalty(*amount), child_events + rest);
                        assert(seq![Event::Penalty(*amount)] + events(child@) + rest =~= seq![
                            Event::Penalty(*amount)] + (events(child@) + rest));
                        lemma_work_push(work@, Work::Node(*child));
                    }
                    work.push(Work::Node(crate::share(child)));
                    assert(text@ + (seq![] + events_text(events(child@) + rest)) =~= text@
                        + events_text(events(child@) + rest));
                },
            },
            Work::ExitTag => {
                proof {
                    lemma_fold_cons(state, Event::Close, rest);
                }
                assert(text@ + (seq![] + events_text(rest)) =~= text@ + events_text(rest));
            },
        }
    }
}

/// Splits `s` at every newline; the pieces never contain a newline.
pub open spec fn split_lines(s: Seq<char>) -> Seq<Seq<char>>
    decreases s.len(),
{
    if s.len() == 0 {
        seq![seq![]]
    } else {
        let rest = split_lines(s.drop_first());
        if s[0] == '\n' {
            seq![Seq::<char>::empty()] + rest
        } else {
            rest.update(0, seq![s[0]] + rest[0])
        }
    }
}

/// Joins lines with newline characters.
pub open spec fn join_lines(lines: Seq<Seq<char>>) -> Seq<char>
    decreases lines.len(),
{
    if lines.len() == 0 {
        seq![]
    } else if lines.len() == 1 {
        lines[0]
    } else {
        lines[0] + seq!['\n'] + join_lines(lines.drop_first())
    }
}

/// Splitting at newlines and joining with newlines gives back the text.
pub proof fn lemma_split_join(s: Seq<char>)
    ensures
        split_lines(s).len() >= 1,
        join_lines(split_lines(s)) == s,
    decreases s.len(),
{
    if s.len() > 0 {
        let rest = split_lines(s.drop_first());
        lemma_split_join(s.drop_first());
        if s[0] == '\n' {
            let lines = seq![Seq::<char>::empty()] + rest;
            assert(lines.drop_first() =~= rest);
            assert(join_lines(lines) =~= seq!['\n'] + join_lines(rest));
            assert(s =~= seq!['\n'] + s.drop_first());
        } else {
            let lines = rest.update(0, seq![s[0]] + rest[0]);
            if rest.len() == 1 {
                assert(join_lines(lines) == seq![s[0]] + rest[0]);
                assert(s =~= seq![s[0]] + s.drop_first());
            } else {
                assert(lines.drop_first() =~= rest.drop_first());
                assert(join_lines(lines) =~= seq![s[0]] + (rest[0] + seq!['\n'] + join_lines(
                    rest.drop_first(),
                )));
                assert(s =~= seq![s[0]] + s.drop_first());
            }
        }
    }
}

/// Splits `text` into the lines between its newline characters.
pub fn split_into_lines(text: &str) -> (r: Vec<String>)
    ensures
        r@.len() == split_lines(text@).len(),
        forall|i: int| 0 <= i < r@.len() ==> (#[trigger] r@[i])@ == split_lines(text@)[i],
{
    let n = text.unicode_len();
    let mut lines: Vec<String> = Vec::new();
    let mut current = String::new();
    let mut i: usize = n;
    // Walk backwards so that every step prepends to the first line.
    let mut rev_chars: Vec<char> = Vec::new();
    let mut k: usize = 0;
    while k < n
        invariant
            n == text@.len(),
            k <= n,
            rev_chars@ =~= text@.take(k as int),
        decreases n - k,
    {
        rev_chars.push(text.get_char(k));
        k = k + 1;
        assert(rev_chars@ =~= text@.take(k as int));
    }
    let ghost full = text@;
    // lines_rev holds the completed lines after `i`, last line first.
    let mut done: Vec<String> = Vec::new();
    while i > 0
        invariant
            n == full.len(),
            full == text@,
            rev_chars@ == full,
            i <= n,
            split_lines(full.skip(i as int)) =~= seq![current@] + Seq::new(
                done@.len(),
                |j: int| done@[done@.len() - 1 - j]@,
            ),
        decreases i,
    {
        i = i - 1;
        let c = rev_chars[i];
        assert(full.skip(i as int).drop_first() =~= full.skip(i as int + 1));
        assert(full.skip(i as int)[0] == c);
        if c == '\n' {
            let finished = current;
            current = String::new();
            done.push(finished);
        } else {
            let mut fresh = String::new();
            push_char(&mut fresh, c);
            fresh.append(current.as_str());
            current = fresh;
        }
    }
    assert(full.skip(0) =~= full);
    lines.push(current);
    let mut j: usize = done.len();
    while j > 0
        invariant
            j <= done@.len(),
            split_lines(full) =~= seq![lines@[0]@] + Seq::new(
                done@.len(),
                |t: int| done@[done@.len() - 1 - t]@,
            ),
            lines@.len() == 1 + (done@.len() - j),
            forall|t: int| 1 <= t < lines@.len() ==> (#[trigger] lines@[t])@ == done@[done@.len() - t]@,
            full == text@,
        decreases j,
    {
        j = j - 1;
        let line = done[j].clone();
        lines.push(line);
    }
    lines
}

/// `String::push`: appends one character.
#[verifier::external_body]
pub(crate) fn push_char(s: &mut String, c: char)
    ensures
        final(s)@ == old(s)@.push(c),
{
    s.push(c)
}

/// Materializes an output tree and splits it into lines.
pub fn to_lines(out: &Rc<Out>) -> (r: Vec<String>)
    ensures
        r@.len() == split_lines(out_text_of(out@)).len(),
        forall|i: int| 0 <= i < r@.len() ==> (#[trigger] r@[i])@ == split_lines(out_text_of(out@))[i],
{
    let text = to_string(out);
    split_into_lines(text.as_str())
}

/// Materializes `out` with its spans, attaching `cost`; `None` when a byte
/// count leaves `usize`.
pub fn materialize(cost: ConsumerCost, out: &Rc<Out>) -> (r: Option<Rendered>)
    ensures
        r matches Some(rendered) ==> rendered.text@ == out_text_of(out@) && spans_match(
            rendered.spans@,
            out_spans(out@),
        ) && rendered.cost == cost,
        r is None ==> out_bytes(out@) > usize::MAX,
{
    match materialize_text(out) {
        Some((text, spans)) => Some(Rendered { text, spans, cost }),
        None => None,
    }
}

spec fn span_models(s: Seq<AnnotationSpan>) -> Seq<SpanModel> {
    Seq::new(
        s.len(),
        |i: int|
            SpanModel {
                tag: s[i].tag,
                start: s[i].start as nat,
                end: s[i].end as nat,
                parent: match s[i].parent {
                    Some(p) => Some(p as nat),
                    None => None,
                },
            },
    )
}

spec fn open_models(s: Seq<usize>) -> Seq<nat> {
    Seq::new(s.len(), |i: int| s[i] as nat)
}

} // verus!
