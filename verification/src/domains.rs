//! Soundness of preparation: every layout of a document that prepares
//! against the production limits stays inside the prepared bounds, so its
//! columns, cost and size are representable.
use crate::brute::{all_layouts_defined, layout_cost, spec_expansions, spec_resolve};
use crate::frontier::lemma_concat_pairs_decompose;
use crate::cost::{clamp_indent, cost_add, cost_zero, over, text_overflow, ConsumerCost, CostModel, PreparedConsumerCostModel};
use crate::doc::{byte_offset, utf8_len, DocModel, TagId};
use crate::prepare::{bound_calc, production_limits, spec_finish, tags_of, BoundCalc, BoundsModel};
use crate::research::{
    cost_fold, cost_step, event_bytes, event_text, events, events_text, lemma_out_cat_events, out_bytes,
    out_spans, out_text_of, span_fold, span_step, spaces, Event, OutModel, SpanState,
};
use vstd::prelude::*;

verus! {

/// Column after one event from `col`.
pub open spec fn step_col(e: Event, col: int) -> int {
    match e {
        Event::Text(run) => col + run.columns,
        Event::Newline(indent) => indent as int,
        _ => col,
    }
}

/// Column after a sequence of events from `col`.
pub open spec fn ev_end(es: Seq<Event>, col: int) -> int
    decreases es.len(),
{
    if es.len() == 0 {
        col
    } else {
        ev_end(es.drop_first(), step_col(es[0], col))
    }
}

/// Largest column reached by a sequence of events from `col`, `col`
/// included.
pub open spec fn ev_max(es: Seq<Event>, col: int) -> int
    decreases es.len(),
{
    if es.len() == 0 {
        col
    } else {
        let rest = ev_max(es.drop_first(), step_col(es[0], col));
        if col >= rest {
            col
        } else {
            rest
        }
    }
}

/// Bytes emitted by a sequence of events.
pub open spec fn ev_bytes(es: Seq<Event>) -> nat
    decreases es.len(),
{
    if es.len() == 0 {
        0
    } else {
        event_bytes(es[0]) + ev_bytes(es.drop_first())
    }
}

/// Text bytes of a sequence of events, newlines not counted.
pub open spec fn ev_text_bytes(es: Seq<Event>) -> nat
    decreases es.len(),
{
    if es.len() == 0 {
        0
    } else {
        (match es[0] {
            Event::Text(run) => byte_offset(run.value, run.value.len() as int),
            _ => 0,
        }) + ev_text_bytes(es.drop_first())
    }
}

/// Newlines of a sequence of events.
pub open spec fn ev_newlines(es: Seq<Event>) -> nat
    decreases es.len(),
{
    if es.len() == 0 {
        0
    } else {
        (if es[0] is Newline {
            1nat
        } else {
            0nat
        }) + ev_newlines(es.drop_first())
    }
}

/// Tagged regions opened by a sequence of events.
pub open spec fn ev_opens(es: Seq<Event>) -> nat
    decreases es.len(),
{
    if es.len() == 0 {
        0
    } else {
        (if es[0] is Open {
            1nat
        } else {
            0nat
        }) + ev_opens(es.drop_first())
    }
}

/// Penalty amounts of a sequence of events.
pub open spec fn ev_penalty(es: Seq<Event>) -> nat
    decreases es.len(),
{
    if es.len() == 0 {
        0
    } else {
        (match es[0] {
            Event::Penalty(amount) => amount as nat,
            _ => 0,
        }) + ev_penalty(es.drop_first())
    }
}

/// The largest column reached is at least the start and the end.
proof fn lemma_ev_max_bounds(es: Seq<Event>, col: int)
    ensures
        col <= ev_max(es, col),
        ev_end(es, col) <= ev_max(es, col),
    decreases es.len(),
{
    if es.len() > 0 {
        lemma_ev_max_bounds(es.drop_first(), step_col(es[0], col));
    }
}

/// Every measure of a concatenation composes the measures of its parts.
proof fn lemma_ev_append(a: Seq<Event>, b: Seq<Event>, col: int)
    ensures
        ev_end(a + b, col) == ev_end(b, ev_end(a, col)),
        ev_max(a + b, col) == (if ev_max(a, col) >= ev_max(b, ev_end(a, col)) {
            ev_max(a, col)
        } else {
            ev_max(b, ev_end(a, col))
        }),
        ev_bytes(a + b) == ev_bytes(a) + ev_bytes(b),
        ev_text_bytes(a + b) == ev_text_bytes(a) + ev_text_bytes(b),
        ev_newlines(a + b) == ev_newlines(a) + ev_newlines(b),
        ev_penalty(a + b) == ev_penalty(a) + ev_penalty(b),
        ev_opens(a + b) == ev_opens(a) + ev_opens(b),
    decreases a.len(),
{
    if a.len() == 0 {
        assert(a + b =~= b);
        lemma_ev_max_bounds(b, col);
    } else {
        assert((a + b).drop_first() =~= a.drop_first() + b);
        assert((a + b)[0] == a[0]);
        lemma_ev_append(a.drop_first(), b, step_col(a[0], col));
    }
}

/// The measures of a single event.
proof fn lemma_ev_single(e: Event, col: int)
    ensures
        ev_end(seq![e], col) == step_col(e, col),
        ev_max(seq![e], col) == (if col >= step_col(e, col) {
            col
        } else {
            step_col(e, col)
        }),
        ev_bytes(seq![e]) == event_bytes(e),
        ev_newlines(seq![e]) == (if e is Newline {
            1nat
        } else {
            0nat
        }),
        ev_penalty(seq![e]) == (match e {
            Event::Penalty(amount) => amount as nat,
            _ => 0,
        }),
        ev_text_bytes(seq![e]) == (match e {
            Event::Text(run) => byte_offset(run.value, run.value.len() as int),
            _ => 0,
        }),
        ev_opens(seq![e]) == (if e is Open {
            1nat
        } else {
            0nat
        }),
{
    let one = seq![e];
    assert(one.drop_first() =~= Seq::<Event>::empty());
    assert(one[0] == e);
    assert(ev_end(one.drop_first(), step_col(e, col)) == step_col(e, col));
    assert(ev_max(one.drop_first(), step_col(e, col)) == step_col(e, col));
    assert(ev_bytes(one.drop_first()) == 0);
    assert(ev_newlines(one.drop_first()) == 0);
    assert(ev_penalty(one.drop_first()) == 0);
    assert(ev_text_bytes(one.drop_first()) == 0);
    assert(ev_opens(one.drop_first()) == 0);
}

/// The bounds the layout argument uses are all representable.
pub open spec fn calc_ok(v: BoundCalc) -> bool {
    &&& v.text_bytes is Some
    &&& v.display_columns is Some
    &&& v.nest is Some
    &&& v.newlines is Some
    &&& v.penalty is Some
    &&& v.spans is Some
}

/// Columns any layout of `v` may add: its text columns and indentation.
pub open spec fn calc_reach(v: BoundCalc) -> int {
    v.display_columns.unwrap() + v.nest.unwrap()
}

/// Output `o`, laid out from `col` and ending at `end`, stays within the
/// bounds `v` while reaching no column beyond `cap`.
pub open spec fn resolved_within(o: OutModel, col: int, end: int, v: BoundCalc, cap: int) -> bool {
    let es = events(o);
    &&& end == ev_end(es, col)
    &&& ev_max(es, col) <= cap
    &&& ev_newlines(es) <= v.newlines.unwrap()
    &&& ev_penalty(es) <= v.penalty.unwrap()
    &&& ev_text_bytes(es) <= v.text_bytes.unwrap()
    &&& ev_opens(es) <= v.spans.unwrap()
}

/// The five bounds of a concatenation are the sums of its parts'.
proof fn lemma_calc_concat(a: DocModel, b: DocModel)
    requires
        calc_ok(bound_calc(DocModel::Concat(Box::new(a), Box::new(b)))),
    ensures
        ({
            let v = bound_calc(DocModel::Concat(Box::new(a), Box::new(b)));
            let va = bound_calc(a);
            let vb = bound_calc(b);
            &&& calc_ok(va)
            &&& calc_ok(vb)
            &&& v.text_bytes.unwrap() == va.text_bytes.unwrap() + vb.text_bytes.unwrap()
            &&& v.display_columns.unwrap() == va.display_columns.unwrap() + vb.display_columns.unwrap()
            &&& v.nest.unwrap() == va.nest.unwrap() + vb.nest.unwrap()
            &&& v.newlines.unwrap() == va.newlines.unwrap() + vb.newlines.unwrap()
            &&& v.penalty.unwrap() == va.penalty.unwrap() + vb.penalty.unwrap()
            &&& v.spans.unwrap() == va.spans.unwrap() + vb.spans.unwrap()
        }),
{
}

/// The child of a node with one child.
pub open spec fn unary_child(d: DocModel) -> Option<DocModel> {
    match d {
        DocModel::Nest(_, x) | DocModel::Align(x) | DocModel::Tag(_, x) | DocModel::Penalty(_, x) => Some(*x),
        _ => None,
    }
}

/// A node with one child keeps the child's bounds, but for its own
/// indentation, penalty or tag.
proof fn lemma_calc_unary(d: DocModel, x: DocModel)
    requires
        calc_ok(bound_calc(d)),
        unary_child(d) == Some(x),
    ensures
        ({
            let v = bound_calc(d);
            let vx = bound_calc(x);
            &&& calc_ok(vx)
            &&& v.text_bytes.unwrap() == vx.text_bytes.unwrap()
            &&& v.display_columns.unwrap() == vx.display_columns.unwrap()
            &&& v.newlines.unwrap() == vx.newlines.unwrap()
            &&& v.nest.unwrap() == vx.nest.unwrap() + (match d {
                DocModel::Nest(n, _) => n as int,
                _ => 0,
            })
            &&& v.penalty.unwrap() == vx.penalty.unwrap() + (match d {
                DocModel::Penalty(amount, _) => amount as int,
                _ => 0,
            })
            &&& v.spans.unwrap() == vx.spans.unwrap() + (if d is Tag {
                1int
            } else {
                0int
            })
        }),
{
}

/// A choice bounds each of its alternatives.
proof fn lemma_calc_choice(l: DocModel, r: DocModel)
    requires
        calc_ok(bound_calc(DocModel::Choice(Box::new(l), Box::new(r)))),
    ensures
        ({
            let v = bound_calc(DocModel::Choice(Box::new(l), Box::new(r)));
            &&& calc_ok(bound_calc(l))
            &&& calc_ok(bound_calc(r))
            &&& calc_le(bound_calc(l), v)
            &&& calc_le(bound_calc(r), v)
        }),
{
}

/// Each of the five bounds of `v` is at most that of `w`.
pub open spec fn calc_le(v: BoundCalc, w: BoundCalc) -> bool {
    &&& v.text_bytes.unwrap() <= w.text_bytes.unwrap()
    &&& v.display_columns.unwrap() <= w.display_columns.unwrap()
    &&& v.nest.unwrap() <= w.nest.unwrap()
    &&& v.newlines.unwrap() <= w.newlines.unwrap()
    &&& v.penalty.unwrap() <= w.penalty.unwrap()
    &&& v.spans.unwrap() <= w.spans.unwrap()
}

/// `d` resolves from `column` under `indent` within its bounds, reaching no
/// column beyond `m` plus its text columns and indentation.
pub open spec fn resolves_within(d: DocModel, column: u32, indent: u32, cap: u32, m: int) -> bool {
    spec_resolve(d, column, indent, cap) matches Some((o, end)) && resolved_within(
        o,
        column as int,
        end as int,
        bound_calc(d),
        m + calc_reach(bound_calc(d)),
    )
}

/// Laid out from a column and under an indentation both at most `m`, a
/// document whose bounds are representable resolves, and reaches no column
/// beyond `m` plus its text columns and indentation.
pub proof fn lemma_resolve_within(d: DocModel, column: u32, indent: u32, cap: u32, m: int)
    requires
        calc_ok(bound_calc(d)),
        column <= m,
        indent <= m,
        m + calc_reach(bound_calc(d)) <= u32::MAX,
    ensures
        resolves_within(d, column, indent, cap, m),
    decreases d, 1nat,
{
    match d {
        DocModel::Empty => {
            assert(events(OutModel::Empty) =~= Seq::<Event>::empty());
            assert(resolves_within(d, column, indent, cap, m));
        },
        DocModel::Text(t) => {
            lemma_ev_single(Event::Text(t), column as int);
            assert(resolves_within(d, column, indent, cap, m));
        },
        DocModel::Line(_) => {
            lemma_ev_single(Event::Newline(indent), column as int);
            assert(resolves_within(d, column, indent, cap, m));
        },
        DocModel::Concat(a, b) => {
            lemma_calc_concat(*a, *b);
            lemma_resolve_concat(*a, *b, column, indent, cap, m);
            assert(resolves_within(d, column, indent, cap, m));
        },
        DocModel::Nest(n, x) => {
            lemma_calc_unary(d, *x);
            lemma_resolve_within(*x, column, clamp_indent((indent + n) as u32, cap), cap, m + n);
            assert(resolves_within(d, column, indent, cap, m));
        },
        DocModel::Align(x) => {
            lemma_calc_unary(d, *x);
            lemma_resolve_within(*x, column, clamp_indent(column, cap), cap, m);
            assert(resolves_within(d, column, indent, cap, m));
        },
        DocModel::Tag(t, x) => {
            lemma_calc_unary(d, *x);
            lemma_resolve_within(*x, column, indent, cap, m);
            lemma_wrap_tag(t, spec_resolve(*x, column, indent, cap).unwrap().0, column as int, spec_resolve(*x, column, indent, cap).unwrap().1 as int);
            assert(resolves_within(d, column, indent, cap, m));
        },
        DocModel::Penalty(amount, x) => {
            lemma_calc_unary(d, *x);
            lemma_resolve_within(*x, column, indent, cap, m);
            lemma_wrap_penalty(amount, spec_resolve(*x, column, indent, cap).unwrap().0, column as int);
            assert(resolves_within(d, column, indent, cap, m));
        },
        DocModel::Choice(l, r) => {
            lemma_calc_choice(*l, *r);
            lemma_resolve_within(*l, column, indent, cap, m);
            assert(resolves_within(d, column, indent, cap, m));
        },
    }
}

/// The concatenation case: the right part starts where the left one ends,
/// under the same indentation.
proof fn lemma_resolve_concat(a: DocModel, b: DocModel, column: u32, indent: u32, cap: u32, m: int)
    requires
        calc_ok(bound_calc(a)),
        calc_ok(bound_calc(b)),
        column <= m,
        indent <= m,
        m + calc_reach(bound_calc(a)) + calc_reach(bound_calc(b)) <= u32::MAX,
    ensures
        spec_resolve(DocModel::Concat(Box::new(a), Box::new(b)), column, indent, cap) matches Some((o, end))
            && {
            let es = events(o);
            &&& end == ev_end(es, column as int)
            &&& ev_max(es, column as int) <= m + calc_reach(bound_calc(a)) + calc_reach(bound_calc(b))
            &&& ev_newlines(es) <= bound_calc(a).newlines.unwrap() + bound_calc(b).newlines.unwrap()
            &&& ev_penalty(es) <= bound_calc(a).penalty.unwrap() + bound_calc(b).penalty.unwrap()
            &&& ev_text_bytes(es) <= bound_calc(a).text_bytes.unwrap() + bound_calc(b).text_bytes.unwrap()
            &&& ev_opens(es) <= bound_calc(a).spans.unwrap() + bound_calc(b).spans.unwrap()
        },
    decreases DocModel::Concat(Box::new(a), Box::new(b)), 0nat,
{
    let va = bound_calc(a);
    lemma_resolve_within(a, column, indent, cap, m);
    let (oa, ca) = spec_resolve(a, column, indent, cap).unwrap();
    let ma = m + calc_reach(va);
    lemma_ev_max_bounds(events(oa), column as int);
    lemma_resolve_within(b, ca, indent, cap, ma);
    let (ob, cb) = spec_resolve(b, ca, indent, cap).unwrap();
    lemma_out_cat_events(oa, ob);
    lemma_ev_append(events(oa), events(ob), column as int);
}

/// Tagging adds an opening and a closing event, which emit nothing.
proof fn lemma_wrap_tag(t: u32, o: OutModel, column: int, end: int)
    ensures
        ({
            let es = events(OutModel::Tagged(t, Box::new(o)));
            let inner = events(o);
            &&& ev_end(es, column) == ev_end(inner, column)
            &&& ev_max(es, column) == ev_max(inner, column)
            &&& ev_newlines(es) == ev_newlines(inner)
            &&& ev_penalty(es) == ev_penalty(inner)
            &&& ev_text_bytes(es) == ev_text_bytes(inner)
            &&& ev_bytes(es) == ev_bytes(inner)
            &&& ev_opens(es) == ev_opens(inner) + 1
        }),
{
    let ex = events(o);
    lemma_ev_single(Event::Open(t), column);
    lemma_ev_append(seq![Event::Open(t)], ex, column);
    lemma_ev_max_bounds(ex, column);
    lemma_ev_single(Event::Close, ev_end(ex, column));
    lemma_ev_append(seq![Event::Open(t)] + ex, seq![Event::Close], column);
}

/// A penalty adds one event charging its amount, which emits nothing.
proof fn lemma_wrap_penalty(amount: u32, o: OutModel, column: int)
    ensures
        ({
            let es = events(OutModel::Penalty(amount, Box::new(o)));
            let inner = events(o);
            &&& ev_end(es, column) == ev_end(inner, column)
            &&& ev_max(es, column) == ev_max(inner, column)
            &&& ev_newlines(es) == ev_newlines(inner)
            &&& ev_penalty(es) == ev_penalty(inner) + amount
            &&& ev_text_bytes(es) == ev_text_bytes(inner)
            &&& ev_bytes(es) == ev_bytes(inner)
            &&& ev_opens(es) == ev_opens(inner)
        }),
{
    let ex = events(o);
    lemma_ev_single(Event::Penalty(amount), column);
    lemma_ev_max_bounds(ex, column);
    lemma_ev_append(seq![Event::Penalty(amount)], ex, column);
}

/// Bounds within those of a concatenation's parts give bounds within the
/// concatenation's.
proof fn lemma_calc_concat_mono(a: DocModel, b: DocModel, ea: DocModel, eb: DocModel)
    requires
        calc_ok(bound_calc(DocModel::Concat(Box::new(a), Box::new(b)))),
        calc_ok(bound_calc(ea)),
        calc_ok(bound_calc(eb)),
        calc_le(bound_calc(ea), bound_calc(a)),
        calc_le(bound_calc(eb), bound_calc(b)),
    ensures
        calc_ok(bound_calc(DocModel::Concat(Box::new(ea), Box::new(eb)))),
        calc_le(
            bound_calc(DocModel::Concat(Box::new(ea), Box::new(eb))),
            bound_calc(DocModel::Concat(Box::new(a), Box::new(b))),
        ),
{
    lemma_calc_concat(a, b);
}

/// Bounds within those of a one-child node's child give bounds within the
/// node's.
proof fn lemma_calc_unary_mono(d: DocModel, x: DocModel, e: DocModel, ex: DocModel)
    requires
        calc_ok(bound_calc(d)),
        unary_child(d) == Some(x),
        unary_child(e) == Some(ex),
        calc_ok(bound_calc(ex)),
        calc_le(bound_calc(ex), bound_calc(x)),
        match (d, e) {
            (DocModel::Nest(n, _), DocModel::Nest(n2, _)) => n == n2,
            (DocModel::Align(_), DocModel::Align(_)) => true,
            (DocModel::Tag(t, _), DocModel::Tag(t2, _)) => t == t2,
            (DocModel::Penalty(p, _), DocModel::Penalty(p2, _)) => p == p2,
            _ => false,
        },
    ensures
        calc_ok(bound_calc(e)),
        calc_le(bound_calc(e), bound_calc(d)),
{
    lemma_calc_unary(d, x);
}

/// Every resolution of a document lies within the document's bounds.
pub proof fn lemma_expansion_within(d: DocModel, k: int)
    requires
        calc_ok(bound_calc(d)),
        0 <= k < spec_expansions(d).len(),
    ensures
        calc_ok(bound_calc(spec_expansions(d)[k])),
        calc_le(bound_calc(spec_expansions(d)[k]), bound_calc(d)),
    decreases d,
{
    match d {
        DocModel::Concat(a, b) => {
            lemma_calc_concat(*a, *b);
            let ls = spec_expansions(*a);
            let rs = spec_expansions(*b);
            lemma_concat_pairs_decompose(ls, rs, k);
            let (i, j) = choose|i: int, j: int|
                0 <= i < ls.len() && 0 <= j < rs.len() && crate::brute::concat_pairs(ls, rs)[k]
                    == DocModel::Concat(Box::new(#[trigger] ls[i]), Box::new(#[trigger] rs[j]));
            lemma_expansion_within(*a, i);
            lemma_expansion_within(*b, j);
            lemma_calc_concat_mono(*a, *b, ls[i], rs[j]);
        },
        DocModel::Nest(n, x) => {
            lemma_calc_unary(d, *x);
            lemma_expansion_within(*x, k);
            let ex = spec_expansions(*x)[k];
            lemma_calc_unary_mono(d, *x, DocModel::Nest(n, Box::new(ex)), ex);
        },
        DocModel::Align(x) => {
            lemma_calc_unary(d, *x);
            lemma_expansion_within(*x, k);
            let ex = spec_expansions(*x)[k];
            lemma_calc_unary_mono(d, *x, DocModel::Align(Box::new(ex)), ex);
        },
        DocModel::Tag(t, x) => {
            lemma_calc_unary(d, *x);
            lemma_expansion_within(*x, k);
            let ex = spec_expansions(*x)[k];
            lemma_calc_unary_mono(d, *x, DocModel::Tag(t, Box::new(ex)), ex);
        },
        DocModel::Penalty(amount, x) => {
            lemma_calc_unary(d, *x);
            lemma_expansion_within(*x, k);
            let ex = spec_expansions(*x)[k];
            lemma_calc_unary_mono(d, *x, DocModel::Penalty(amount, Box::new(ex)), ex);
        },
        DocModel::Choice(l, r) => {
            lemma_calc_choice(*l, *r);
            let ls = spec_expansions(*l);
            if k < ls.len() {
                lemma_expansion_within(*l, k);
            } else {
                lemma_expansion_within(*r, k - ls.len());
            }
        },
        _ => {},
    }
}

/// `x` squared.
pub open spec fn sqr(x: int) -> int {
    x * x
}

proof fn lemma_sqr_mono(a: int, b: int)
    requires
        0 <= a <= b,
    ensures
        0 <= sqr(a) <= sqr(b),
{
    assert(0 <= a * a <= b * b) by (nonlinear_arith)
        requires
            0 <= a <= b,
    ;
}

proof fn lemma_mul_step(k: int, x: int)
    requires
        k >= 0,
        x >= 0,
    ensures
        (k + 1) * x == k * x + x,
        k * x >= 0,
{
    assert((k + 1) * x == k * x + x && k * x >= 0) by (nonlinear_arith)
        requires
            k >= 0,
            x >= 0,
    ;
}

/// Columns beyond the width never exceed the column.
proof fn lemma_over_bounds(width: u32, a: int, b: int)
    requires
        0 <= a <= b,
    ensures
        0 <= over(width, a) <= over(width, b),
        over(width, b) <= b,
        over(width, 0) == 0,
{
}

/// Charging events whose columns stay within `cap` under the production
/// model: each line adds at most `cap` squared of overflow beyond the open
/// line's own, and the burden is the newlines' and penalties' sum.
pub proof fn lemma_fold_within(
    m: PreparedConsumerCostModel,
    cost: ConsumerCost,
    col: u32,
    es: Seq<Event>,
    cap: int,
    sq: int,
)
    requires
        0 <= cap <= u32::MAX,
        sq == sqr(cap),
        ev_max(es, col as int) <= cap,
        sqr(over(m.width, col as int)) <= cost.overflow,
        cost.overflow - sqr(over(m.width, col as int)) + (ev_newlines(es) + 1) * sq <= u128::MAX,
        cost.burden + ev_newlines(es) * m.newline_cost + ev_penalty(es) <= u64::MAX,
    ensures
        cost_fold(m, (cost, col), es) matches Some((c2, col2)) && {
            &&& col2 == ev_end(es, col as int)
            &&& sqr(over(m.width, col2 as int)) <= c2.overflow
            &&& c2.overflow - sqr(over(m.width, col2 as int)) <= cost.overflow - sqr(
                over(m.width, col as int),
            ) + ev_newlines(es) * sq
            &&& c2.burden == cost.burden + ev_newlines(es) * m.newline_cost + ev_penalty(es)
        },
    decreases es.len(),
{
    let w = m.width;
    let f = cost.overflow - sqr(over(w, col as int));
    if es.len() == 0 {
        lemma_mul_step(0, sq);
        lemma_mul_step(0, m.newline_cost as int);
    } else {
        let e = es[0];
        let rest = es.drop_first();
        let col1 = step_col(e, col as int);
        let k = ev_newlines(rest) as int;
        lemma_ev_max_bounds(rest, col1);
        lemma_over_bounds(w, col as int, cap);
        lemma_sqr_mono(over(w, col as int), cap);
        lemma_mul_step(k, sq);
        lemma_mul_step(k, m.newline_cost as int);
        lemma_mul_step(k + 1, sq);
        match e {
            Event::Text(run) => {
                let col2 = col1;
                lemma_over_bounds(w, col as int, col2);
                lemma_over_bounds(w, col2, cap);
                lemma_sqr_mono(over(w, col as int), over(w, col2));
                lemma_sqr_mono(over(w, col2), cap);
                assert(m.spec_text(col, run.columns) == Some(
                    ConsumerCost { overflow: text_overflow(w, col as int, run.columns as int) as u128, burden: 0 },
                ));
                let next = ConsumerCost {
                    overflow: (cost.overflow + text_overflow(w, col as int, run.columns as int)) as u128,
                    burden: cost.burden,
                };
                assert(cost_step(m, (cost, col), e) == Some((next, col2 as u32)));
                lemma_fold_within(m, next, col2 as u32, rest, cap, sq);
            },
            Event::Newline(indent) => {
                lemma_over_bounds(w, indent as int, cap);
                lemma_sqr_mono(over(w, indent as int), cap);
                assert(m.spec_text(0, indent) == Some(
                    ConsumerCost { overflow: sqr(over(w, indent as int)) as u128, burden: 0 },
                ));
                let next = ConsumerCost {
                    overflow: (cost.overflow + sqr(over(w, indent as int))) as u128,
                    burden: (cost.burden + m.newline_cost) as u64,
                };
                assert(cost_step(m, (cost, col), e) == Some((next, indent)));
                lemma_fold_within(m, next, indent, rest, cap, sq);
            },
            Event::Penalty(amount) => {
                let next = ConsumerCost { overflow: cost.overflow, burden: (cost.burden + amount) as u64 };
                assert(cost_step(m, (cost, col), e) == Some((next, col)));
                lemma_fold_within(m, next, col, rest, cap, sq);
            },
            _ => {
                assert(cost_step(m, (cost, col), e) == Some((cost, col)));
                lemma_fold_within(m, cost, col, rest, cap, sq);
            },
        }
    }
}

/// Building spans emits exactly the events' bytes.
proof fn lemma_span_fold_bytes(st: SpanState, es: Seq<Event>)
    ensures
        span_fold(st, es).bytes == st.bytes + ev_bytes(es),
    decreases es.len(),
{
    if es.len() > 0 {
        lemma_span_fold_bytes(span_step(st, es[0]), es.drop_first());
    }
}

/// UTF-8 length of a whole character sequence.
pub open spec fn utf8_total(s: Seq<char>) -> nat {
    byte_offset(s, s.len() as int)
}

/// The byte offset of a position depends only on the characters before it.
proof fn lemma_byte_offset_prefix(s: Seq<char>, t: Seq<char>, i: int)
    requires
        0 <= i <= s.len(),
        i <= t.len(),
        forall|j: int| 0 <= j < i ==> s[j] == t[j],
    ensures
        byte_offset(s, i) == byte_offset(t, i),
    decreases i,
{
    if i > 0 {
        lemma_byte_offset_prefix(s, t, i - 1);
    }
}

/// UTF-8 length is additive over concatenation.
pub proof fn lemma_utf8_total_append(a: Seq<char>, b: Seq<char>)
    ensures
        utf8_total(a + b) == utf8_total(a) + utf8_total(b),
    decreases b.len(),
{
    if b.len() == 0 {
        assert(a + b =~= a);
    } else {
        let b1 = b.drop_last();
        lemma_utf8_total_append(a, b1);
        let n = (a + b).len() as int;
        lemma_byte_offset_prefix(a + b, a + b1, n - 1);
        lemma_byte_offset_prefix(b, b1, b.len() - 1);
        assert((a + b)[n - 1] == b[b.len() - 1]);
    }
}

/// `n` spaces take `n` bytes.
proof fn lemma_utf8_total_spaces(n: nat)
    ensures
        utf8_total(spaces(n)) == n,
    decreases n,
{
    if n > 0 {
        lemma_utf8_total_spaces((n - 1) as nat);
        assert(spaces(n) =~= spaces((n - 1) as nat) + seq![' ']);
        lemma_utf8_total_append(spaces((n - 1) as nat), seq![' ']);
        assert(utf8_total(seq![' ']) == 1) by {
            assert(byte_offset(seq![' '], 1) == byte_offset(seq![' '], 0) + utf8_len(' '));
        }
    }
}

/// The text of events takes exactly the bytes the events emit.
proof fn lemma_events_text_bytes(es: Seq<Event>)
    ensures
        utf8_total(events_text(es)) == ev_bytes(es),
    decreases es.len(),
{
    if es.len() > 0 {
        lemma_events_text_bytes(es.drop_first());
        lemma_utf8_total_append(event_text(es[0]), events_text(es.drop_first()));
        if let Event::Newline(indent) = es[0] {
            lemma_utf8_total_append(seq!['\n'], spaces(indent as nat));
            lemma_utf8_total_spaces(indent as nat);
            assert(utf8_total(seq!['\n']) == 1) by {
                assert(byte_offset(seq!['\n'], 1) == byte_offset(seq!['\n'], 0) + utf8_len('\n'));
            }
        } else if let Event::Text(run) = es[0] {
        } else {
            assert(utf8_total(Seq::<char>::empty()) == 0);
        }
    }
}

/// The text of an output tree takes exactly its output bytes.
pub proof fn lemma_out_text_bytes(o: OutModel)
    ensures
        utf8_total(out_text_of(o)) == out_bytes(o),
{
    lemma_events_text_bytes(events(o));
    lemma_span_fold_bytes(SpanState { bytes: 0, spans: seq![], open: seq![] }, events(o));
}

/// Building spans adds one span per opened region.
proof fn lemma_span_fold_count(st: SpanState, es: Seq<Event>)
    requires
        forall|j: int| 0 <= j < st.open.len() ==> #[trigger] st.open[j] < st.spans.len(),
    ensures
        span_fold(st, es).spans.len() == st.spans.len() + ev_opens(es),
    decreases es.len(),
{
    if es.len() > 0 {
        let next = span_step(st, es[0]);
        match es[0] {
            Event::Open(tag) => {
                assert forall|j: int| 0 <= j < next.open.len() implies #[trigger] next.open[j] < next.spans.len() by {
                    if j < st.open.len() {
                        assert(next.open[j] == st.open[j]);
                    }
                }
            },
            Event::Close => {
                if st.open.len() > 0 {
                    assert(st.open[st.open.len() - 1] < st.spans.len());
                    assert forall|j: int| 0 <= j < next.open.len() implies #[trigger] next.open[j] < next.spans.len() by {
                        assert(next.open[j] == st.open[j]);
                    }
                }
            },
            _ => {},
        }
        lemma_span_fold_count(next, es.drop_first());
    }
}

/// An output tree has one span per tagged region it opens.
pub proof fn lemma_out_spans_count(o: OutModel)
    ensures
        out_spans(o).len() == ev_opens(events(o)),
{
    lemma_span_fold_count(SpanState { bytes: 0, spans: seq![], open: seq![] }, events(o));
}

/// No text of `d` holds a newline character.
pub open spec fn texts_clean(d: DocModel) -> bool
    decreases d,
{
    match d {
        DocModel::Text(t) => !t.value.contains('\n'),
        DocModel::Concat(a, b) => texts_clean(*a) && texts_clean(*b),
        DocModel::Choice(a, b) => texts_clean(*a) && texts_clean(*b),
        DocModel::Nest(_, x) | DocModel::Align(x) | DocModel::Tag(_, x) | DocModel::Penalty(_, x) => texts_clean(*x),
        _ => true,
    }
}

/// No text event of `es` holds a newline character.
pub open spec fn events_clean(es: Seq<Event>) -> bool {
    forall|i: int| 0 <= i < es.len() && (#[trigger] es[i]) is Text ==> !es[i]->Text_0.value.contains('\n')
}

/// The newline characters of `s`.
pub open spec fn newline_count(s: Seq<char>) -> nat
    decreases s.len(),
{
    if s.len() == 0 {
        0
    } else {
        (if s[0] == '\n' {
            1nat
        } else {
            0nat
        }) + newline_count(s.drop_first())
    }
}

proof fn lemma_newline_count_append(a: Seq<char>, b: Seq<char>)
    ensures
        newline_count(a + b) == newline_count(a) + newline_count(b),
    decreases a.len(),
{
    if a.len() == 0 {
        assert(a + b =~= b);
    } else {
        assert((a + b).drop_first() =~= a.drop_first() + b);
        assert((a + b)[0] == a[0]);
        lemma_newline_count_append(a.drop_first(), b);
    }
}

proof fn lemma_newline_count_none(s: Seq<char>)
    requires
        !s.contains('\n'),
    ensures
        newline_count(s) == 0,
    decreases s.len(),
{
    if s.len() > 0 {
        assert(s[0] != '\n');
        assert forall|i: int| 0 <= i < s.drop_first().len() implies s.drop_first()[i] != '\n' by {
            assert(s.drop_first()[i] == s[i + 1]);
        }
        lemma_newline_count_none(s.drop_first());
    }
}

/// Clean text events emit one newline character per newline event.
proof fn lemma_events_newlines(es: Seq<Event>)
    requires
        events_clean(es),
    ensures
        newline_count(events_text(es)) == ev_newlines(es),
    decreases es.len(),
{
    if es.len() > 0 {
        let rest = es.drop_first();
        assert forall|i: int| 0 <= i < rest.len() && (#[trigger] rest[i]) is Text implies !rest[i]->Text_0.value.contains(
            '\n',
        ) by {
            assert(rest[i] == es[i + 1]);
        }
        lemma_events_newlines(rest);
        lemma_newline_count_append(event_text(es[0]), events_text(rest));
        match es[0] {
            Event::Text(run) => {
                assert(es[0] is Text);
                assert(!run.value.contains('\n'));
                lemma_newline_count_none(run.value);
            },
            Event::Newline(indent) => {
                lemma_newline_count_append(seq!['\n'], spaces(indent as nat));
                assert(!spaces(indent as nat).contains('\n'));
                lemma_newline_count_none(spaces(indent as nat));
                assert(seq!['\n'].drop_first() =~= Seq::<char>::empty());
                assert(newline_count(Seq::<char>::empty()) == 0);
                assert(newline_count(seq!['\n']) == 1);
            },
            _ => {
                assert(newline_count(Seq::<char>::empty()) == 0);
            },
        }
    }
}

/// Every resolution of a clean document is clean.
proof fn lemma_expansion_clean(d: DocModel, k: int)
    requires
        texts_clean(d),
        0 <= k < spec_expansions(d).len(),
    ensures
        texts_clean(spec_expansions(d)[k]),
    decreases d,
{
    match d {
        DocModel::Concat(a, b) => {
            let ls = spec_expansions(*a);
            let rs = spec_expansions(*b);
            lemma_concat_pairs_decompose(ls, rs, k);
            let (i, j) = choose|i: int, j: int|
                0 <= i < ls.len() && 0 <= j < rs.len() && crate::brute::concat_pairs(ls, rs)[k]
                    == DocModel::Concat(Box::new(#[trigger] ls[i]), Box::new(#[trigger] rs[j]));
            lemma_expansion_clean(*a, i);
            lemma_expansion_clean(*b, j);
        },
        DocModel::Nest(_, x) | DocModel::Align(x) | DocModel::Tag(_, x) | DocModel::Penalty(_, x) => {
            lemma_expansion_clean(*x, k);
        },
        DocModel::Choice(l, r) => {
            let ls = spec_expansions(*l);
            if k < ls.len() {
                lemma_expansion_clean(*l, k);
            } else {
                lemma_expansion_clean(*r, k - ls.len());
            }
        },
        _ => {},
    }
}

/// The layout of a clean document has clean text events.
proof fn lemma_resolve_clean(d: DocModel, column: u32, indent: u32, cap: u32)
    requires
        texts_clean(d),
    ensures
        spec_resolve(d, column, indent, cap) matches Some((o, _)) ==> events_clean(events(o)),
    decreases d,
{
    match d {
        DocModel::Concat(a, b) => {
            lemma_resolve_clean(*a, column, indent, cap);
            if let Some((oa, ca)) = spec_resolve(*a, column, indent, cap) {
                lemma_resolve_clean(*b, ca, indent, cap);
                if let Some((ob, cb)) = spec_resolve(*b, ca, indent, cap) {
                    lemma_out_cat_events(oa, ob);
                    let es = events(oa) + events(ob);
                    assert forall|i: int| 0 <= i < es.len() && (#[trigger] es[i]) is Text implies !es[i]->Text_0.value.contains(
                        '\n',
                    ) by {
                        if i < events(oa).len() {
                            assert(es[i] == events(oa)[i]);
                        } else {
                            assert(es[i] == events(ob)[i - events(oa).len()]);
                        }
                    }
                }
            }
        },
        DocModel::Nest(n, x) => {
            if indent + n <= u32::MAX {
                lemma_resolve_clean(*x, column, clamp_indent((indent + n) as u32, cap), cap);
            }
        },
        DocModel::Align(x) => {
            lemma_resolve_clean(*x, column, clamp_indent(column, cap), cap);
        },
        DocModel::Tag(t, x) => {
            lemma_resolve_clean(*x, column, indent, cap);
            if let Some((o, c)) = spec_resolve(*x, column, indent, cap) {
                let es = seq![Event::Open(t)] + events(o) + seq![Event::Close];
                assert forall|i: int| 0 <= i < es.len() && (#[trigger] es[i]) is Text implies !es[i]->Text_0.value.contains(
                    '\n',
                ) by {
                    assert(1 <= i < 1 + events(o).len());
                    assert(es[i] == events(o)[i - 1]);
                }
            }
        },
        DocModel::Penalty(amount, x) => {
            lemma_resolve_clean(*x, column, indent, cap);
            if let Some((o, c)) = spec_resolve(*x, column, indent, cap) {
                let es = seq![Event::Penalty(amount)] + events(o);
                assert forall|i: int| 0 <= i < es.len() && (#[trigger] es[i]) is Text implies !es[i]->Text_0.value.contains(
                    '\n',
                ) by {
                    assert(es[i] == events(o)[i - 1]);
                }
            }
        },
        DocModel::Choice(l, _) => {
            lemma_resolve_clean(*l, column, indent, cap);
        },
        DocModel::Text(t) => {
            if let Some((o, _)) = spec_resolve(d, column, indent, cap) {
                assert(events(o) == seq![Event::Text(t)]);
            }
        },
        DocModel::Line(_) => {},
        DocModel::Empty => {},
    }
}

/// The text of resolution `k` of a clean document has one newline
/// character per line break of its layout.
pub proof fn lemma_clean_layout_newlines(doc: DocModel, k: int, cap: u32)
    requires
        texts_clean(doc),
        0 <= k < spec_expansions(doc).len(),
    ensures
        spec_resolve(spec_expansions(doc)[k], 0, 0, cap) matches Some((o, _)) ==> newline_count(out_text_of(o))
            == ev_newlines(events(o)),
{
    lemma_expansion_clean(doc, k);
    lemma_resolve_clean(spec_expansions(doc)[k], 0, 0, cap);
    if let Some((o, _)) = spec_resolve(spec_expansions(doc)[k], 0, 0, cap) {
        lemma_events_newlines(events(o));
    }
}

proof fn lemma_contains_concat(a: Seq<TagId>, b: Seq<TagId>, t: TagId)
    ensures
        (a + b).contains(t) <==> a.contains(t) || b.contains(t),
{
    if (a + b).contains(t) {
        let i = choose|i: int| 0 <= i < (a + b).len() && (a + b)[i] == t;
        if i < a.len() {
            assert(a[i] == t);
        } else {
            assert(b[i - a.len()] == t);
        }
    }
    if a.contains(t) {
        let i = choose|i: int| 0 <= i < a.len() && a[i] == t;
        assert((a + b)[i] == t);
    }
    if b.contains(t) {
        let i = choose|i: int| 0 <= i < b.len() && b[i] == t;
        assert((a + b)[a.len() + i] == t);
    }
}

/// Every tag of a resolution is a tag of the document.
proof fn lemma_expansion_tags(d: DocModel, k: int)
    requires
        0 <= k < spec_expansions(d).len(),
    ensures
        forall|t: TagId| #[trigger] tags_of(spec_expansions(d)[k]).contains(t) ==> tags_of(d).contains(t),
    decreases d,
{
    let e = spec_expansions(d)[k];
    match d {
        DocModel::Concat(a, b) => {
            let ls = spec_expansions(*a);
            let rs = spec_expansions(*b);
            lemma_concat_pairs_decompose(ls, rs, k);
            let (i, j) = choose|i: int, j: int|
                0 <= i < ls.len() && 0 <= j < rs.len() && crate::brute::concat_pairs(ls, rs)[k]
                    == DocModel::Concat(Box::new(#[trigger] ls[i]), Box::new(#[trigger] rs[j]));
            lemma_expansion_tags(*a, i);
            lemma_expansion_tags(*b, j);
            assert(spec_expansions(d) == crate::brute::concat_pairs(ls, rs));
            assert(e == DocModel::Concat(Box::new(ls[i]), Box::new(rs[j])));
            assert(tags_of(e) == tags_of(ls[i]) + tags_of(rs[j]));
            assert(tags_of(d) == tags_of(*a) + tags_of(*b));
            assert forall|t: TagId| #[trigger] tags_of(e).contains(t) implies tags_of(d).contains(t) by {
                lemma_contains_concat(tags_of(ls[i]), tags_of(rs[j]), t);
                lemma_contains_concat(tags_of(*a), tags_of(*b), t);
                if tags_of(ls[i]).contains(t) {
                    assert(tags_of(spec_expansions(*a)[i]).contains(t));
                    assert(tags_of(*a).contains(t));
                } else {
                    assert(tags_of(spec_expansions(*b)[j]).contains(t));
                    assert(tags_of(*b).contains(t));
                }
            }
            assert(forall|t: TagId| #[trigger] tags_of(spec_expansions(d)[k]).contains(t) ==> tags_of(d).contains(t));
        },
        DocModel::Nest(n, x) => {
            lemma_expansion_tags(*x, k);
            assert(e == DocModel::Nest(n, Box::new(spec_expansions(*x)[k])));
            assert(tags_of(e) == tags_of(spec_expansions(*x)[k]));
            assert(tags_of(d) == tags_of(*x));
        },
        DocModel::Align(x) => {
            lemma_expansion_tags(*x, k);
            assert(e == DocModel::Align(Box::new(spec_expansions(*x)[k])));
            assert(tags_of(e) == tags_of(spec_expansions(*x)[k]));
            assert(tags_of(d) == tags_of(*x));
        },
        DocModel::Penalty(amount, x) => {
            lemma_expansion_tags(*x, k);
            assert(e == DocModel::Penalty(amount, Box::new(spec_expansions(*x)[k])));
            assert(tags_of(e) == tags_of(spec_expansions(*x)[k]));
            assert(tags_of(d) == tags_of(*x));
        },
        DocModel::Tag(tg, x) => {
            lemma_expansion_tags(*x, k);
            let ex = spec_expansions(*x)[k];
            assert(e == DocModel::Tag(tg, Box::new(ex)));
            assert forall|t: TagId| #[trigger] tags_of(e).contains(t) implies tags_of(d).contains(t) by {
                lemma_contains_concat(seq![tg], tags_of(ex), t);
                lemma_contains_concat(seq![tg], tags_of(*x), t);
            }
        },
        DocModel::Choice(l, r) => {
            let ls = spec_expansions(*l);
            assert(spec_expansions(d) == ls + spec_expansions(*r));
            assert forall|t: TagId| #[trigger] tags_of(e).contains(t) implies tags_of(d).contains(t) by {
                lemma_contains_concat(tags_of(*l), tags_of(*r), t);
                if k < ls.len() {
                    assert(e == ls[k]);
                    lemma_expansion_tags(*l, k);
                } else {
                    assert(e == spec_expansions(*r)[k - ls.len()]);
                    lemma_expansion_tags(*r, k - ls.len());
                }
            }
        },
        _ => {},
    }
}

/// Every region the layout of a document opens is tagged with one of the
/// document's tags.
proof fn lemma_resolve_tags(d: DocModel, column: u32, indent: u32, cap: u32)
    ensures
        spec_resolve(d, column, indent, cap) matches Some((o, _)) ==> forall|i: int|
            0 <= i < events(o).len() && (#[trigger] events(o)[i]) is Open ==> tags_of(d).contains(
                events(o)[i]->Open_0,
            ),
    decreases d,
{
    match d {
        DocModel::Concat(a, b) => {
            lemma_resolve_tags(*a, column, indent, cap);
            if let Some((oa, ca)) = spec_resolve(*a, column, indent, cap) {
                lemma_resolve_tags(*b, ca, indent, cap);
                if let Some((ob, cb)) = spec_resolve(*b, ca, indent, cap) {
                    lemma_out_cat_events(oa, ob);
                    let es = events(oa) + events(ob);
                    assert forall|i: int| 0 <= i < es.len() && (#[trigger] es[i]) is Open implies tags_of(d).contains(
                        es[i]->Open_0,
                    ) by {
                        lemma_contains_concat(tags_of(*a), tags_of(*b), es[i]->Open_0);
                        if i < events(oa).len() {
                            assert(es[i] == events(oa)[i]);
                        } else {
                            assert(es[i] == events(ob)[i - events(oa).len()]);
                        }
                    }
                }
            }
        },
        DocModel::Nest(n, x) => {
            if indent + n <= u32::MAX {
                lemma_resolve_tags(*x, column, clamp_indent((indent + n) as u32, cap), cap);
            }
        },
        DocModel::Align(x) => {
            lemma_resolve_tags(*x, column, clamp_indent(column, cap), cap);
        },
        DocModel::Tag(t, x) => {
            lemma_resolve_tags(*x, column, indent, cap);
            if let Some((o, c)) = spec_resolve(*x, column, indent, cap) {
                let es = seq![Event::Open(t)] + events(o) + seq![Event::Close];
                assert forall|i: int| 0 <= i < es.len() && (#[trigger] es[i]) is Open implies tags_of(d).contains(
                    es[i]->Open_0,
                ) by {
                    lemma_contains_concat(seq![t], tags_of(*x), es[i]->Open_0);
                    if i == 0 {
                        assert(seq![t][0] == t);
                    } else {
                        assert(1 <= i < 1 + events(o).len());
                        assert(es[i] == events(o)[i - 1]);
                    }
                }
            }
        },
        DocModel::Penalty(amount, x) => {
            lemma_resolve_tags(*x, column, indent, cap);
            if let Some((o, c)) = spec_resolve(*x, column, indent, cap) {
                let es = seq![Event::Penalty(amount)] + events(o);
                assert forall|i: int| 0 <= i < es.len() && (#[trigger] es[i]) is Open implies tags_of(d).contains(
                    es[i]->Open_0,
                ) by {
                    assert(es[i] == events(o)[i - 1]);
                }
            }
        },
        DocModel::Choice(l, r) => {
            lemma_resolve_tags(*l, column, indent, cap);
            if let Some((o, _)) = spec_resolve(*l, column, indent, cap) {
                assert forall|i: int| 0 <= i < events(o).len() && (#[trigger] events(o)[i]) is Open implies tags_of(
                    d,
                ).contains(events(o)[i]->Open_0) by {
                    lemma_contains_concat(tags_of(*l), tags_of(*r), events(o)[i]->Open_0);
                }
            }
        },
        DocModel::Text(t) => {
            if let Some((o, _)) = spec_resolve(d, column, indent, cap) {
                assert(events(o) == seq![Event::Text(t)]);
            }
        },
        DocModel::Line(_) => {
            if let Some((o, _)) = spec_resolve(d, column, indent, cap) {
                assert(events(o) == seq![Event::Newline(indent)]);
            }
        },
        DocModel::Empty => {},
    }
}

/// Building spans only records tags of the regions opened.
proof fn lemma_span_fold_tags(st: SpanState, es: Seq<Event>, allowed: Seq<TagId>)
    requires
        forall|j: int| 0 <= j < st.open.len() ==> #[trigger] st.open[j] < st.spans.len(),
        forall|i: int| 0 <= i < st.spans.len() ==> allowed.contains(#[trigger] st.spans[i].tag),
        forall|i: int| 0 <= i < es.len() && (#[trigger] es[i]) is Open ==> allowed.contains(es[i]->Open_0),
    ensures
        forall|i: int|
            0 <= i < span_fold(st, es).spans.len() ==> allowed.contains(#[trigger] span_fold(st, es).spans[i].tag),
    decreases es.len(),
{
    if es.len() > 0 {
        let next = span_step(st, es[0]);
        let rest = es.drop_first();
        assert forall|i: int| 0 <= i < rest.len() && (#[trigger] rest[i]) is Open implies allowed.contains(
            rest[i]->Open_0,
        ) by {
            assert(rest[i] == es[i + 1]);
        }
        match es[0] {
            Event::Open(tag) => {
                assert(es[0] is Open);
                assert forall|j: int| 0 <= j < next.open.len() implies #[trigger] next.open[j] < next.spans.len() by {
                    if j < st.open.len() {
                        assert(next.open[j] == st.open[j]);
                    }
                }
                assert forall|i: int| 0 <= i < next.spans.len() implies allowed.contains(#[trigger] next.spans[i].tag) by {
                    if i < st.spans.len() {
                        assert(next.spans[i] == st.spans[i]);
                    }
                }
            },
            Event::Close => {
                if st.open.len() > 0 {
                    let idx = st.open.last();
                    assert(st.open[st.open.len() - 1] < st.spans.len());
                    assert forall|j: int| 0 <= j < next.open.len() implies #[trigger] next.open[j] < next.spans.len() by {
                        assert(next.open[j] == st.open[j]);
                    }
                    assert forall|i: int| 0 <= i < next.spans.len() implies allowed.contains(#[trigger] next.spans[i].tag) by {
                        if i == idx {
                            assert(next.spans[i].tag == st.spans[i].tag);
                        } else {
                            assert(next.spans[i] == st.spans[i]);
                        }
                    }
                }
            },
            _ => {},
        }
        lemma_span_fold_tags(next, rest, allowed);
    }
}

/// Every span of the layout of resolution `k` of `doc` is tagged with one
/// of the document's tags.
pub proof fn lemma_layout_span_tags(doc: DocModel, k: int, cap: u32)
    requires
        0 <= k < spec_expansions(doc).len(),
    ensures
        spec_resolve(spec_expansions(doc)[k], 0, 0, cap) matches Some((o, _)) ==> forall|i: int|
            0 <= i < out_spans(o).len() ==> tags_of(doc).contains(#[trigger] out_spans(o)[i].tag),
{
    let e = spec_expansions(doc)[k];
    lemma_expansion_tags(doc, k);
    lemma_resolve_tags(e, 0, 0, cap);
    if let Some((o, _)) = spec_resolve(e, 0, 0, cap) {
        let allowed = tags_of(doc);
        assert forall|i: int| 0 <= i < events(o).len() && (#[trigger] events(o)[i]) is Open implies allowed.contains(
            events(o)[i]->Open_0,
        ) by {
            assert(tags_of(e).contains(events(o)[i]->Open_0));
        }
        lemma_span_fold_tags(SpanState { bytes: 0, spans: seq![], open: seq![] }, events(o), allowed);
    }
}

/// Events whose columns stay within `cap` emit at most their text bytes and
/// `cap + 1` bytes per newline.
proof fn lemma_bytes_within(es: Seq<Event>, col: int, cap: int)
    requires
        ev_max(es, col) <= cap,
        0 <= cap,
    ensures
        ev_bytes(es) <= ev_text_bytes(es) + ev_newlines(es) * (cap + 1),
    decreases es.len(),
{
    if es.len() == 0 {
        lemma_mul_step(0, cap + 1);
    } else {
        let rest = es.drop_first();
        let col1 = step_col(es[0], col);
        lemma_ev_max_bounds(rest, col1);
        lemma_bytes_within(rest, col1, cap);
        lemma_mul_step(ev_newlines(rest) as int, cap + 1);
    }
}

proof fn lemma_mul_mono(a: int, b: int, x: int, y: int)
    requires
        0 <= a <= b,
        0 <= x <= y,
    ensures
        0 <= a * x <= b * y,
{
    assert(0 <= a * x <= b * y) by (nonlinear_arith)
        requires
            0 <= a <= b,
            0 <= x <= y,
    ;
}

/// The layout of resolution `e` stays within the prepared bounds `b`: it
/// resolves, its cost is defined and at most the bounds' overflow and
/// burden, and its text has at most the bounds' bytes.
pub open spec fn layout_within(m: PreparedConsumerCostModel, b: BoundsModel, e: DocModel) -> bool {
    &&& spec_resolve(e, 0, 0, m.indent_cap) matches Some((o, _)) && out_bytes(o) <= b.output_bytes_upper
        && ev_opens(events(o)) <= b.spans_upper && ev_newlines(events(o)) + 1 <= b.line_count_upper
    &&& layout_cost(m, e) matches Some(c) && c.overflow <= b.overflow_cost_upper && c.burden
        <= b.burden_cost_upper
}

/// What passing the production limits says of the bounds `v`, and the
/// prepared bounds that result.
proof fn lemma_finish_facts(v: BoundCalc)
    requires
        spec_finish(v, production_limits()) is Ok,
    ensures
        calc_ok(v),
        ({
            let b = spec_finish(v, production_limits())->Ok_0;
            let column = calc_reach(v);
            let nl = v.newlines.unwrap() as int;
            let tb = v.text_bytes.unwrap() as int;
            let p = v.penalty.unwrap() as int;
            &&& column <= u32::MAX
            &&& (nl + 1) * column * column <= u128::MAX
            &&& b.overflow_cost_upper == (nl + 1) * column * column
            &&& tb + nl * (column + 1) <= usize::MAX
            &&& b.output_bytes_upper == tb + nl * (column + 1)
            &&& nl * u32::MAX + p <= u64::MAX
            &&& b.burden_cost_upper == nl * u32::MAX + p
            &&& b.spans_upper == v.spans.unwrap()
            &&& b.line_count_upper == nl + 1
        }),
{
}

/// One resolution's layout stays within the bounds that passing the
/// production limits gives.
proof fn lemma_expansion_layout_within(doc: DocModel, m: PreparedConsumerCostModel, b: BoundsModel, k: int)
    requires
        calc_ok(bound_calc(doc)),
        0 <= k < spec_expansions(doc).len(),
        ({
            let v = bound_calc(doc);
            let column = calc_reach(v);
            let nl = v.newlines.unwrap() as int;
            let tb = v.text_bytes.unwrap() as int;
            let p = v.penalty.unwrap() as int;
            &&& column <= u32::MAX
            &&& (nl + 1) * sqr(column) <= u128::MAX
            &&& b.overflow_cost_upper == (nl + 1) * sqr(column)
            &&& b.output_bytes_upper == tb + nl * (column + 1)
            &&& nl * u32::MAX + p <= u64::MAX
            &&& b.burden_cost_upper == nl * u32::MAX + p
            &&& b.spans_upper == v.spans.unwrap()
            &&& b.line_count_upper == nl + 1
        }),
    ensures
        layout_within(m, b, spec_expansions(doc)[k]),
{
    let v = bound_calc(doc);
    let column = calc_reach(v);
    let nl = v.newlines.unwrap() as int;
    let sq = sqr(column);
    let e = spec_expansions(doc)[k];
    let ve = bound_calc(e);
    lemma_expansion_within(doc, k);
    lemma_resolve_within(e, 0, 0, m.indent_cap, 0);
    let (o, end) = spec_resolve(e, 0, 0, m.indent_cap).unwrap();
    let es = events(o);
    let n = ev_newlines(es) as int;
    lemma_ev_max_bounds(es, 0);
    lemma_mul_mono(n + 1, nl + 1, sq, sq);
    lemma_mul_mono(n, nl, m.newline_cost as int, u32::MAX as int);
    lemma_mul_step(n, sq);
    lemma_over_bounds(m.width, 0, 0);
    lemma_fold_within(m, cost_zero(), 0, es, column, sq);
    let (c2, col2) = cost_fold(m, (cost_zero(), 0), es).unwrap();
    lemma_over_bounds(m.width, col2 as int, column);
    lemma_sqr_mono(over(m.width, col2 as int), column);
    lemma_span_fold_bytes(SpanState { bytes: 0, spans: seq![], open: seq![] }, es);
    lemma_bytes_within(es, 0, column);
    lemma_mul_mono(n, nl, column + 1, column + 1);
}

/// A document that prepares against the production limits has every layout
/// within its prepared bounds under the production cost model of any width
/// and newline cost: columns, cost and output size are all representable.
pub proof fn lemma_prepared_layouts_within(doc: DocModel, m: PreparedConsumerCostModel)
    requires
        spec_finish(bound_calc(doc), production_limits()) is Ok,
    ensures
        all_layouts_defined(m, doc),
        forall|k: int|
            0 <= k < spec_expansions(doc).len() ==> #[trigger] layout_within(
                m,
                spec_finish(bound_calc(doc), production_limits())->Ok_0,
                spec_expansions(doc)[k],
            ),
{
    let v = bound_calc(doc);
    let b = spec_finish(v, production_limits())->Ok_0;
    lemma_finish_facts(v);
    let column = calc_reach(v);
    let nl = v.newlines.unwrap() as int;
    assert((nl + 1) * column * column == (nl + 1) * sqr(column)) by (nonlinear_arith);
    assert forall|k: int| 0 <= k < spec_expansions(doc).len() implies #[trigger] layout_within(
        m,
        b,
        spec_expansions(doc)[k],
    ) by {
        lemma_expansion_layout_within(doc, m, b, k);
    }
    assert forall|k: int| 0 <= k < spec_expansions(doc).len() implies #[trigger] layout_cost(
        m,
        spec_expansions(doc)[k],
    ) is Some by {
        assert(layout_within(m, b, spec_expansions(doc)[k]));
    }
}

} // verus!
