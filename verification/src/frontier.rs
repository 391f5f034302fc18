//! Exact memoized preference-aware Pareto-frontier search.
//!
//! `solve(doc, column, indent)` returns layouts of `doc` starting at
//! `column`, pruned by `(cost, last-column)` dominance while retaining
//! equal-cost states needed to preserve left-branch ties. Memo entries are
//! keyed by document structure, column and indentation.
use crate::brute::{
    all_layouts_defined, concat_pairs, is_first_minimum, layout_cost, lemma_concat_pairs_append,
    lemma_expansions_nonempty, pair_row, spec_expansions, spec_resolve,
};
use crate::cost::{
    clamp, clamp_indent, cost_add, cost_add_opt, cost_le, cost_le_each, cost_lt, cost_zero, lemma_cost_add_algebra,
    lemma_cost_add_le, lemma_cost_add_lt, lemma_cost_le_each, lemma_cost_le_each_lt, lemma_cost_order, ConsumerCost, CostModel,
    LawfulCostModel,
};
use crate::doc::{Doc, DocModel, TagId};
use crate::greedy::{doc_size, greedy_renders, GreedyResult};
use crate::research::{
    cost_fold, cost_step, events, lemma_cost_fold_append, lemma_out_cat_events, out_cat, out_cost, out_empty,
    out_newline, out_penalty, out_tagged, out_text, spec_out_cat, Event, Out, OutModel,
};
use std::rc::Rc;
use vstd::prelude::*;

verus! {

/// Lays out `d` from `column` under `indent` taking every `Choice`'s
/// preferred branch: output, last column and cost, or `None` when a column
/// or cost leaves its domain.
pub open spec fn run<M: CostModel>(m: M, d: DocModel, column: u32, indent: u32) -> Option<
    (OutModel, u32, ConsumerCost),
>
    decreases d,
{
    match d {
        DocModel::Empty => Some((OutModel::Empty, column, cost_zero())),
        DocModel::Text(t) => if column + t.columns > u32::MAX {
            None
        } else {
            match m.spec_text(column, t.columns) {
                Some(k) => Some((OutModel::Text(t), (column + t.columns) as u32, k)),
                None => None,
            }
        },
        DocModel::Line(_) => match m.spec_text(0, indent) {
            Some(t) => match cost_add(m.spec_newline(), t) {
                Some(k) => Some((OutModel::Newline(indent), indent, k)),
                None => None,
            },
            None => None,
        },
        DocModel::Concat(a, b) => match run(m, *a, column, indent) {
            Some((oa, la, ka)) => match run(m, *b, la, indent) {
                Some((ob, lb, kb)) => match cost_add(ka, kb) {
                    Some(k) => Some((spec_out_cat(oa, ob), lb, k)),
                    None => None,
                },
                None => None,
            },
            None => None,
        },
        DocModel::Nest(n, x) => if indent + n > u32::MAX {
            None
        } else {
            run(m, *x, column, clamp_indent((indent + n) as u32, m.spec_indent_cap()))
        },
        DocModel::Align(x) => run(m, *x, column, clamp_indent(column, m.spec_indent_cap())),
        DocModel::Tag(t, x) => match run(m, *x, column, indent) {
            Some((o, l, k)) => Some((OutModel::Tagged(t, Box::new(o)), l, k)),
            None => None,
        },
        DocModel::Penalty(amount, x) => match run(m, *x, column, indent) {
            Some((o, l, k)) => match cost_add(m.spec_penalty(amount), k) {
                Some(k2) => Some((OutModel::Penalty(amount, Box::new(o)), l, k2)),
                None => None,
            },
            None => None,
        },
        DocModel::Choice(p, _) => run(m, *p, column, indent),
    }
}

/// Starting no further right under no deeper indentation never ends further
/// right and never costs more in either component.
pub proof fn lemma_run_monotone<M: LawfulCostModel>(
    m: M,
    d: DocModel,
    c1: u32,
    c2: u32,
    i1: u32,
    i2: u32,
)
    requires
        c1 <= c2,
        i1 <= i2,
        run(m, d, c2, i2) is Some,
    ensures
        run(m, d, c1, i1) is Some,
        run(m, d, c1, i1).unwrap().1 <= run(m, d, c2, i2).unwrap().1,
        cost_le_each(run(m, d, c1, i1).unwrap().2, run(m, d, c2, i2).unwrap().2),
    decreases d,
{
    match d {
        DocModel::Text(t) => {
            m.lemma_text_monotone(c1, c2, t.columns);
        },
        DocModel::Line(_) => {
            m.lemma_text_width_monotone(i1, i2);
            let t1 = m.spec_text(0, i1).unwrap();
            let t2 = m.spec_text(0, i2).unwrap();
            lemma_cost_le_each(m.spec_newline(), m.spec_newline(), t1, t2);
        },
        DocModel::Concat(a, b) => {
            lemma_run_monotone(m, *a, c1, c2, i1, i2);
            let (oa2, la2, ka2) = run(m, *a, c2, i2).unwrap();
            let (oa1, la1, ka1) = run(m, *a, c1, i1).unwrap();
            lemma_run_monotone(m, *b, la1, la2, i1, i2);
            let (ob2, lb2, kb2) = run(m, *b, la2, i2).unwrap();
            let (ob1, lb1, kb1) = run(m, *b, la1, i1).unwrap();
            lemma_cost_le_each(ka1, ka2, kb1, kb2);
        },
        DocModel::Nest(n, x) => {
            let cap = m.spec_indent_cap();
            lemma_run_monotone(
                m,
                *x,
                c1,
                c2,
                clamp_indent((i1 + n) as u32, cap),
                clamp_indent((i2 + n) as u32, cap),
            );
        },
        DocModel::Align(x) => {
            let cap = m.spec_indent_cap();
            lemma_run_monotone(m, *x, c1, c2, clamp_indent(c1, cap), clamp_indent(c2, cap));
        },
        DocModel::Tag(_, x) => {
            lemma_run_monotone(m, *x, c1, c2, i1, i2);
        },
        DocModel::Penalty(amount, x) => {
            lemma_run_monotone(m, *x, c1, c2, i1, i2);
            let k1 = run(m, *x, c1, i1).unwrap().2;
            let k2 = run(m, *x, c2, i2).unwrap().2;
            lemma_cost_le_each(m.spec_penalty(amount), m.spec_penalty(amount), k1, k2);
        },
        DocModel::Choice(p, _) => {
            lemma_run_monotone(m, *p, c1, c2, i1, i2);
        },
        DocModel::Empty => {},
    }
}

/// Composition and charging agree for `d` from `start` at `column` under
/// `indent`: a successful run's events charge exactly its cost on top of
/// `start`, and a failed run renders or charges nothing.
pub open spec fn charges_agree<M: CostModel>(
    m: M,
    d: DocModel,
    start: ConsumerCost,
    column: u32,
    indent: u32,
) -> bool {
    &&& run(m, d, column, indent) matches Some((o, l, k)) ==> {
        &&& spec_resolve(d, column, indent, m.spec_indent_cap()) == Some((o, l))
        &&& cost_fold(m, (start, column), events(o)) == (match cost_add(start, k) {
            Some(total) => Some((total, l)),
            None => None,
        })
    }
    &&& run(m, d, column, indent) is None ==> spec_resolve(d, column, indent, m.spec_indent_cap()) is None || cost_fold(
        m,
        (start, column),
        events(spec_resolve(d, column, indent, m.spec_indent_cap()).unwrap().0),
    ) is None
}

/// A successful run renders the same output and last column.
proof fn lemma_run_resolves<M: CostModel>(m: M, d: DocModel, column: u32, indent: u32)
    ensures
        run(m, d, column, indent) matches Some((o, l, k)) ==> spec_resolve(d, column, indent, m.spec_indent_cap()) == Some((o, l)),
    decreases d,
{
    match d {
        DocModel::Concat(a, b) => {
            lemma_run_resolves(m, *a, column, indent);
            if let Some((oa, la, ka)) = run(m, *a, column, indent) {
                lemma_run_resolves(m, *b, la, indent);
            }
        },
        DocModel::Nest(n, x) => {
            if indent + n <= u32::MAX {
                lemma_run_resolves(m, *x, column, clamp_indent((indent + n) as u32, m.spec_indent_cap()));
            }
        },
        DocModel::Align(x) => lemma_run_resolves(m, *x, column, clamp_indent(column, m.spec_indent_cap())),
        DocModel::Tag(_, x) => lemma_run_resolves(m, *x, column, indent),
        DocModel::Penalty(_, x) => lemma_run_resolves(m, *x, column, indent),
        DocModel::Choice(p, _) => lemma_run_resolves(m, *p, column, indent),
        _ => {},
    }
}

proof fn lemma_charges_leaf<M: CostModel>(m: M, d: DocModel, start: ConsumerCost, column: u32, indent: u32)
    requires
        d is Empty || d is Text || d is Line,
    ensures
        charges_agree(m, d, start, column, indent),
{
    lemma_cost_add_algebra(start, start, start);
    match d {
        DocModel::Empty => {
            assert(events(OutModel::Empty) =~= seq![]);
            assert(cost_fold(m, (start, column), seq![]) == Some((start, column)));
        },
        DocModel::Text(t) => {
            let es = events(OutModel::Text(t));
            assert(es.drop_first() =~= seq![]);
            if let Some(next) = cost_step(m, (start, column), es[0]) {
                assert(cost_fold(m, next, seq![]) == Some(next));
            }
        },
        DocModel::Line(_) => {
            let es = events(OutModel::Newline(indent));
            assert(es.drop_first() =~= seq![]);
            if let Some(next) = cost_step(m, (start, column), es[0]) {
                assert(cost_fold(m, next, seq![]) == Some(next));
            }
            if let Some(t) = m.spec_text(0, indent) {
                lemma_cost_add_algebra(start, m.spec_newline(), t);
            }
        },
        _ => {},
    }
}

proof fn lemma_charges_concat<M: CostModel>(
    m: M,
    a: DocModel,
    b: DocModel,
    start: ConsumerCost,
    column: u32,
    indent: u32,
)
    requires
        charges_agree(m, a, start, column, indent),
        run(m, a, column, indent) matches Some((oa, la, ka)) ==> (cost_add(start, ka) matches Some(mid)
            ==> charges_agree(m, b, mid, la, indent)),
    ensures
        charges_agree(m, DocModel::Concat(Box::new(a), Box::new(b)), start, column, indent),
{
    lemma_run_resolves(m, a, column, indent);
    match spec_resolve(a, column, indent, m.spec_indent_cap()) {
        Some((oa, la)) => {
            lemma_run_resolves(m, b, la, indent);
            if let Some((ob, lb)) = spec_resolve(b, la, indent, m.spec_indent_cap()) {
                lemma_out_cat_events(oa, ob);
                lemma_cost_fold_append(m, (start, column), events(oa), events(ob));
            }
            if let Some((oa2, la2, ka)) = run(m, a, column, indent) {
                if let Some((ob, lb, kb)) = run(m, b, la, indent) {
                    lemma_cost_add_algebra(start, ka, kb);
                }
            }
        },
        None => {},
    }
}

proof fn lemma_charges_tag<M: CostModel>(
    m: M,
    t: TagId,
    x: DocModel,
    start: ConsumerCost,
    column: u32,
    indent: u32,
)
    requires
        charges_agree(m, x, start, column, indent),
    ensures
        charges_agree(m, DocModel::Tag(t, Box::new(x)), start, column, indent),
{
    if let Some((o, l)) = spec_resolve(x, column, indent, m.spec_indent_cap()) {
        let open = seq![Event::Open(t)];
        let close = seq![Event::Close];
        assert(events(OutModel::Tagged(t, Box::new(o))) == open + events(o) + close);
        lemma_cost_fold_append(m, (start, column), open + events(o), close);
        lemma_cost_fold_append(m, (start, column), open, events(o));
        assert(open.drop_first() =~= seq![]);
        assert(close.drop_first() =~= seq![]);
        assert(cost_step(m, (start, column), open[0]) == Some((start, column)));
        assert(cost_fold(m, (start, column), seq![]) == Some((start, column)));
        if let Some(state) = cost_fold(m, (start, column), open + events(o)) {
            assert(cost_step(m, state, close[0]) == Some(state));
            assert(cost_fold(m, state, seq![]) == Some(state));
            assert(cost_fold(m, state, close) == Some(state));
        }
    }
}

proof fn lemma_charges_penalty<M: CostModel>(
    m: M,
    amount: u32,
    x: DocModel,
    start: ConsumerCost,
    column: u32,
    indent: u32,
)
    requires
        cost_add(start, m.spec_penalty(amount)) matches Some(mid) ==> charges_agree(m, x, mid, column, indent),
    ensures
        charges_agree(m, DocModel::Penalty(amount, Box::new(x)), start, column, indent),
{
    let pen = m.spec_penalty(amount);
    lemma_run_resolves(m, x, column, indent);
    if let Some((o, l)) = spec_resolve(x, column, indent, m.spec_indent_cap()) {
        let head = seq![Event::Penalty(amount)];
        assert(events(OutModel::Penalty(amount, Box::new(o))) == head + events(o));
        lemma_cost_fold_append(m, (start, column), head, events(o));
        assert(head.drop_first() =~= seq![]);
        if let Some(mid) = cost_add(start, pen) {
            assert(cost_step(m, (start, column), head[0]) == Some((mid, column)));
            assert(cost_fold(m, (mid, column), seq![]) == Some((mid, column)));
            assert(cost_fold(m, (start, column), head) == Some((mid, column)));
        } else {
            assert(cost_step(m, (start, column), head[0]) is None);
        }
        if let Some((o2, l2, k)) = run(m, x, column, indent) {
            lemma_cost_add_algebra(start, pen, k);
        }
    }
}

/// Layout by composition agrees with charging the rendered events in order.
pub proof fn lemma_run_charges_events<M: CostModel>(
    m: M,
    d: DocModel,
    start: ConsumerCost,
    column: u32,
    indent: u32,
)
    ensures
        charges_agree(m, d, start, column, indent),
    decreases d,
{
    match d {
        DocModel::Concat(a, b) => {
            lemma_run_charges_events(m, *a, start, column, indent);
            if let Some((oa, la, ka)) = run(m, *a, column, indent) {
                if let Some(mid) = cost_add(start, ka) {
                    lemma_run_charges_events(m, *b, mid, la, indent);
                }
            }
            lemma_charges_concat(m, *a, *b, start, column, indent);
        },
        DocModel::Nest(n, x) => {
            if indent + n <= u32::MAX {
                lemma_run_charges_events(
                    m,
                    *x,
                    start,
                    column,
                    clamp_indent((indent + n) as u32, m.spec_indent_cap()),
                );
            }
        },
        DocModel::Align(x) => {
            lemma_run_charges_events(m, *x, start, column, clamp_indent(column, m.spec_indent_cap()));
        },
        DocModel::Tag(t, x) => {
            lemma_run_charges_events(m, *x, start, column, indent);
            lemma_charges_tag(m, t, *x, start, column, indent);
        },
        DocModel::Penalty(amount, x) => {
            if let Some(mid) = cost_add(start, m.spec_penalty(amount)) {
                lemma_run_charges_events(m, *x, mid, column, indent);
            }
            lemma_charges_penalty(m, amount, *x, start, column, indent);
        },
        DocModel::Choice(p, _) => {
            lemma_run_charges_events(m, *p, start, column, indent);
        },
        _ => {
            lemma_charges_leaf(m, d, start, column, indent);
        },
    }
}

/// From the origin, a resolution's layout is defined exactly when its
/// rendering and cost are, and then its cost is the oracle's layout cost.
pub proof fn lemma_run_is_layout_cost<M: CostModel>(m: M, d: DocModel)
    ensures
        run(m, d, 0, 0) is Some <==> layout_cost(m, d) is Some,
        run(m, d, 0, 0) matches Some((o, l, k)) ==> layout_cost(m, d) == Some(k) && spec_resolve(d, 0, 0, m.spec_indent_cap())
            == Some((o, l)),
{
    lemma_run_charges_events(m, d, cost_zero(), 0, 0);
    if let Some((o, l, k)) = run(m, d, 0, 0) {
        lemma_cost_add_algebra(k, k, k);
        assert(cost_add(cost_zero(), k) == Some(k));
    }
}

/// A frontier candidate: cost, last column and output witness.
#[derive(Debug)]
pub struct Cand {
    /// Cost of the layout.
    pub cost: ConsumerCost,
    /// Final display column.
    pub last: u32,
    /// Persistent output witness.
    pub out: Rc<Out>,
}

impl Cand {
    /// A copy sharing the output witness.
    pub fn duplicate(&self) -> (r: Cand)
        ensures
            r == *self,
    {
        Cand { cost: self.cost, last: self.last, out: crate::share(&self.out) }
    }
}

/// `c` is the layout of some resolution of `d` from `column` under `indent`.
pub open spec fn cand_valid<M: CostModel>(m: M, d: DocModel, column: u32, indent: u32, c: Cand) -> bool {
    exists|k: int|
        0 <= k < spec_expansions(d).len() && run(m, #[trigger] spec_expansions(d)[k], column, indent)
            == Some((c.out@, c.last, c.cost))
}

/// `c` ends no further right than `last` and costs no more than `cost`.
pub open spec fn dominates(c: Cand, last: u32, cost: ConsumerCost) -> bool {
    c.last <= last && cost_le(c.cost, cost)
}

/// Every candidate of `cs` is a layout of some resolution of `d`.
#[verifier::opaque]
pub open spec fn all_valid<M: CostModel>(m: M, d: DocModel, column: u32, indent: u32, cs: Seq<Cand>) -> bool {
    forall|i: int| 0 <= i < cs.len() ==> cand_valid(m, d, column, indent, #[trigger] cs[i])
}

/// Every layout of a resolution of `d` is dominated by a candidate of `cs`.
#[verifier::opaque]
pub open spec fn all_covered<M: CostModel>(m: M, d: DocModel, column: u32, indent: u32, cs: Seq<Cand>) -> bool {
    forall|k: int|
        0 <= k < spec_expansions(d).len() && (#[trigger] run(m, spec_expansions(d)[k], column, indent))
            is Some ==> exists|i: int|
            0 <= i < cs.len() && dominates(
                #[trigger] cs[i],
                run(m, spec_expansions(d)[k], column, indent).unwrap().1,
                run(m, spec_expansions(d)[k], column, indent).unwrap().2,
            )
}

/// `cs` is a correct frontier: non-empty, every candidate a real layout, and
/// every layout dominated by some candidate.
pub open spec fn frontier_ok<M: CostModel>(
    m: M,
    d: DocModel,
    column: u32,
    indent: u32,
    cs: Seq<Cand>,
) -> bool {
    &&& cs.len() >= 1
    &&& all_valid(m, d, column, indent, cs)
    &&& all_covered(m, d, column, indent, cs)
    &&& exists|ids: Seq<int>| ranked(m, d, column, indent, cs, ids)
}

/// Resolution `k` of `d` lays out from `column` under `indent` as `c`.
pub open spec fn cand_at<M: CostModel>(m: M, d: DocModel, column: u32, indent: u32, c: Cand, k: int) -> bool {
    &&& 0 <= k < spec_expansions(d).len()
    &&& run(m, spec_expansions(d)[k], column, indent) == Some((c.out@, c.last, c.cost))
}

/// `c`, standing at position `i`, settles a layout at position `k` that
/// ends at `last` and costs `cost`: it ends no further right, and it either
/// costs strictly less or costs the same and comes no later.
pub open spec fn settles(c: Cand, i: int, last: u32, cost: ConsumerCost, k: int) -> bool {
    c.last <= last && (cost_lt(c.cost, cost) || (c.cost == cost && i <= k))
}

/// `ids` ranks the candidates `cs` of `d`: candidate `t` is the layout of
/// resolution `ids[t]`, the resolutions increase along `cs`, and the layout
/// of every resolution is settled by some candidate.
#[verifier::opaque]
pub open spec fn ranked<M: CostModel>(
    m: M,
    d: DocModel,
    column: u32,
    indent: u32,
    cs: Seq<Cand>,
    ids: Seq<int>,
) -> bool {
    &&& ids.len() == cs.len()
    &&& forall|t: int| 0 <= t < cs.len() ==> cand_at(m, d, column, indent, #[trigger] cs[t], ids[t])
    &&& forall|s: int, t: int| 0 <= s < t < cs.len() ==> #[trigger] ids[s] < #[trigger] ids[t]
    &&& forall|k: int|
        0 <= k < spec_expansions(d).len() && (#[trigger] run(m, spec_expansions(d)[k], column, indent))
            is Some ==> exists|t: int|
            0 <= t < cs.len() && settles(
                #[trigger] cs[t],
                ids[t],
                run(m, spec_expansions(d)[k], column, indent).unwrap().1,
                run(m, spec_expansions(d)[k], column, indent).unwrap().2,
                k,
            )
}

/// Whether an earlier candidate `p` makes `c` redundant: same end and no
/// dearer, or an earlier end and strictly cheaper.
pub open spec fn redundant(p: Cand, c: Cand) -> bool {
    redundant_pair(p.last, p.cost, c.last, c.cost)
}

/// Redundancy on the end column and cost alone.
pub open spec fn redundant_pair(pl: u32, pc: ConsumerCost, cl: u32, cc: ConsumerCost) -> bool {
    (pl == cl && cost_le(pc, cc)) || (pl < cl && cost_lt(pc, cc))
}

/// Whether a new candidate evicts a kept one.
pub open spec fn evicts(c: Cand, p: Cand) -> bool {
    c.last <= p.last && cost_lt(c.cost, p.cost)
}

/// `kept` is drawn in order from the first `n` elements of `from`: element
/// `t` of `kept` is `from[pos[t]]`, with positions increasing.
pub open spec fn picks(kept: Seq<Cand>, from: Seq<Cand>, pos: Seq<int>, n: int) -> bool {
    &&& pos.len() == kept.len()
    &&& forall|t: int| 0 <= t < kept.len() ==> 0 <= #[trigger] pos[t] < n && kept[t] == from[pos[t]]
    &&& forall|s: int, t: int| 0 <= s < t < kept.len() ==> #[trigger] pos[s] < #[trigger] pos[t]
}

/// Element `j` of `from` is settled by an element of `kept` standing at its
/// position in `pos`.
pub open spec fn settled_at(kept: Seq<Cand>, pos: Seq<int>, from: Seq<Cand>, j: int) -> bool {
    exists|t: int|
        #![trigger kept[t]]
        0 <= t < kept.len() && settles(kept[t], pos[t], from[j].last, from[j].cost, j)
}

/// Every one of the first `n` elements of `from` is settled.
pub open spec fn settles_prefix(kept: Seq<Cand>, pos: Seq<int>, from: Seq<Cand>, n: int) -> bool {
    forall|j: int| 0 <= j < n ==> #[trigger] settled_at(kept, pos, from, j)
}

/// Whether some kept candidate makes `c` redundant.
fn any_redundant(kept: &Vec<Cand>, c: &Cand) -> (r: bool)
    ensures
        r == exists|t: int| 0 <= t < kept@.len() && redundant(#[trigger] kept@[t], *c),
{
    let mut p: usize = 0;
    while p < kept.len()
        invariant
            p <= kept@.len(),
            forall|t: int| 0 <= t < p ==> !redundant(#[trigger] kept@[t], *c),
        decreases kept@.len() - p,
    {
        let prev = &kept[p];
        if (prev.last == c.last && prev.cost.is_at_most(&c.cost)) || (prev.last < c.last
            && prev.cost.is_cheaper_than(&c.cost)) {
            assert(redundant(kept@[p as int], *c));
            return true;
        }
        p = p + 1;
    }
    false
}

/// The kept candidates that `c` does not evict, in order, followed by `c`;
/// the ghost sequence gives the position in `kept` of each survivor.
fn evict_and_push(kept: &Vec<Cand>, c: Cand) -> (r: (Vec<Cand>, Ghost<Seq<int>>))
    ensures
        r.0@.len() >= 1,
        r.0@.len() <= kept@.len() + 1,
        r.0@[r.0@.len() - 1] == c,
        picks(r.0@.drop_last(), kept@, r.1@, kept@.len() as int),
        forall|s: int|
            0 <= s < kept@.len() && !evicts(c, #[trigger] kept@[s]) ==> exists|t: int|
                0 <= t < r.1@.len() && #[trigger] r.1@[t] == s,
{
    let mut next: Vec<Cand> = Vec::new();
    let ghost mut sub: Seq<int> = Seq::empty();
    let mut q: usize = 0;
    while q < kept.len()
        invariant
            q <= kept@.len(),
            next@.len() <= q,
            picks(next@, kept@, sub, q as int),
            forall|s: int|
                0 <= s < q && !evicts(c, #[trigger] kept@[s]) ==> exists|t: int|
                    0 <= t < sub.len() && #[trigger] sub[t] == s,
        decreases kept@.len() - q,
    {
        let prev = &kept[q];
        let ghost prev_sub = sub;
        if !(c.last <= prev.last && c.cost.is_cheaper_than(&prev.cost)) {
            next.push(prev.duplicate());
            proof {
                sub = sub.push(q as int);
                assert(sub[sub.len() - 1] == q);
            }
        }
        assert(forall|t: int| 0 <= t < prev_sub.len() ==> sub[t] == #[trigger] prev_sub[t]);
        q = q + 1;
    }
    let ghost front = next@;
    next.push(c);
    assert(next@.drop_last() =~= front);
    (next, Ghost(sub))
}

/// Replacing `kept` by the survivors of `cands[i]` followed by it keeps the
/// frontier drawn in order from the first `i + 1` candidates and settling
/// each of them.
proof fn lemma_prune_push(
    kept: Seq<Cand>,
    pos: Seq<int>,
    next: Seq<Cand>,
    sub: Seq<int>,
    cands: Seq<Cand>,
    i: int,
)
    requires
        0 <= i < cands.len(),
        picks(kept, cands, pos, i),
        settles_prefix(kept, pos, cands, i),
        next.len() >= 1,
        next[next.len() - 1] == cands[i],
        picks(next.drop_last(), kept, sub, kept.len() as int),
        forall|s: int|
            0 <= s < kept.len() && !evicts(cands[i], #[trigger] kept[s]) ==> exists|t: int|
                0 <= t < sub.len() && #[trigger] sub[t] == s,
    ensures
        picks(next, cands, Seq::new(sub.len(), |t: int| pos[sub[t]]).push(i), i + 1),
        settles_prefix(next, Seq::new(sub.len(), |t: int| pos[sub[t]]).push(i), cands, i + 1),
{
    let c = cands[i];
    let front = next.drop_last();
    let npos = Seq::new(sub.len(), |t: int| pos[sub[t]]).push(i);
    assert forall|t: int| 0 <= t < next.len() implies 0 <= #[trigger] npos[t] < i + 1 && next[t] == cands[npos[t]] by {
        if t < front.len() {
            assert(next[t] == front[t]);
            assert(0 <= sub[t] < kept.len() && front[t] == kept[sub[t]]);
            assert(0 <= pos[sub[t]] < i && kept[sub[t]] == cands[pos[sub[t]]]);
        }
    }
    assert forall|s: int, t: int| 0 <= s < t < next.len() implies #[trigger] npos[s] < #[trigger] npos[t] by {
        if t < front.len() {
            assert(sub[s] < sub[t]);
            assert(pos[sub[s]] < pos[sub[t]]);
        } else {
            assert(0 <= sub[s] < kept.len());
            assert(pos[sub[s]] < i);
        }
    }
    assert forall|j: int| 0 <= j < i + 1 implies #[trigger] settled_at(next, npos, cands, j) by {
            if j == i {
                assert(settles(next[next.len() - 1], npos[next.len() - 1], cands[j].last, cands[j].cost, j));
            } else {
                assert(settled_at(kept, pos, cands, j));
                let s = choose|s: int|
                    #![trigger kept[s]]
                    0 <= s < kept.len() && settles(kept[s], pos[s], cands[j].last, cands[j].cost, j);
                if evicts(c, kept[s]) {
                    lemma_cost_order(c.cost, kept[s].cost, cands[j].cost);
                    assert(settles(next[next.len() - 1], npos[next.len() - 1], cands[j].last, cands[j].cost, j));
                } else {
                    let t = choose|t: int| 0 <= t < sub.len() && #[trigger] sub[t] == s;
                    assert(next[t] == front[t] && front[t] == kept[sub[t]]);
                    assert(settles(next[t], npos[t], cands[j].last, cands[j].cost, j));
                }
            }
    }
}

/// A candidate made redundant by a kept one leaves the frontier drawn in
/// order from, and settling, one more candidate.
proof fn lemma_prune_skip(kept: Seq<Cand>, pos: Seq<int>, cands: Seq<Cand>, i: int)
    requires
        0 <= i < cands.len(),
        picks(kept, cands, pos, i),
        settles_prefix(kept, pos, cands, i),
        exists|t: int| 0 <= t < kept.len() && redundant(#[trigger] kept[t], cands[i]),
    ensures
        picks(kept, cands, pos, i + 1),
        settles_prefix(kept, pos, cands, i + 1),
{
    let c = cands[i];
    let t = choose|t: int| 0 <= t < kept.len() && redundant(#[trigger] kept[t], c);
    assert(0 <= pos[t] < i);
    assert(settles(kept[t], pos[t], c.last, c.cost, i));
    assert forall|j: int| 0 <= j < i + 1 implies #[trigger] settled_at(kept, pos, cands, j) by {
        if j == i {
            assert(settles(kept[t], pos[t], cands[j].last, cands[j].cost, j));
        } else {
            assert(settled_at(kept, pos, cands, j));
        }
    }
}

/// Keeps the preference-aware Pareto frontier of `cands` in generation
/// order: a candidate is dropped when an earlier kept one makes it
/// redundant, and a new candidate evicts kept ones it strictly beats while
/// ending no further right. The kept candidates appear in their input
/// order, and each input candidate is settled by a kept one.
pub fn prune(cands: Vec<Cand>) -> (r: (Vec<Cand>, usize))
    ensures
        cands@.len() >= 1 ==> r.0@.len() >= 1,
        exists|pos: Seq<int>|
            #![trigger picks(r.0@, cands@, pos, cands@.len() as int)]
            picks(r.0@, cands@, pos, cands@.len() as int) && settles_prefix(
                r.0@,
                pos,
                cands@,
                cands@.len() as int,
            ),
        r.1 + r.0@.len() == cands@.len(),
{
    let mut kept: Vec<Cand> = Vec::new();
    let ghost mut pos: Seq<int> = Seq::empty();
    let mut i: usize = 0;
    proof {
    }
    while i < cands.len()
        invariant
            i <= cands@.len(),
            kept@.len() <= i,
            i >= 1 ==> kept@.len() >= 1,
            picks(kept@, cands@, pos, i as int),
            settles_prefix(kept@, pos, cands@, i as int),
        decreases cands@.len() - i,
    {
        let c = cands[i].duplicate();
        if any_redundant(&kept, &c) {
            proof {
                lemma_prune_skip(kept@, pos, cands@, i as int);
            }
        } else {
            let (next, Ghost(sub)) = evict_and_push(&kept, c);
            proof {
                lemma_prune_push(kept@, pos, next@, sub, cands@, i as int);
                pos = Seq::new(sub.len(), |t: int| pos[sub[t]]).push(i as int);
            }
            kept = next;
        }
        i = i + 1;
    }
    assert(picks(kept@, cands@, pos, cands@.len() as int) && settles_prefix(kept@, pos, cands@, cands@.len() as int));
    let kept_len = kept.len();
    let r = (kept, cands.len() - kept_len);
    assert(picks(r.0@, cands@, pos, cands@.len() as int));
    assert(settles_prefix(r.0@, pos, cands@, cands@.len() as int));
    r
}
/// A ranked non-empty candidate list is a frontier.
proof fn lemma_ranked_frontier<M: CostModel>(
    m: M,
    d: DocModel,
    column: u32,
    indent: u32,
    cs: Seq<Cand>,
    ids: Seq<int>,
)
    requires
        cs.len() >= 1,
        ranked(m, d, column, indent, cs, ids),
    ensures
        frontier_ok(m, d, column, indent, cs),
{
    reveal(ranked);
    assert(all_valid(m, d, column, indent, cs)) by {
        reveal(all_valid);
        assert forall|t: int| 0 <= t < cs.len() implies cand_valid(m, d, column, indent, #[trigger] cs[t]) by {
            assert(cand_at(m, d, column, indent, cs[t], ids[t]));
            assert(run(m, spec_expansions(d)[ids[t]], column, indent) == Some((cs[t].out@, cs[t].last, cs[t].cost)));
        }
    }
    assert(all_covered(m, d, column, indent, cs)) by {
        reveal(all_covered);
        assert forall|k: int|
            0 <= k < spec_expansions(d).len() && (#[trigger] run(m, spec_expansions(d)[k], column, indent)) is Some
            implies exists|t: int|
            0 <= t < cs.len() && dominates(
                #[trigger] cs[t],
                run(m, spec_expansions(d)[k], column, indent).unwrap().1,
                run(m, spec_expansions(d)[k], column, indent).unwrap().2,
            ) by {
            let (o, l, c) = run(m, spec_expansions(d)[k], column, indent).unwrap();
            let t = choose|t: int| 0 <= t < cs.len() && settles(#[trigger] cs[t], ids[t], l, c, k);
            assert(dominates(cs[t], l, c));
        }
    }
}

/// Pruning a frontier keeps a frontier: the kept candidates carry the
/// resolutions of the candidates they were drawn from.
proof fn lemma_pruned_frontier<M: CostModel>(
    m: M,
    d: DocModel,
    column: u32,
    indent: u32,
    input: Seq<Cand>,
    kept: Seq<Cand>,
    pos: Seq<int>,
)
    requires
        frontier_ok(m, d, column, indent, input),
        kept.len() >= 1,
        picks(kept, input, pos, input.len() as int),
        settles_prefix(kept, pos, input, input.len() as int),
    ensures
        frontier_ok(m, d, column, indent, kept),
{
    let ids_in = choose|ids: Seq<int>| ranked(m, d, column, indent, input, ids);
    let ids = Seq::new(kept.len(), |t: int| ids_in[pos[t]]);
    lemma_pruned_settles(m, d, column, indent, input, ids_in, kept, pos, ids);
    assert(ranked(m, d, column, indent, kept, ids)) by {
        reveal(ranked);
        assert forall|t: int| 0 <= t < kept.len() implies cand_at(m, d, column, indent, #[trigger] kept[t], ids[t]) by {
            assert(0 <= pos[t] < input.len() && kept[t] == input[pos[t]]);
            assert(cand_at(m, d, column, indent, input[pos[t]], ids_in[pos[t]]));
        }
        assert forall|s: int, t: int| 0 <= s < t < kept.len() implies #[trigger] ids[s] < #[trigger] ids[t] by {
            assert(pos[s] < pos[t]);
            assert(0 <= pos[s] && pos[t] < input.len());
            assert(ids_in[pos[s]] < ids_in[pos[t]]);
        }
    }
    lemma_ranked_frontier(m, d, column, indent, kept, ids);
}

/// The settling part of [`lemma_pruned_frontier`].
proof fn lemma_pruned_settles<M: CostModel>(
    m: M,
    d: DocModel,
    column: u32,
    indent: u32,
    input: Seq<Cand>,
    ids_in: Seq<int>,
    kept: Seq<Cand>,
    pos: Seq<int>,
    ids: Seq<int>,
)
    requires
        ranked(m, d, column, indent, input, ids_in),
        picks(kept, input, pos, input.len() as int),
        settles_prefix(kept, pos, input, input.len() as int),
        ids.len() == kept.len(),
        forall|t: int| 0 <= t < kept.len() ==> #[trigger] ids[t] == ids_in[pos[t]],
    ensures
        forall|k: int|
            0 <= k < spec_expansions(d).len() && (#[trigger] run(m, spec_expansions(d)[k], column, indent)) is Some
                ==> exists|t: int|
                0 <= t < kept.len() && settles(
                    #[trigger] kept[t],
                    ids[t],
                    run(m, spec_expansions(d)[k], column, indent).unwrap().1,
                    run(m, spec_expansions(d)[k], column, indent).unwrap().2,
                    k,
                ),
{
    assert forall|k: int|
        0 <= k < spec_expansions(d).len() && (#[trigger] run(m, spec_expansions(d)[k], column, indent)) is Some
        implies exists|t: int|
        0 <= t < kept.len() && settles(
            #[trigger] kept[t],
            ids[t],
            run(m, spec_expansions(d)[k], column, indent).unwrap().1,
            run(m, spec_expansions(d)[k], column, indent).unwrap().2,
            k,
        ) by {
        let (o, l, c) = run(m, spec_expansions(d)[k], column, indent).unwrap();
        lemma_ranked_settles(m, d, column, indent, input, ids_in, k);
        let j = choose|j: int| 0 <= j < input.len() && settles(#[trigger] input[j], ids_in[j], l, c, k);
        assert(settled_at(kept, pos, input, j));
        let t = choose|t: int|
            #![trigger kept[t]]
            0 <= t < kept.len() && settles(kept[t], pos[t], input[j].last, input[j].cost, j);
        lemma_cost_order(kept[t].cost, input[j].cost, c);
        assert(0 <= pos[t] < input.len());
        if pos[t] < j {
            lemma_ranked_order(m, d, column, indent, input, ids_in, pos[t], j);
        }
        assert(settles(kept[t], ids[t], l, c, k));
    }
}

/// A ranked list settles the layout of every resolution that lays out.
proof fn lemma_ranked_settles<M: CostModel>(
    m: M,
    d: DocModel,
    column: u32,
    indent: u32,
    cs: Seq<Cand>,
    ids: Seq<int>,
    k: int,
)
    requires
        ranked(m, d, column, indent, cs, ids),
        0 <= k < spec_expansions(d).len(),
        run(m, spec_expansions(d)[k], column, indent) is Some,
    ensures
        exists|t: int|
            0 <= t < cs.len() && settles(
                #[trigger] cs[t],
                ids[t],
                run(m, spec_expansions(d)[k], column, indent).unwrap().1,
                run(m, spec_expansions(d)[k], column, indent).unwrap().2,
                k,
            ),
{
    reveal(ranked);
}

/// A ranked list's resolutions increase along it.
proof fn lemma_ranked_order<M: CostModel>(
    m: M,
    d: DocModel,
    column: u32,
    indent: u32,
    cs: Seq<Cand>,
    ids: Seq<int>,
    s: int,
    t: int,
)
    requires
        ranked(m, d, column, indent, cs, ids),
        0 <= s < t < cs.len(),
    ensures
        ids[s] < ids[t],
{
    reveal(ranked);
}

/// A ranked list has one resolution per candidate.
proof fn lemma_ranked_len<M: CostModel>(
    m: M,
    d: DocModel,
    column: u32,
    indent: u32,
    cs: Seq<Cand>,
    ids: Seq<int>,
)
    requires
        ranked(m, d, column, indent, cs, ids),
    ensures
        ids.len() == cs.len(),
{
    reveal(ranked);
}

/// A ranked list's candidate `t` is the layout of resolution `ids[t]`.
proof fn lemma_ranked_at<M: CostModel>(
    m: M,
    d: DocModel,
    column: u32,
    indent: u32,
    cs: Seq<Cand>,
    ids: Seq<int>,
    t: int,
)
    requires
        ranked(m, d, column, indent, cs, ids),
        0 <= t < cs.len(),
    ensures
        ids.len() == cs.len(),
        cand_at(m, d, column, indent, cs[t], ids[t]),
{
    reveal(ranked);
}

} // verus!

verus! {

/// Every pair of a left and a right resolution occurs in `concat_pairs`.
pub proof fn lemma_concat_pairs_member(ls: Seq<DocModel>, rs: Seq<DocModel>, i: int, j: int)
    requires
        0 <= i < ls.len(),
        0 <= j < rs.len(),
    ensures
        exists|k: int|
            0 <= k < concat_pairs(ls, rs).len() && #[trigger] concat_pairs(ls, rs)[k]
                == DocModel::Concat(Box::new(ls[i]), Box::new(rs[j])),
{
    let pre = ls.take(i);
    let post = ls.skip(i);
    assert(pre + post =~= ls);
    lemma_concat_pairs_append(pre, post, rs);
    assert(concat_pairs(post, rs) == pair_row(post[0], rs) + concat_pairs(post.drop_first(), rs));
    let k = concat_pairs(pre, rs).len() + j;
    assert(concat_pairs(ls, rs)[k] == pair_row(ls[i], rs)[j]);
}

/// `concat_pairs` holds one row of `rs.len()` pairs per left resolution.
proof fn lemma_concat_pairs_len(ls: Seq<DocModel>, rs: Seq<DocModel>)
    ensures
        concat_pairs(ls, rs).len() == ls.len() * rs.len(),
    decreases ls.len(),
{
    if ls.len() > 0 {
        let rest = ls.drop_first();
        lemma_concat_pairs_len(rest, rs);
        assert(concat_pairs(ls, rs) == pair_row(ls[0], rs) + concat_pairs(rest, rs));
        let (a, b) = (ls.len() as int, rs.len() as int);
        assert(a * b == (a - 1) * b + b) by (nonlinear_arith);
    }
}

/// Pair `(i, j)` sits at `i * rs.len() + j` in `concat_pairs(ls, rs)`.
pub proof fn lemma_concat_pairs_index(ls: Seq<DocModel>, rs: Seq<DocModel>, i: int, j: int)
    requires
        0 <= i < ls.len(),
        0 <= j < rs.len(),
    ensures
        concat_pairs(ls, rs).len() == ls.len() * rs.len(),
        i * rs.len() + j < concat_pairs(ls, rs).len(),
        concat_pairs(ls, rs)[i * rs.len() + j] == DocModel::Concat(Box::new(ls[i]), Box::new(rs[j])),
    decreases ls.len(),
{
    lemma_concat_pairs_len(ls, rs);
    let rest = ls.drop_first();
    let n = rs.len() as int;
    assert(concat_pairs(ls, rs) == pair_row(ls[0], rs) + concat_pairs(rest, rs));
    if i == 0 {
        assert(i * n == 0) by (nonlinear_arith)
            requires
                i == 0,
        ;
        assert(concat_pairs(ls, rs)[j] == pair_row(ls[0], rs)[j]);
        assert(ls.len() * n >= n) by (nonlinear_arith)
            requires
                ls.len() >= 1,
                n >= 0,
        ;
    } else {
        lemma_concat_pairs_index(rest, rs, i - 1, j);
        assert(rest[i - 1] == ls[i]);
        assert((i - 1) * n + j + n == i * n + j) by (nonlinear_arith);
        let a = ls.len() as int;
        assert(a * n == (a - 1) * n + n) by (nonlinear_arith);
        assert(concat_pairs(ls, rs)[i * n + j] == concat_pairs(rest, rs)[(i - 1) * n + j]);
    }
}

/// Position `k` of `concat_pairs(ls, rs)` pairs left resolution
/// `k / rs.len()` with right resolution `k % rs.len()`.
pub proof fn lemma_concat_pairs_split(ls: Seq<DocModel>, rs: Seq<DocModel>, k: int)
    requires
        0 <= k < concat_pairs(ls, rs).len(),
    ensures
        rs.len() > 0,
        0 <= k / (rs.len() as int) < ls.len(),
        0 <= k % (rs.len() as int) < rs.len(),
        k == (k / (rs.len() as int)) * rs.len() + k % (rs.len() as int),
        concat_pairs(ls, rs)[k] == DocModel::Concat(
            Box::new(ls[k / (rs.len() as int)]),
            Box::new(rs[k % (rs.len() as int)]),
        ),
{
    lemma_concat_pairs_len(ls, rs);
    let n = rs.len() as int;
    let a = ls.len() as int;
    if n == 0 {
        assert(a * n == 0) by (nonlinear_arith)
            requires
                n == 0,
        ;
    }
    assert(n > 0);
    let i = k / n;
    let j = k % n;
    assert(k == i * n + j && 0 <= j < n) by (nonlinear_arith)
        requires
            n > 0,
            i == k / n,
            j == k % n,
    ;
    assert(0 <= i < a) by (nonlinear_arith)
        requires
            n > 0,
            0 <= k < a * n,
            k == i * n + j,
            0 <= j < n,
    ;
    lemma_concat_pairs_index(ls, rs, i, j);
}

/// Every element of `concat_pairs` joins a left and a right resolution.
pub proof fn lemma_concat_pairs_decompose(ls: Seq<DocModel>, rs: Seq<DocModel>, k: int)
    requires
        0 <= k < concat_pairs(ls, rs).len(),
    ensures
        exists|i: int, j: int|
            0 <= i < ls.len() && 0 <= j < rs.len() && concat_pairs(ls, rs)[k] == DocModel::Concat(
                Box::new(#[trigger] ls[i]),
                Box::new(#[trigger] rs[j]),
            ),
    decreases ls.len(),
{
    if ls.len() > 0 {
        let row = pair_row(ls[0], rs);
        if k < rs.len() {
            assert(concat_pairs(ls, rs)[k] == row[k]);
            assert(concat_pairs(ls, rs)[k] == DocModel::Concat(Box::new(ls[0]), Box::new(rs[k])));
        } else {
            lemma_concat_pairs_decompose(ls.drop_first(), rs, k - rs.len());
            let (i, j) = choose|i: int, j: int|
                0 <= i < ls.drop_first().len() && 0 <= j < rs.len() && concat_pairs(
                    ls.drop_first(),
                    rs,
                )[k - rs.len()] == DocModel::Concat(
                    Box::new(#[trigger] ls.drop_first()[i]),
                    Box::new(#[trigger] rs[j]),
                );
            assert(concat_pairs(ls, rs)[k] == concat_pairs(ls.drop_first(), rs)[k - rs.len()]);
            assert(ls.drop_first()[i] == ls[i + 1]);
        }
    }
}

/// What an error of a solve under `limits` says: a limit error names a
/// configured limit that its counters exceed, and a column error a column
/// and width whose sum leaves `u32`.
pub open spec fn error_sound(limits: SolveLimits, e: RenderError) -> bool {
    match e {
        RenderError::LimitExceeded { kind, configured, stats } => match kind {
            SolveLimitKind::SolveCalls => limits.max_solve_calls == Some(configured) && stats.solve_calls
                > configured,
            SolveLimitKind::Candidates => limits.max_candidates == Some(configured) && stats.candidates_generated
                > configured,
            SolveLimitKind::MemoEntries => limits.max_memo_entries matches Some(l) && stats.memo_entries >= l
                && configured == (if l > u64::MAX {
                u64::MAX
            } else {
                l as u64
            }),
        },
        RenderError::ColumnOverflow { column, width, .. } => column + width > u32::MAX,
        RenderError::CostOverflow { .. } => true,
    }
}

/// The counters that `limits` bound stay within them: solve calls and
/// generated candidates at most their limits, memo entries at most theirs.
pub open spec fn within_limits(limits: SolveLimits, stats: SolveStats) -> bool {
    &&& (limits.max_solve_calls matches Some(l) ==> stats.solve_calls <= l)
    &&& (limits.max_candidates matches Some(l) ==> stats.candidates_generated <= l)
    &&& (limits.max_memo_entries matches Some(l) ==> stats.memo_entries <= l)
}

/// `n` plus one, saturating at `u64::MAX`.
pub open spec fn bumped(n: u64) -> u64 {
    if n < u64::MAX {
        (n + 1) as u64
    } else {
        u64::MAX
    }
}

/// Deterministic work counters for an exact solve.
#[derive(Clone, Copy, Debug, PartialEq, Eq)]
pub struct SolveStats {
    /// Every subproblem invocation, including memo hits.
    pub solve_calls: u64,
    /// Subproblem invocations satisfied from a completed memo entry.
    pub memo_hits: u64,
    /// Subproblem invocations that required evaluation.
    pub memo_misses: u64,
    /// Candidates emitted by a node before that node's pruning pass.
    pub candidates_generated: u64,
    /// Emitted candidates absent from the retained frontier.
    pub candidates_pruned: u64,
    /// Largest retained frontier for one completed subproblem.
    pub peak_frontier: usize,
    /// Completed memo entries retained at success or failure.
    pub memo_entries: usize,
    /// Structurally distinct documents interned at success or failure.
    pub interned_documents: usize,
}

impl Default for SolveStats {
    fn default() -> (r: Self)
        ensures
            r.solve_calls == 0 && r.memo_hits == 0 && r.memo_misses == 0 && r.candidates_generated
                == 0 && r.candidates_pruned == 0 && r.peak_frontier == 0 && r.memo_entries == 0
                && r.interned_documents == 0,
    {
        SolveStats {
            solve_calls: 0,
            memo_hits: 0,
            memo_misses: 0,
            candidates_generated: 0,
            candidates_pruned: 0,
            peak_frontier: 0,
            memo_entries: 0,
            interned_documents: 0,
        }
    }
}

/// Deterministic exact-solver resource limits. `None` means unlimited.
#[derive(Clone, Copy, Debug, PartialEq, Eq)]
pub struct SolveLimits {
    /// Maximum permitted solve invocations, including memo hits.
    pub max_solve_calls: Option<u64>,
    /// Maximum permitted node-emitted candidates before pruning.
    pub max_candidates: Option<u64>,
    /// Maximum permitted completed memo entries.
    pub max_memo_entries: Option<usize>,
}

impl Default for SolveLimits {
    fn default() -> (r: Self)
        ensures
            r.max_solve_calls is None && r.max_candidates is None && r.max_memo_entries is None,
    {
        SolveLimits { max_solve_calls: None, max_candidates: None, max_memo_entries: None }
    }
}

/// The limit that a solve exceeded.
#[derive(Clone, Copy, Debug, PartialEq, Eq, Structural)]
pub enum SolveLimitKind {
    /// Solve invocations.
    SolveCalls,
    /// Generated candidates.
    Candidates,
    /// Memo entries.
    MemoEntries,
}

/// Failure of an exact solve.
#[derive(Clone, Copy, Debug, PartialEq, Eq)]
#[non_exhaustive]
pub enum RenderError {
    /// A configured resource limit was exceeded.
    LimitExceeded { kind: SolveLimitKind, configured: u64, stats: SolveStats },
    /// A column or indentation left `u32`.
    ColumnOverflow { column: u32, width: u32, stats: SolveStats },
    /// A layout cost left its checked domain.
    CostOverflow { stats: SolveStats },
}

/// A winning candidate and the statistics of the solve that found it.
#[derive(Debug)]
pub struct Solved {
    /// The minimum-cost candidate.
    pub candidate: Cand,
    /// Solver counters.
    pub stats: SolveStats,
}

struct MemoEntry {
    doc_id: usize,
    column: u32,
    indent: u32,
    cands: Rc<Vec<Cand>>,
}

/// The memo `memo` keeps the entries of `earlier` first, and every entry
/// after them is for a document of `docs` with fewer than `bound` nodes.
spec fn memo_added_below(memo: Seq<MemoEntry>, docs: Seq<Rc<Doc>>, earlier: Seq<MemoEntry>, bound: nat) -> bool {
    &&& memo.len() >= earlier.len()
    &&& forall|j: int| 0 <= j < earlier.len() ==> #[trigger] memo[j] == earlier[j]
    &&& forall|j: int|
        earlier.len() <= j < memo.len() ==> (#[trigger] memo[j]).doc_id < docs.len() && doc_size(
            docs[memo[j].doc_id as int]@,
        ) < bound
}

/// A memo has added nothing to itself.
proof fn lemma_added_refl(memo: Seq<MemoEntry>, docs: Seq<Rc<Doc>>, bound: nat)
    ensures
        memo_added_below(memo, docs, memo, bound),
{
}

/// Additions stay additions when the documents only grow.
proof fn lemma_added_keep(earlier: Seq<MemoEntry>, memo: Seq<MemoEntry>, d1: Seq<Rc<Doc>>, d2: Seq<Rc<Doc>>, bound: nat)
    requires
        memo_added_below(memo, d1, earlier, bound),
        d2.len() >= d1.len(),
        forall|k: int| 0 <= k < d1.len() ==> #[trigger] d2[k] == d1[k],
    ensures
        memo_added_below(memo, d2, earlier, bound),
{
    assert forall|j: int| earlier.len() <= j < memo.len() implies (#[trigger] memo[j]).doc_id < d2.len() && doc_size(
        d2[memo[j].doc_id as int]@,
    ) < bound by {
        assert(d2[memo[j].doc_id as int] == d1[memo[j].doc_id as int]);
    }
}

/// Additions below two bounds, made in turn, are additions below any bound
/// at least both, when the documents only grow.
proof fn lemma_added_trans(
    m0: Seq<MemoEntry>,
    m1: Seq<MemoEntry>,
    d1: Seq<Rc<Doc>>,
    m2: Seq<MemoEntry>,
    d2: Seq<Rc<Doc>>,
    b1: nat,
    b2: nat,
    b: nat,
)
    requires
        memo_added_below(m1, d1, m0, b1),
        memo_added_below(m2, d2, m1, b2),
        d2.len() >= d1.len(),
        forall|k: int| 0 <= k < d1.len() ==> #[trigger] d2[k] == d1[k],
        b1 <= b,
        b2 <= b,
    ensures
        memo_added_below(m2, d2, m0, b),
{
    assert forall|j: int| m0.len() <= j < m2.len() implies (#[trigger] m2[j]).doc_id < d2.len() && doc_size(
        d2[m2[j].doc_id as int]@,
    ) < b by {
        if j < m1.len() {
            assert(m2[j] == m1[j]);
            assert(d2[m1[j].doc_id as int] == d1[m1[j].doc_id as int]);
        }
    }
}


/// Whether two documents have the same model.
pub fn same_doc(a: &Doc, b: &Doc) -> (r: bool)
    ensures
        r == (a@ == b@),
    decreases *a,
{
    match (a, b) {
        (Doc::Empty, Doc::Empty) => true,
        (Doc::Text(x), Doc::Text(y)) => x.same_as(y),
        (Doc::Line { flat: x }, Doc::Line { flat: y }) => match (x, y) {
            (Some(p), Some(q)) => p.same_as(q),
            (None, None) => true,
            _ => false,
        },
        (Doc::Concat(a1, b1), Doc::Concat(a2, b2)) => same_doc(a1, a2) && same_doc(b1, b2),
        (Doc::Choice(a1, b1), Doc::Choice(a2, b2)) => same_doc(a1, a2) && same_doc(b1, b2),
        (Doc::Nest(n1, x1), Doc::Nest(n2, x2)) => *n1 == *n2 && same_doc(x1, x2),
        (Doc::Align(x1), Doc::Align(x2)) => same_doc(x1, x2),
        (Doc::Tag(t1, x1), Doc::Tag(t2, x2)) => *t1 == *t2 && same_doc(x1, x2),
        (Doc::Penalty { amount: p1, doc: x1 }, Doc::Penalty { amount: p2, doc: x2 }) => *p1 == *p2
            && same_doc(x1, x2),
        _ => false,
    }
}

/// A leaf document, whose only resolution is itself, has the frontier made
/// of its single layout.
proof fn lemma_frontier_leaf<M: CostModel>(m: M, d: DocModel, column: u32, indent: u32, c: Cand)
    requires
        spec_expansions(d) == seq![d],
        run(m, d, column, indent) == Some((c.out@, c.last, c.cost)),
    ensures
        frontier_ok(m, d, column, indent, seq![c]),
{
    let cs = seq![c];
    assert(all_valid(m, d, column, indent, cs)) by {
        reveal(all_valid);
        assert(run(m, spec_expansions(d)[0], column, indent) == Some((c.out@, c.last, c.cost)));
        assert(cand_valid(m, d, column, indent, cs[0]));
    }
    assert(all_covered(m, d, column, indent, cs)) by {
        reveal(all_covered);
        assert(dominates(cs[0], c.last, c.cost));
    }
    assert(ranked(m, d, column, indent, cs, seq![0int])) by {
        reveal(ranked);
        assert(cand_at(m, d, column, indent, cs[0], 0));
        assert(settles(cs[0], 0, c.last, c.cost, 0));
    }
}

/// The frontier of a choice is the preferred frontier followed by the
/// alternative one.
proof fn lemma_frontier_choice<M: CostModel>(
    m: M,
    p: DocModel,
    q: DocModel,
    column: u32,
    indent: u32,
    ps: Seq<Cand>,
    qs: Seq<Cand>,
)
    requires
        frontier_ok(m, p, column, indent, ps),
        frontier_ok(m, q, column, indent, qs),
    ensures
        frontier_ok(m, DocModel::Choice(Box::new(p), Box::new(q)), column, indent, ps + qs),
{
    let d = DocModel::Choice(Box::new(p), Box::new(q));
    let cs = ps + qs;
    let ep = spec_expansions(p);
    let eq = spec_expansions(q);
    assert(spec_expansions(d) == ep + eq);
    assert(all_valid(m, d, column, indent, cs)) by {
        reveal(all_valid);
        assert forall|i: int| 0 <= i < cs.len() implies cand_valid(m, d, column, indent, #[trigger] cs[i]) by {
            if i < ps.len() {
                assert(cs[i] == ps[i]);
                assert(cand_valid(m, p, column, indent, ps[i]));
                let k = choose|k: int|
                    0 <= k < ep.len() && run(m, #[trigger] ep[k], column, indent) == Some(
                        (ps[i].out@, ps[i].last, ps[i].cost),
                    );
                assert(spec_expansions(d)[k] == ep[k]);
            } else {
                assert(cs[i] == qs[i - ps.len()]);
                assert(cand_valid(m, q, column, indent, qs[i - ps.len()]));
                let k = choose|k: int|
                    0 <= k < eq.len() && run(m, #[trigger] eq[k], column, indent) == Some(
                        (qs[i - ps.len()].out@, qs[i - ps.len()].last, qs[i - ps.len()].cost),
                    );
                assert(spec_expansions(d)[ep.len() + k] == eq[k]);
            }
        }
    }
    assert(all_covered(m, d, column, indent, cs)) by {
        reveal(all_covered);
        assert forall|k: int|
            0 <= k < spec_expansions(d).len() && (#[trigger] run(m, spec_expansions(d)[k], column, indent)) is Some
            implies exists|i: int|
            0 <= i < cs.len() && dominates(
                #[trigger] cs[i],
                run(m, spec_expansions(d)[k], column, indent).unwrap().1,
                run(m, spec_expansions(d)[k], column, indent).unwrap().2,
            ) by {
            if k < ep.len() {
                assert(spec_expansions(d)[k] == ep[k]);
                assert(run(m, ep[k], column, indent) is Some);
                let i = choose|i: int|
                    0 <= i < ps.len() && dominates(
                        #[trigger] ps[i],
                        run(m, ep[k], column, indent).unwrap().1,
                        run(m, ep[k], column, indent).unwrap().2,
                    );
                assert(cs[i] == ps[i]);
            } else {
                assert(spec_expansions(d)[k] == eq[k - ep.len()]);
                assert(run(m, eq[k - ep.len()], column, indent) is Some);
                let i = choose|i: int|
                    0 <= i < qs.len() && dominates(
                        #[trigger] qs[i],
                        run(m, eq[k - ep.len()], column, indent).unwrap().1,
                        run(m, eq[k - ep.len()], column, indent).unwrap().2,
                    );
                assert(cs[ps.len() + i] == qs[i]);
            }
        }
    }
    lemma_ranked_choice(m, p, q, column, indent, ps, qs);
}

/// The preferred candidates followed by the alternative ones, the latter
/// ranked past the preferred resolutions, are ranked for the choice.
proof fn lemma_ranked_choice<M: CostModel>(
    m: M,
    p: DocModel,
    q: DocModel,
    column: u32,
    indent: u32,
    ps: Seq<Cand>,
    qs: Seq<Cand>,
)
    requires
        exists|ids: Seq<int>| ranked(m, p, column, indent, ps, ids),
        exists|ids: Seq<int>| ranked(m, q, column, indent, qs, ids),
    ensures
        exists|ids: Seq<int>| ranked(m, DocModel::Choice(Box::new(p), Box::new(q)), column, indent, ps + qs, ids),
{
    let d = DocModel::Choice(Box::new(p), Box::new(q));
    let cs = ps + qs;
    let ep = spec_expansions(p);
    let eq = spec_expansions(q);
    assert(spec_expansions(d) == ep + eq);
    let idp = choose|ids: Seq<int>| ranked(m, p, column, indent, ps, ids);
    let idq = choose|ids: Seq<int>| ranked(m, q, column, indent, qs, ids);
    let ids = idp + idq.map_values(|x: int| x + ep.len());
    lemma_ranked_len(m, p, column, indent, ps, idp);
    lemma_ranked_len(m, q, column, indent, qs, idq);
    assert(ids.len() == cs.len());
    {
        assert forall|u: int| 0 <= u < cs.len() implies cand_at(m, d, column, indent, #[trigger] cs[u], ids[u]) by {
            if u < ps.len() {
                lemma_ranked_at(m, p, column, indent, ps, idp, u);
                assert(cs[u] == ps[u] && ids[u] == idp[u]);
                assert(cand_at(m, p, column, indent, ps[u], idp[u]));
                assert(spec_expansions(d)[idp[u]] == ep[idp[u]]);
            } else {
                let v = u - ps.len();
                lemma_ranked_at(m, q, column, indent, qs, idq, v);
                assert(cs[u] == qs[v] && ids[u] == idq[v] + ep.len());
                assert(cand_at(m, q, column, indent, qs[v], idq[v]));
                assert(spec_expansions(d)[idq[v] + ep.len()] == eq[idq[v]]);
            }
        }
        assert forall|a: int, b: int| 0 <= a < b < cs.len() implies #[trigger] ids[a] < #[trigger] ids[b] by {
            if b < ps.len() {
                lemma_ranked_order(m, p, column, indent, ps, idp, a, b);
            } else if a < ps.len() {
                lemma_ranked_at(m, p, column, indent, ps, idp, a);
                lemma_ranked_at(m, q, column, indent, qs, idq, b - ps.len());
                assert(cand_at(m, p, column, indent, ps[a], idp[a]));
                assert(cand_at(m, q, column, indent, qs[b - ps.len()], idq[b - ps.len()]));
            } else {
                lemma_ranked_order(m, q, column, indent, qs, idq, a - ps.len(), b - ps.len());
            }
        }
        assert forall|k: int|
            0 <= k < spec_expansions(d).len() && (#[trigger] run(m, spec_expansions(d)[k], column, indent)) is Some
            implies exists|u: int|
            0 <= u < cs.len() && settles(
                #[trigger] cs[u],
                ids[u],
                run(m, spec_expansions(d)[k], column, indent).unwrap().1,
                run(m, spec_expansions(d)[k], column, indent).unwrap().2,
                k,
            ) by {
            if k < ep.len() {
                assert(spec_expansions(d)[k] == ep[k]);
                assert(run(m, ep[k], column, indent) is Some);
                let (o, l, c) = run(m, ep[k], column, indent).unwrap();
                lemma_ranked_settles(m, p, column, indent, ps, idp, k);
                let u = choose|u: int| 0 <= u < ps.len() && settles(#[trigger] ps[u], idp[u], l, c, k);
                assert(cs[u] == ps[u] && ids[u] == idp[u]);
            } else {
                let kq = k - ep.len();
                assert(spec_expansions(d)[k] == eq[kq]);
                assert(run(m, eq[kq], column, indent) is Some);
                let (o, l, c) = run(m, eq[kq], column, indent).unwrap();
                lemma_ranked_settles(m, q, column, indent, qs, idq, kq);
                let v = choose|v: int| 0 <= v < qs.len() && settles(#[trigger] qs[v], idq[v], l, c, kq);
                assert(cs[ps.len() + v] == qs[v] && ids[ps.len() + v] == idq[v] + ep.len());
                assert(settles(cs[ps.len() + v], ids[ps.len() + v], l, c, k));
            }
        }
    }
    lemma_ranked_intro(m, d, column, indent, cs, ids);
}

/// Nesting lays the child out under deeper indentation and keeps its
/// frontier.
proof fn lemma_frontier_nest<M: CostModel>(
    m: M,
    n: u16,
    x: DocModel,
    column: u32,
    indent: u32,
    cs: Seq<Cand>,
)
    requires
        indent + n <= u32::MAX,
        frontier_ok(m, x, column, clamp_indent((indent + n) as u32, m.spec_indent_cap()), cs),
    ensures
        frontier_ok(m, DocModel::Nest(n, Box::new(x)), column, indent, cs),
{
    let d = DocModel::Nest(n, Box::new(x));
    let ex = spec_expansions(x);
    let inner = clamp_indent((indent + n) as u32, m.spec_indent_cap());
    assert(spec_expansions(d) == ex.map_values(|e: DocModel| DocModel::Nest(n, Box::new(e))));
    assert forall|k: int| 0 <= k < ex.len() implies #[trigger] run(m, spec_expansions(d)[k], column, indent)
        == run(m, ex[k], column, inner) by {
        assert(spec_expansions(d)[k] == DocModel::Nest(n, Box::new(ex[k])));
    }
    assert(all_valid(m, d, column, indent, cs)) by {
        reveal(all_valid);
        assert forall|i: int| 0 <= i < cs.len() implies cand_valid(m, d, column, indent, #[trigger] cs[i]) by {
            assert(cand_valid(m, x, column, inner, cs[i]));
            let k = choose|k: int|
                0 <= k < ex.len() && run(m, #[trigger] ex[k], column, inner) == Some(
                    (cs[i].out@, cs[i].last, cs[i].cost),
                );
            assert(run(m, spec_expansions(d)[k], column, indent) == run(m, ex[k], column, inner));
        }
    }
    assert(all_covered(m, d, column, indent, cs)) by {
        reveal(all_covered);
        assert forall|k: int|
            0 <= k < spec_expansions(d).len() && (#[trigger] run(m, spec_expansions(d)[k], column, indent)) is Some
            implies exists|i: int|
            0 <= i < cs.len() && dominates(
                #[trigger] cs[i],
                run(m, spec_expansions(d)[k], column, indent).unwrap().1,
                run(m, spec_expansions(d)[k], column, indent).unwrap().2,
            ) by {
            assert(run(m, spec_expansions(d)[k], column, indent) == run(m, ex[k], column, inner));
            assert(run(m, ex[k], column, inner) is Some);
        }
    }
    lemma_ranked_same_runs(m, x, d, column, inner, indent, cs);
}

/// Candidates ranked for `x` under `inner` are ranked for `d` under
/// `indent` when `d` has as many resolutions as `x`, each laying out as the
/// corresponding resolution of `x`.
proof fn lemma_ranked_same_runs<M: CostModel>(
    m: M,
    x: DocModel,
    d: DocModel,
    column: u32,
    inner: u32,
    indent: u32,
    cs: Seq<Cand>,
)
    requires
        exists|ids: Seq<int>| ranked(m, x, column, inner, cs, ids),
        spec_expansions(d).len() == spec_expansions(x).len(),
        forall|k: int|
            0 <= k < spec_expansions(x).len() ==> #[trigger] run(m, spec_expansions(d)[k], column, indent)
                == run(m, spec_expansions(x)[k], column, inner),
    ensures
        exists|ids: Seq<int>| ranked(m, d, column, indent, cs, ids),
{
    let ids = choose|ids: Seq<int>| ranked(m, x, column, inner, cs, ids);
    let ex = spec_expansions(x);
    reveal(ranked);
    assert forall|t: int| 0 <= t < cs.len() implies cand_at(m, d, column, indent, #[trigger] cs[t], ids[t]) by {
        assert(cand_at(m, x, column, inner, cs[t], ids[t]));
        assert(run(m, spec_expansions(d)[ids[t]], column, indent) == run(m, ex[ids[t]], column, inner));
    }
    assert forall|k: int|
        0 <= k < spec_expansions(d).len() && (#[trigger] run(m, spec_expansions(d)[k], column, indent)) is Some
        implies exists|t: int|
        0 <= t < cs.len() && settles(
            #[trigger] cs[t],
            ids[t],
            run(m, spec_expansions(d)[k], column, indent).unwrap().1,
            run(m, spec_expansions(d)[k], column, indent).unwrap().2,
            k,
        ) by {
        assert(run(m, spec_expansions(d)[k], column, indent) == run(m, ex[k], column, inner));
        assert(run(m, ex[k], column, inner) is Some);
    }
    assert(ranked(m, d, column, indent, cs, ids));
}

/// Alignment lays the child out with indentation at the current column and
/// keeps its frontier.
proof fn lemma_frontier_align<M: CostModel>(m: M, x: DocModel, column: u32, indent: u32, cs: Seq<Cand>)
    requires
        frontier_ok(m, x, column, clamp_indent(column, m.spec_indent_cap()), cs),
    ensures
        frontier_ok(m, DocModel::Align(Box::new(x)), column, indent, cs),
{
    let d = DocModel::Align(Box::new(x));
    let ex = spec_expansions(x);
    let inner = clamp_indent(column, m.spec_indent_cap());
    assert(spec_expansions(d) == ex.map_values(|e: DocModel| DocModel::Align(Box::new(e))));
    assert forall|k: int| 0 <= k < ex.len() implies #[trigger] run(m, spec_expansions(d)[k], column, indent)
        == run(m, ex[k], column, inner) by {
        assert(spec_expansions(d)[k] == DocModel::Align(Box::new(ex[k])));
    }
    assert(all_valid(m, d, column, indent, cs)) by {
        reveal(all_valid);
        assert forall|i: int| 0 <= i < cs.len() implies cand_valid(m, d, column, indent, #[trigger] cs[i]) by {
            assert(cand_valid(m, x, column, inner, cs[i]));
            let k = choose|k: int|
                0 <= k < ex.len() && run(m, #[trigger] ex[k], column, inner) == Some(
                    (cs[i].out@, cs[i].last, cs[i].cost),
                );
            assert(run(m, spec_expansions(d)[k], column, indent) == run(m, ex[k], column, inner));
        }
    }
    assert(all_covered(m, d, column, indent, cs)) by {
        reveal(all_covered);
        assert forall|k: int|
            0 <= k < spec_expansions(d).len() && (#[trigger] run(m, spec_expansions(d)[k], column, indent)) is Some
            implies exists|i: int|
            0 <= i < cs.len() && dominates(
                #[trigger] cs[i],
                run(m, spec_expansions(d)[k], column, indent).unwrap().1,
                run(m, spec_expansions(d)[k], column, indent).unwrap().2,
            ) by {
            assert(run(m, spec_expansions(d)[k], column, indent) == run(m, ex[k], column, inner));
            assert(run(m, ex[k], column, inner) is Some);
        }
    }
    lemma_ranked_same_runs(m, x, d, column, inner, indent, cs);
}

/// `r` is `c` with its output wrapped in tag `t`.
pub open spec fn tagged_cand(t: TagId, c: Cand, r: Cand) -> bool {
    r.cost == c.cost && r.last == c.last && r.out@ == OutModel::Tagged(t, Box::new(c.out@))
}

/// `r` is `c` with its output wrapped in a penalty of `amount`, charged
/// before the child.
pub open spec fn penalized_cand<M: CostModel>(m: M, amount: u32, c: Cand, r: Cand) -> bool {
    cost_add(m.spec_penalty(amount), c.cost) == Some(r.cost) && r.last == c.last && r.out@
        == OutModel::Penalty(amount, Box::new(c.out@))
}

/// Tagging wraps every candidate of the child's frontier.
proof fn lemma_frontier_tag<M: CostModel>(
    m: M,
    t: TagId,
    x: DocModel,
    column: u32,
    indent: u32,
    child: Seq<Cand>,
    cs: Seq<Cand>,
)
    requires
        frontier_ok(m, x, column, indent, child),
        cs.len() == child.len(),
        forall|i: int| 0 <= i < cs.len() ==> tagged_cand(t, #[trigger] child[i], cs[i]),
    ensures
        frontier_ok(m, DocModel::Tag(t, Box::new(x)), column, indent, cs),
{
    let d = DocModel::Tag(t, Box::new(x));
    let ex = spec_expansions(x);
    assert(spec_expansions(d) == ex.map_values(|e: DocModel| DocModel::Tag(t, Box::new(e))));
    assert forall|k: int| 0 <= k < ex.len() implies #[trigger] spec_expansions(d)[k] == DocModel::Tag(
        t,
        Box::new(ex[k]),
    ) by {}
    assert(all_valid(m, d, column, indent, cs)) by {
        reveal(all_valid);
        assert forall|i: int| 0 <= i < cs.len() implies cand_valid(m, d, column, indent, #[trigger] cs[i]) by {
            assert(tagged_cand(t, child[i], cs[i]));
            assert(cand_valid(m, x, column, indent, child[i]));
            let k = choose|k: int|
                0 <= k < ex.len() && run(m, #[trigger] ex[k], column, indent) == Some(
                    (child[i].out@, child[i].last, child[i].cost),
                );
            assert(spec_expansions(d)[k] == DocModel::Tag(t, Box::new(ex[k])));
        }
    }
    assert(all_covered(m, d, column, indent, cs)) by {
        reveal(all_covered);
        assert forall|k: int|
            0 <= k < spec_expansions(d).len() && (#[trigger] run(m, spec_expansions(d)[k], column, indent)) is Some
            implies exists|i: int|
            0 <= i < cs.len() && dominates(
                #[trigger] cs[i],
                run(m, spec_expansions(d)[k], column, indent).unwrap().1,
                run(m, spec_expansions(d)[k], column, indent).unwrap().2,
            ) by {
            assert(spec_expansions(d)[k] == DocModel::Tag(t, Box::new(ex[k])));
            assert(run(m, ex[k], column, indent) is Some);
            let i = choose|i: int|
                0 <= i < child.len() && dominates(
                    #[trigger] child[i],
                    run(m, ex[k], column, indent).unwrap().1,
                    run(m, ex[k], column, indent).unwrap().2,
                );
            assert(tagged_cand(t, child[i], cs[i]));
        }
    }
    let ids = choose|ids: Seq<int>| ranked(m, x, column, indent, child, ids);
    assert(ranked(m, d, column, indent, cs, ids)) by {
        reveal(ranked);
        assert forall|u: int| 0 <= u < cs.len() implies cand_at(m, d, column, indent, #[trigger] cs[u], ids[u]) by {
            assert(cand_at(m, x, column, indent, child[u], ids[u]));
            assert(tagged_cand(t, child[u], cs[u]));
            assert(spec_expansions(d)[ids[u]] == DocModel::Tag(t, Box::new(ex[ids[u]])));
        }
        assert forall|k: int|
            0 <= k < spec_expansions(d).len() && (#[trigger] run(m, spec_expansions(d)[k], column, indent)) is Some
            implies exists|u: int|
            0 <= u < cs.len() && settles(
                #[trigger] cs[u],
                ids[u],
                run(m, spec_expansions(d)[k], column, indent).unwrap().1,
                run(m, spec_expansions(d)[k], column, indent).unwrap().2,
                k,
            ) by {
            assert(spec_expansions(d)[k] == DocModel::Tag(t, Box::new(ex[k])));
            assert(run(m, ex[k], column, indent) is Some);
            let (o, l, c) = run(m, ex[k], column, indent).unwrap();
            let u = choose|u: int| 0 <= u < child.len() && settles(#[trigger] child[u], ids[u], l, c, k);
            assert(tagged_cand(t, child[u], cs[u]));
            assert(settles(cs[u], ids[u], l, c, k));
        }
    }
}

/// A penalty charges every candidate of the child's frontier.
proof fn lemma_frontier_penalty<M: CostModel>(
    m: M,
    amount: u32,
    x: DocModel,
    column: u32,
    indent: u32,
    child: Seq<Cand>,
    cs: Seq<Cand>,
)
    requires
        frontier_ok(m, x, column, indent, child),
        cs.len() == child.len(),
        forall|i: int| 0 <= i < cs.len() ==> penalized_cand(m, amount, #[trigger] child[i], cs[i]),
    ensures
        frontier_ok(m, DocModel::Penalty(amount, Box::new(x)), column, indent, cs),
{
    let d = DocModel::Penalty(amount, Box::new(x));
    let ex = spec_expansions(x);
    let pen = m.spec_penalty(amount);
    assert(spec_expansions(d) == ex.map_values(|e: DocModel| DocModel::Penalty(amount, Box::new(e))));
    assert forall|k: int| 0 <= k < ex.len() implies #[trigger] spec_expansions(d)[k] == DocModel::Penalty(
        amount,
        Box::new(ex[k]),
    ) by {}
    assert(all_valid(m, d, column, indent, cs)) by {
        reveal(all_valid);
        assert forall|i: int| 0 <= i < cs.len() implies cand_valid(m, d, column, indent, #[trigger] cs[i]) by {
            assert(penalized_cand(m, amount, child[i], cs[i]));
            assert(cand_valid(m, x, column, indent, child[i]));
            let k = choose|k: int|
                0 <= k < ex.len() && run(m, #[trigger] ex[k], column, indent) == Some(
                    (child[i].out@, child[i].last, child[i].cost),
                );
            assert(spec_expansions(d)[k] == DocModel::Penalty(amount, Box::new(ex[k])));
        }
    }
    assert(all_covered(m, d, column, indent, cs)) by {
        reveal(all_covered);
        assert forall|k: int|
            0 <= k < spec_expansions(d).len() && (#[trigger] run(m, spec_expansions(d)[k], column, indent)) is Some
            implies exists|i: int|
            0 <= i < cs.len() && dominates(
                #[trigger] cs[i],
                run(m, spec_expansions(d)[k], column, indent).unwrap().1,
                run(m, spec_expansions(d)[k], column, indent).unwrap().2,
            ) by {
            assert(spec_expansions(d)[k] == DocModel::Penalty(amount, Box::new(ex[k])));
            assert(run(m, ex[k], column, indent) is Some);
            let (o, l, c) = run(m, ex[k], column, indent).unwrap();
            let i = choose|i: int| 0 <= i < child.len() && dominates(#[trigger] child[i], l, c);
            assert(penalized_cand(m, amount, child[i], cs[i]));
            lemma_cost_order(pen, pen, pen);
            lemma_cost_add_le(pen, pen, child[i].cost, c);
            assert(dominates(cs[i], l, cost_add(pen, c).unwrap()));
        }
    }
    let ids = choose|ids: Seq<int>| ranked(m, x, column, indent, child, ids);
    assert(ranked(m, d, column, indent, cs, ids)) by {
        reveal(ranked);
        assert forall|u: int| 0 <= u < cs.len() implies cand_at(m, d, column, indent, #[trigger] cs[u], ids[u]) by {
            assert(cand_at(m, x, column, indent, child[u], ids[u]));
            assert(penalized_cand(m, amount, child[u], cs[u]));
            assert(spec_expansions(d)[ids[u]] == DocModel::Penalty(amount, Box::new(ex[ids[u]])));
        }
        assert forall|k: int|
            0 <= k < spec_expansions(d).len() && (#[trigger] run(m, spec_expansions(d)[k], column, indent)) is Some
            implies exists|u: int|
            0 <= u < cs.len() && settles(
                #[trigger] cs[u],
                ids[u],
                run(m, spec_expansions(d)[k], column, indent).unwrap().1,
                run(m, spec_expansions(d)[k], column, indent).unwrap().2,
                k,
            ) by {
            assert(spec_expansions(d)[k] == DocModel::Penalty(amount, Box::new(ex[k])));
            assert(run(m, ex[k], column, indent) is Some);
            let (o, l, c) = run(m, ex[k], column, indent).unwrap();
            let u = choose|u: int| 0 <= u < child.len() && settles(#[trigger] child[u], ids[u], l, c, k);
            assert(penalized_cand(m, amount, child[u], cs[u]));
            lemma_cost_order(pen, pen, pen);
            lemma_cost_add_lt(pen, pen, child[u].cost, c);
            assert(settles(cs[u], ids[u], l, cost_add(pen, c).unwrap(), k));
        }
    }
}

/// `c`, standing for resolution `cid` of a concatenation, settles a
/// layout ending at `last` and costing `cost` of the right part after left
/// candidate `l`, paired at `pair`: it ends no further right and costs `l`
/// plus a rest that is strictly cheaper than `cost`, or equal to it with
/// `cid` no later than `pair`.
pub open spec fn joined_settles_at(l: Cand, pair: int, c: Cand, cid: int, last: u32, cost: ConsumerCost) -> bool {
    &&& c.last <= last
    &&& exists|rest: ConsumerCost|
        #[trigger] cost_add(l.cost, rest) == Some(c.cost) && (cost_lt(rest, cost) || (rest == cost && cid
            <= pair))
}

/// Every layout of resolution `kb` of `b` after left candidate `l`, the
/// layout of left resolution `lid`, is settled in `cs` at pair
/// `lid * |resolutions of b| + kb`.
#[verifier::opaque]
pub open spec fn joined_settles<M: CostModel>(
    m: M,
    b: DocModel,
    indent: u32,
    l: Cand,
    lid: int,
    cs: Seq<Cand>,
    cids: Seq<int>,
) -> bool {
    forall|kb: int|
        0 <= kb < spec_expansions(b).len() && (#[trigger] run(m, spec_expansions(b)[kb], l.last, indent))
            is Some ==> exists|i: int|
            0 <= i < cs.len() && joined_settles_at(
                l,
                lid * spec_expansions(b).len() + kb,
                #[trigger] cs[i],
                cids[i],
                run(m, spec_expansions(b)[kb], l.last, indent).unwrap().1,
                run(m, spec_expansions(b)[kb], l.last, indent).unwrap().2,
            )
}

/// Joining `l` with each of the ranked right candidates `rs`, placed from
/// `offset` on in `cs`, settles every layout of `b` after `l`.
proof fn lemma_joined_settles_done<M: CostModel>(
    m: M,
    b: DocModel,
    indent: u32,
    l: Cand,
    lid: int,
    rs: Seq<Cand>,
    rids: Seq<int>,
    cs: Seq<Cand>,
    cids: Seq<int>,
    offset: int,
)
    requires
        ranked(m, b, l.last, indent, rs, rids),
        0 <= offset,
        offset + rs.len() <= cs.len(),
        cids.len() == cs.len(),
        forall|u: int| 0 <= u < rs.len() ==> joined_cand(l, #[trigger] rs[u], cs[offset + u]),
        forall|u: int| 0 <= u < rs.len() ==> cids[offset + u] == lid * spec_expansions(b).len() + #[trigger] rids[u],
    ensures
        joined_settles(m, b, indent, l, lid, cs, cids),
{
    reveal(joined_settles);
    let eb = spec_expansions(b);
    let n = eb.len() as int;
    assert forall|kb: int|
        0 <= kb < eb.len() && (#[trigger] run(m, eb[kb], l.last, indent)) is Some implies exists|i: int|
        0 <= i < cs.len() && joined_settles_at(
            l,
            lid * n + kb,
            #[trigger] cs[i],
            cids[i],
            run(m, eb[kb], l.last, indent).unwrap().1,
            run(m, eb[kb], l.last, indent).unwrap().2,
        ) by {
        let (o, lb, kc) = run(m, eb[kb], l.last, indent).unwrap();
        lemma_ranked_settles(m, b, l.last, indent, rs, rids, kb);
        let u = choose|u: int| 0 <= u < rs.len() && settles(#[trigger] rs[u], rids[u], lb, kc, kb);
        let i = offset + u;
        assert(joined_cand(l, rs[u], cs[i]));
        assert(cids[offset + u] == lid * n + rids[u]);
        assert(cost_add(l.cost, rs[u].cost) == Some(cs[i].cost));
        assert(joined_settles_at(l, lid * n + kb, cs[i], cids[i], lb, kc));
    }
}

/// Extending the candidates keeps every joined settlement.
proof fn lemma_joined_settles_prefix<M: CostModel>(
    m: M,
    b: DocModel,
    indent: u32,
    l: Cand,
    lid: int,
    cs: Seq<Cand>,
    cids: Seq<int>,
    more: Seq<Cand>,
    mids: Seq<int>,
)
    requires
        joined_settles(m, b, indent, l, lid, cs, cids),
        cs.len() <= more.len(),
        forall|i: int| 0 <= i < cs.len() ==> #[trigger] more[i] == cs[i] && mids[i] == cids[i],
    ensures
        joined_settles(m, b, indent, l, lid, more, mids),
{
    reveal(joined_settles);
    let eb = spec_expansions(b);
    let n = eb.len() as int;
    assert forall|kb: int|
        0 <= kb < eb.len() && (#[trigger] run(m, eb[kb], l.last, indent)) is Some implies exists|i: int|
        0 <= i < more.len() && joined_settles_at(
            l,
            lid * n + kb,
            #[trigger] more[i],
            mids[i],
            run(m, eb[kb], l.last, indent).unwrap().1,
            run(m, eb[kb], l.last, indent).unwrap().2,
        ) by {
        let i = choose|i: int|
            0 <= i < cs.len() && joined_settles_at(
                l,
                lid * n + kb,
                #[trigger] cs[i],
                cids[i],
                run(m, eb[kb], l.last, indent).unwrap().1,
                run(m, eb[kb], l.last, indent).unwrap().2,
            );
        assert(more[i] == cs[i] && mids[i] == cids[i]);
    }
}

/// Joining the layout of left resolution `lid` with that of right
/// resolution `rid` after it lays out resolution `lid * |right| + rid` of
/// the concatenation.
proof fn lemma_concat_at<M: CostModel>(
    m: M,
    a: DocModel,
    b: DocModel,
    column: u32,
    indent: u32,
    l: Cand,
    lid: int,
    r: Cand,
    rid: int,
    c: Cand,
)
    requires
        cand_at(m, a, column, indent, l, lid),
        cand_at(m, b, l.last, indent, r, rid),
        joined_cand(l, r, c),
    ensures
        cand_at(m, DocModel::Concat(Box::new(a), Box::new(b)), column, indent, c, lid * spec_expansions(b).len() + rid),
{
    let ea = spec_expansions(a);
    let eb = spec_expansions(b);
    let d = DocModel::Concat(Box::new(a), Box::new(b));
    lemma_concat_pairs_index(ea, eb, lid, rid);
    assert(spec_expansions(d) == concat_pairs(ea, eb));
}

/// The settlement of one right layout after `l`.
proof fn lemma_joined_settles_get<M: CostModel>(
    m: M,
    b: DocModel,
    indent: u32,
    l: Cand,
    lid: int,
    cs: Seq<Cand>,
    cids: Seq<int>,
    kb: int,
)
    requires
        joined_settles(m, b, indent, l, lid, cs, cids),
        0 <= kb < spec_expansions(b).len(),
        run(m, spec_expansions(b)[kb], l.last, indent) is Some,
    ensures
        exists|i: int|
            0 <= i < cs.len() && joined_settles_at(
                l,
                lid * spec_expansions(b).len() + kb,
                #[trigger] cs[i],
                cids[i],
                run(m, spec_expansions(b)[kb], l.last, indent).unwrap().1,
                run(m, spec_expansions(b)[kb], l.last, indent).unwrap().2,
            ),
{
    reveal(joined_settles);
}

/// A concatenation's joined candidates settle its layouts when the left
/// candidates are ranked and every left candidate's right layouts are
/// settled.
proof fn lemma_concat_settles<M: LawfulCostModel>(
    m: M,
    a: DocModel,
    b: DocModel,
    column: u32,
    indent: u32,
    ls: Seq<Cand>,
    lids: Seq<int>,
    cs: Seq<Cand>,
    cids: Seq<int>,
)
    requires
        ranked(m, a, column, indent, ls, lids),
        forall|t: int| 0 <= t < ls.len() ==> joined_settles(m, b, indent, #[trigger] ls[t], lids[t], cs, cids),
        cids.len() == cs.len(),
    ensures
        forall|k: int|
            0 <= k < spec_expansions(DocModel::Concat(Box::new(a), Box::new(b))).len() && (#[trigger] run(
                m,
                spec_expansions(DocModel::Concat(Box::new(a), Box::new(b)))[k],
                column,
                indent,
            )) is Some ==> exists|i: int|
                0 <= i < cs.len() && settles(
                    #[trigger] cs[i],
                    cids[i],
                    run(m, spec_expansions(DocModel::Concat(Box::new(a), Box::new(b)))[k], column, indent).unwrap().1,
                    run(m, spec_expansions(DocModel::Concat(Box::new(a), Box::new(b)))[k], column, indent).unwrap().2,
                    k,
                ),
{
    let d = DocModel::Concat(Box::new(a), Box::new(b));
    let ea = spec_expansions(a);
    let eb = spec_expansions(b);
    assert(spec_expansions(d) == concat_pairs(ea, eb));
    assert forall|k: int|
        0 <= k < spec_expansions(d).len() && (#[trigger] run(m, spec_expansions(d)[k], column, indent)) is Some
        implies exists|i: int|
        0 <= i < cs.len() && settles(
            #[trigger] cs[i],
            cids[i],
            run(m, spec_expansions(d)[k], column, indent).unwrap().1,
            run(m, spec_expansions(d)[k], column, indent).unwrap().2,
            k,
        ) by {
        lemma_concat_pairs_split(ea, eb, k);
        let n = eb.len() as int;
        let ia = k / n;
        let ib = k % n;
        let (oa, la, ka) = run(m, ea[ia], column, indent).unwrap();
        let (ob, lb, kb) = run(m, eb[ib], la, indent).unwrap();
        let total = cost_add(ka, kb).unwrap();
        assert(run(m, ea[ia], column, indent) is Some);
        lemma_ranked_settles(m, a, column, indent, ls, lids, ia);
        let t = choose|t: int| 0 <= t < ls.len() && settles(#[trigger] ls[t], lids[t], la, ka, ia);
        let l = ls[t];
        lemma_run_monotone(m, eb[ib], l.last, la, indent, indent);
        let (ob2, lb2, kb2) = run(m, eb[ib], l.last, indent).unwrap();
        assert(joined_settles(m, b, indent, l, lids[t], cs, cids));
        lemma_joined_settles_get(m, b, indent, l, lids[t], cs, cids, ib);
        let i = choose|i: int|
            0 <= i < cs.len() && joined_settles_at(l, lids[t] * n + ib, #[trigger] cs[i], cids[i], lb2, kb2);
        let rest = choose|rest: ConsumerCost|
            #[trigger] cost_add(l.cost, rest) == Some(cs[i].cost) && (cost_lt(rest, kb2) || (rest == kb2
                && cids[i] <= lids[t] * n + ib));
        lemma_cost_add_lt(l.cost, ka, rest, kb);
        lemma_cost_le_each_lt(kb2, kb);
        lemma_cost_order(rest, kb2, kb);
        lemma_cost_order(kb2, kb, kb);
        lemma_cost_add_le(l.cost, ka, rest, kb);
        if !cost_lt(l.cost, ka) && !cost_lt(rest, kb) {
            assert(l.cost == ka && lids[t] <= ia);
            assert(rest == kb2 && kb2 == kb);
            assert(lids[t] * n <= ia * n) by (nonlinear_arith)
                requires
                    lids[t] <= ia,
                    n > 0,
            ;
        }
        assert(settles(cs[i], cids[i], lb, total, k));
    }
}

/// `c` joins left candidate `l` and right candidate `r`.
pub open spec fn joined_cand(l: Cand, r: Cand, c: Cand) -> bool {
    cost_add(l.cost, r.cost) == Some(c.cost) && c.last == r.last && c.out@ == spec_out_cat(
        l.out@,
        r.out@,
    )
}

/// Every resolution of `d` lays out from `column` under `indent` with
/// columns and costs inside their domains.
pub open spec fn all_defined<M: CostModel>(m: M, d: DocModel, column: u32, indent: u32) -> bool {
    forall|k: int|
        0 <= k < spec_expansions(d).len() ==> (#[trigger] run(m, spec_expansions(d)[k], column, indent)) is Some
}

/// When every resolution of a concatenation is defined, so is every
/// resolution of its left part, every resolution of its right part after a
/// left layout, and every joined cost.
proof fn lemma_concat_defined<M: CostModel>(
    m: M,
    a: DocModel,
    b: DocModel,
    column: u32,
    indent: u32,
)
    requires
        all_defined(m, DocModel::Concat(Box::new(a), Box::new(b)), column, indent),
    ensures
        all_defined(m, a, column, indent),
        forall|l: Cand| #[trigger] cand_valid(m, a, column, indent, l) ==> all_defined(m, b, l.last, indent),
        forall|l: Cand, r: Cand|
            cand_valid(m, a, column, indent, l) && #[trigger] cand_valid(m, b, l.last, indent, r) ==> (
            #[trigger] cost_add(l.cost, r.cost)) is Some,
{
    let d = DocModel::Concat(Box::new(a), Box::new(b));
    let ea = spec_expansions(a);
    let eb = spec_expansions(b);
    assert(spec_expansions(d) == concat_pairs(ea, eb));
    lemma_expansions_nonempty(b);
    assert forall|i: int| 0 <= i < ea.len() implies (#[trigger] run(m, ea[i], column, indent)) is Some by {
        lemma_concat_pairs_member(ea, eb, i, 0);
        let k = choose|k: int|
            0 <= k < concat_pairs(ea, eb).len() && #[trigger] concat_pairs(ea, eb)[k] == DocModel::Concat(
                Box::new(ea[i]),
                Box::new(eb[0]),
            );
        assert(run(m, spec_expansions(d)[k], column, indent) is Some);
    }
    assert forall|l: Cand| #[trigger] cand_valid(m, a, column, indent, l) implies all_defined(m, b, l.last, indent) by {
        let ka = choose|k: int| 0 <= k < ea.len() && run(m, #[trigger] ea[k], column, indent) == Some((l.out@, l.last, l.cost));
        assert forall|j: int| 0 <= j < eb.len() implies (#[trigger] run(m, eb[j], l.last, indent)) is Some by {
            lemma_concat_pairs_member(ea, eb, ka, j);
            let k = choose|k: int|
                0 <= k < concat_pairs(ea, eb).len() && #[trigger] concat_pairs(ea, eb)[k] == DocModel::Concat(
                    Box::new(ea[ka]),
                    Box::new(eb[j]),
                );
            assert(run(m, spec_expansions(d)[k], column, indent) is Some);
        }
    }
    assert forall|l: Cand, r: Cand|
        cand_valid(m, a, column, indent, l) && #[trigger] cand_valid(m, b, l.last, indent, r) implies (
        #[trigger] cost_add(l.cost, r.cost)) is Some by {
        let ka = choose|k: int| 0 <= k < ea.len() && run(m, #[trigger] ea[k], column, indent) == Some((l.out@, l.last, l.cost));
        let kb = choose|k: int| 0 <= k < eb.len() && run(m, #[trigger] eb[k], l.last, indent) == Some((r.out@, r.last, r.cost));
        lemma_concat_pairs_member(ea, eb, ka, kb);
        let k = choose|k: int|
            0 <= k < concat_pairs(ea, eb).len() && #[trigger] concat_pairs(ea, eb)[k] == DocModel::Concat(
                Box::new(ea[ka]),
                Box::new(eb[kb]),
            );
        assert(run(m, spec_expansions(d)[k], column, indent) is Some);
    }
}

/// When every resolution of a wrapped document is defined, so is every
/// resolution of its child in the child's context, and every penalty
/// charge on a child layout.
proof fn lemma_unary_defined<M: CostModel>(m: M, d: DocModel, column: u32, indent: u32)
    requires
        all_defined(m, d, column, indent),
    ensures
        d matches DocModel::Nest(n, x) ==> indent + n <= u32::MAX && all_defined(
            m,
            *x,
            column,
            clamp_indent((indent + n) as u32, m.spec_indent_cap()),
        ),
        d matches DocModel::Align(x) ==> all_defined(m, *x, column, clamp_indent(column, m.spec_indent_cap())),
        d matches DocModel::Tag(_, x) ==> all_defined(m, *x, column, indent),
        d matches DocModel::Penalty(amount, x) ==> all_defined(m, *x, column, indent) && forall|c: Cand|
            #[trigger] cand_valid(m, *x, column, indent, c) ==> cost_add(m.spec_penalty(amount), c.cost)
                is Some,
        d matches DocModel::Choice(p, q) ==> all_defined(m, *p, column, indent) && all_defined(
            m,
            *q,
            column,
            indent,
        ),
{
    match d {
        DocModel::Nest(n, x) => {
            let ex = spec_expansions(*x);
            lemma_expansions_nonempty(*x);
            assert(spec_expansions(d)[0] == DocModel::Nest(n, Box::new(ex[0])));
            assert(run(m, spec_expansions(d)[0], column, indent) is Some);
            assert forall|k: int| 0 <= k < ex.len() implies (#[trigger] run(m, ex[k], column, clamp_indent((indent + n) as u32, m.spec_indent_cap()))) is Some by {
                assert(spec_expansions(d)[k] == DocModel::Nest(n, Box::new(ex[k])));
                assert(run(m, spec_expansions(d)[k], column, indent) is Some);
            }
        },
        DocModel::Align(x) => {
            let ex = spec_expansions(*x);
            assert forall|k: int| 0 <= k < ex.len() implies (#[trigger] run(m, ex[k], column, clamp_indent(column, m.spec_indent_cap()))) is Some by {
                assert(spec_expansions(d)[k] == DocModel::Align(Box::new(ex[k])));
                assert(run(m, spec_expansions(d)[k], column, indent) is Some);
            }
        },
        DocModel::Tag(t, x) => {
            let ex = spec_expansions(*x);
            assert forall|k: int| 0 <= k < ex.len() implies (#[trigger] run(m, ex[k], column, indent)) is Some by {
                assert(spec_expansions(d)[k] == DocModel::Tag(t, Box::new(ex[k])));
                assert(run(m, spec_expansions(d)[k], column, indent) is Some);
            }
        },
        DocModel::Penalty(amount, x) => {
            let ex = spec_expansions(*x);
            assert forall|k: int| 0 <= k < ex.len() implies (#[trigger] run(m, ex[k], column, indent)) is Some by {
                assert(spec_expansions(d)[k] == DocModel::Penalty(amount, Box::new(ex[k])));
                assert(run(m, spec_expansions(d)[k], column, indent) is Some);
            }
            assert forall|c: Cand| #[trigger] cand_valid(m, *x, column, indent, c) implies cost_add(
                m.spec_penalty(amount),
                c.cost,
            ) is Some by {
                let k = choose|k: int| 0 <= k < ex.len() && run(m, #[trigger] ex[k], column, indent) == Some((c.out@, c.last, c.cost));
                assert(spec_expansions(d)[k] == DocModel::Penalty(amount, Box::new(ex[k])));
                assert(run(m, spec_expansions(d)[k], column, indent) is Some);
            }
        },
        DocModel::Choice(p, q) => {
            let ep = spec_expansions(*p);
            let eq = spec_expansions(*q);
            assert(spec_expansions(d) == ep + eq);
            assert forall|k: int| 0 <= k < ep.len() implies (#[trigger] run(m, ep[k], column, indent)) is Some by {
                assert(spec_expansions(d)[k] == ep[k]);
            }
            assert forall|k: int| 0 <= k < eq.len() implies (#[trigger] run(m, eq[k], column, indent)) is Some by {
                assert(spec_expansions(d)[ep.len() + k] == eq[k]);
            }
        },
        _ => {},
    }
}

/// Exact memoized frontier engine over a lawful cost model.
pub struct Engine<'a, M: LawfulCostModel> {
    cm: &'a M,
    limits: SolveLimits,
    stats: SolveStats,
    docs: Vec<Rc<Doc>>,
    memo: Vec<MemoEntry>,
}

impl<'a, M: LawfulCostModel> Engine<'a, M> {
    /// Every memo entry names an interned document and holds a correct
    /// frontier for it.
    pub closed spec fn wf(&self) -> bool {
        &&& self.stats.memo_entries == self.memo@.len()
        &&& self.stats.interned_documents == self.docs@.len()
        &&& forall|i: int, j: int| 0 <= i < j < self.docs@.len() ==> (#[trigger] self.docs@[i])@ != (#[trigger] self.docs@[j])@
        &&& forall|i: int|
            0 <= i < self.memo@.len() ==> (#[trigger] self.memo@[i]).doc_id < self.docs@.len()
                && frontier_ok(
                *self.cm,
                self.docs@[self.memo@[i].doc_id as int]@,
                self.memo@[i].column,
                self.memo@[i].indent,
                self.memo@[i].cands@,
            )
    }

    /// The cost model.
    pub closed spec fn model(&self) -> M {
        *self.cm
    }

    /// The configured resource limits.
    pub closed spec fn spec_limits(&self) -> SolveLimits {
        self.limits
    }

    /// No resource limit is configured.
    pub closed spec fn unlimited(&self) -> bool {
        &&& self.limits.max_solve_calls is None
        &&& self.limits.max_candidates is None
        &&& self.limits.max_memo_entries is None
    }

    /// Every document interned in `earlier` is interned here under the same
    /// number.
    pub closed spec fn grows_from(&self, earlier: &Self) -> bool {
        &&& self.docs@.len() >= earlier.docs@.len()
        &&& forall|j: int| 0 <= j < earlier.docs@.len() ==> #[trigger] self.docs@[j] == earlier.docs@[j]
    }

    /// An engine with unlimited deterministic work.
    pub fn new(cm: &'a M) -> (r: Self)
        ensures
            r.wf(),
            r.model() == *cm,
            r.unlimited(),
            r.spec_limits() == (SolveLimits { max_solve_calls: None, max_candidates: None, max_memo_entries: None }),
            r.spec_stats().solve_calls == 0 && r.spec_stats().candidates_generated == 0 && r.spec_stats().memo_entries
                == 0,
            r.memo_count() == 0 && r.interned_count() == 0,
            forall|d: DocModel, column: u32, indent: u32| !r.memoized(d, column, indent),
    {
        Self::with_limits(cm, SolveLimits::default())
    }

    /// An engine with deterministic resource limits.
    pub fn with_limits(cm: &'a M, limits: SolveLimits) -> (r: Self)
        ensures
            r.wf(),
            r.model() == *cm,
            r.unlimited() == (limits.max_solve_calls is None && limits.max_candidates is None
                && limits.max_memo_entries is None),
            r.spec_limits() == limits,
            within_limits(limits, r.spec_stats()),
            r.spec_stats().solve_calls == 0 && r.spec_stats().candidates_generated == 0 && r.spec_stats().memo_entries
                == 0,
            r.memo_count() == 0 && r.interned_count() == 0,
            forall|d: DocModel, column: u32, indent: u32| !r.memoized(d, column, indent),
    {
        Engine { cm, limits, stats: SolveStats::default(), docs: Vec::new(), memo: Vec::new() }
    }

    /// Counters accumulated so far.
    pub closed spec fn spec_stats(&self) -> SolveStats {
        self.stats
    }

    /// Counters accumulated so far.
    pub fn stats(&self) -> (r: SolveStats)
        ensures
            r == self.spec_stats(),
            self.wf() ==> r.memo_entries == self.memo_count() && r.interned_documents == self.interned_count(),
    {
        self.stats
    }

    /// The number of completed memo entries.
    pub closed spec fn memo_count(&self) -> nat {
        self.memo@.len()
    }

    /// The number of interned documents.
    pub closed spec fn interned_count(&self) -> nat {
        self.docs@.len()
    }

    /// A completed frontier for a document with model `d` at `column` under
    /// `indent` is memoized.
    pub closed spec fn memoized(&self, d: DocModel, column: u32, indent: u32) -> bool {
        exists|i: int|
            0 <= i < self.memo@.len() && (#[trigger] self.memo@[i]).column == column
                && self.memo@[i].indent == indent && self.memo@[i].doc_id < self.docs@.len()
                && self.docs@[self.memo@[i].doc_id as int]@ == d
    }

    /// Number of completed memo entries.
    pub fn memo_len(&self) -> (r: usize)
        ensures
            r == self.memo_count(),
    {
        self.memo.len()
    }

    /// Number of structurally distinct documents seen.
    pub fn interned_len(&self) -> (r: usize)
        ensures
            r == self.interned_count(),
    {
        self.docs.len()
    }

    fn find_doc(&self, doc: &Doc) -> (r: Option<usize>)
        ensures
            r matches Some(i) ==> i < self.docs@.len() && self.docs@[i as int]@ == doc@,
            r is None ==> forall|j: int| 0 <= j < self.docs@.len() ==> (#[trigger] self.docs@[j])@ != doc@,
    {
        let mut i: usize = 0;
        while i < self.docs.len()
            invariant
                i <= self.docs@.len(),
                forall|j: int| 0 <= j < i ==> (#[trigger] self.docs@[j])@ != doc@,
            decreases self.docs@.len() - i,
        {
            if same_doc(&self.docs[i], doc) {
                return Some(i);
            }
            i = i + 1;
        }
        None
    }

    fn memo_index(&self, id: usize, column: u32, indent: u32) -> (r: Option<usize>)
        ensures
            r matches Some(i) ==> i < self.memo@.len() && self.memo@[i as int].doc_id == id
                && self.memo@[i as int].column == column && self.memo@[i as int].indent == indent,
            r is None ==> forall|j: int|
                0 <= j < self.memo@.len() ==> !((#[trigger] self.memo@[j]).doc_id == id && self.memo@[j].column
                    == column && self.memo@[j].indent == indent),
    {
        let mut i: usize = 0;
        while i < self.memo.len()
            invariant
                i <= self.memo@.len(),
                forall|j: int|
                    0 <= j < i ==> !((#[trigger] self.memo@[j]).doc_id == id && self.memo@[j].column == column
                        && self.memo@[j].indent == indent),
            decreases self.memo@.len() - i,
        {
            let entry = &self.memo[i];
            if entry.doc_id == id && entry.column == column && entry.indent == indent {
                return Some(i);
            }
            i = i + 1;
        }
        None
    }

    /// Whether a completed frontier for `doc` at `column` under `indent` is
    /// memoized.
    pub fn is_memoized(&self, doc: &Doc, column: u32, indent: u32) -> (r: bool)
        requires
            self.wf(),
        ensures
            r == self.memoized(doc@, column, indent),
    {
        match self.find_doc(doc) {
            Some(id) => match self.memo_index(id, column, indent) {
                Some(i) => {
                    assert(self.memo@[i as int].column == column);
                    true
                },
                None => {
                    assert forall|j: int|
                        0 <= j < self.memo@.len() && (#[trigger] self.memo@[j]).column == column
                            && self.memo@[j].indent == indent && self.memo@[j].doc_id < self.docs@.len()
                            implies self.docs@[self.memo@[j].doc_id as int]@ != doc@ by {
                        let k = self.memo@[j].doc_id as int;
                        if k != id as int && self.docs@[k]@ == doc@ {
                            if k < id as int {
                                assert(self.docs@[k]@ != self.docs@[id as int]@);
                            } else {
                                assert(self.docs@[id as int]@ != self.docs@[k]@);
                            }
                        }
                    }
                    false
                },
            },
            None => false,
        }
    }

    fn limit_error(&self, kind: SolveLimitKind, configured: u64) -> (r: RenderError)
        ensures
            r == (RenderError::LimitExceeded { kind, configured, stats: self.stats }),
    {
        RenderError::LimitExceeded { kind, configured, stats: self.stats }
    }

    fn cost_error(&self) -> (r: RenderError)
        ensures
            r == (RenderError::CostOverflow { stats: self.stats }),
    {
        RenderError::CostOverflow { stats: self.stats }
    }

    fn add_columns(&self, column: u32, width: u32) -> (r: Result<u32, RenderError>)
        ensures
            match r {
                Ok(c) => c == column + width,
                Err(e) => column + width > u32::MAX && e == (RenderError::ColumnOverflow {
                    column,
                    width,
                    stats: self.stats,
                }),
            },
    {
        match column.checked_add(width) {
            Some(c) => Ok(c),
            None => Err(RenderError::ColumnOverflow { column, width, stats: self.stats }),
        }
    }

    fn record_solve_call(&mut self) -> (r: Result<(), RenderError>)
        ensures
            final(self).memo == old(self).memo,
            final(self).docs == old(self).docs,
            final(self).cm == old(self).cm,
            final(self).limits == old(self).limits,
            final(self).stats == (SolveStats { solve_calls: bumped(old(self).stats.solve_calls), ..old(self).stats }),
            r == (match old(self).limits.max_solve_calls {
                Some(limit) => if bumped(old(self).stats.solve_calls) > limit {
                    Err(RenderError::LimitExceeded {
                        kind: SolveLimitKind::SolveCalls,
                        configured: limit,
                        stats: final(self).stats,
                    })
                } else {
                    Ok(())
                },
                None => Ok(()),
            }),
    {
        self.stats.solve_calls = self.stats.solve_calls.saturating_add(1);
        if let Some(limit) = self.limits.max_solve_calls {
            if self.stats.solve_calls > limit {
                return Err(self.limit_error(SolveLimitKind::SolveCalls, limit));
            }
        }
        Ok(())
    }

    fn record_candidate(&mut self) -> (r: Result<(), RenderError>)
        ensures
            final(self).memo == old(self).memo,
            final(self).docs == old(self).docs,
            final(self).cm == old(self).cm,
            final(self).limits == old(self).limits,
            final(self).stats == (SolveStats { candidates_generated: bumped(old(self).stats.candidates_generated), ..old(self).stats }),
            r == (match old(self).limits.max_candidates {
                Some(limit) => if bumped(old(self).stats.candidates_generated) > limit {
                    Err(RenderError::LimitExceeded {
                        kind: SolveLimitKind::Candidates,
                        configured: limit,
                        stats: final(self).stats,
                    })
                } else {
                    Ok(())
                },
                None => Ok(()),
            }),
    {
        self.stats.candidates_generated = self.stats.candidates_generated.saturating_add(1);
        if let Some(limit) = self.limits.max_candidates {
            if self.stats.candidates_generated > limit {
                return Err(self.limit_error(SolveLimitKind::Candidates, limit));
            }
        }
        Ok(())
    }

    fn intern(&mut self, doc: &Rc<Doc>) -> (r: usize)
        requires
            old(self).wf(),
        ensures
            final(self).wf(),
            r < final(self).docs@.len(),
            final(self).docs@[r as int]@ == doc@,
            final(self).memo == old(self).memo,
            final(self).cm == old(self).cm,
            final(self).limits == old(self).limits,
            final(self).stats == (SolveStats { interned_documents: final(self).stats.interned_documents, ..old(self).stats }),
            final(self).grows_from(&*old(self)),
            (exists|j: int| 0 <= j < old(self).docs@.len() && (#[trigger] old(self).docs@[j])@ == doc@)
                ==> final(self).docs@ == old(self).docs@,
    {
        match self.find_doc(doc) {
            Some(i) => i,
            None => {
                let ghost before = self.docs@;
                let id = self.docs.len();
                self.docs.push(crate::share(doc));
                self.stats.interned_documents = self.docs.len();
                assert forall|i: int| 0 <= i < self.memo@.len() implies (#[trigger] self.memo@[i]).doc_id
                    < self.docs@.len() && frontier_ok(
                    *self.cm,
                    self.docs@[self.memo@[i].doc_id as int]@,
                    self.memo@[i].column,
                    self.memo@[i].indent,
                    self.memo@[i].cands@,
                ) by {
                    assert(self.docs@[self.memo@[i].doc_id as int] == before[self.memo@[i].doc_id as int]);
                }
                id
            },
        }
    }

    fn lookup(&self, id: usize, column: u32, indent: u32) -> (r: Option<Rc<Vec<Cand>>>)
        requires
            self.wf(),
            id < self.docs@.len(),
        ensures
            r matches Some(cs) ==> frontier_ok(*self.cm, self.docs@[id as int]@, column, indent, cs@),
            r is Some ==> self.memoized(self.docs@[id as int]@, column, indent),
            r is None ==> forall|j: int|
                0 <= j < self.memo@.len() ==> !((#[trigger] self.memo@[j]).doc_id == id && self.memo@[j].column
                    == column && self.memo@[j].indent == indent),
    {
        match self.memo_index(id, column, indent) {
            Some(i) => {
                assert(frontier_ok(
                    *self.cm,
                    self.docs@[self.memo@[i as int].doc_id as int]@,
                    column,
                    indent,
                    self.memo@[i as int].cands@,
                ));
                Some(crate::share(&self.memo[i].cands))
            },
            None => None,
        }
    }

    fn complete(&mut self, id: usize, column: u32, indent: u32, candidates: Vec<Cand>) -> (r: Result<
        Rc<Vec<Cand>>,
        RenderError,
    >)
        requires
            old(self).wf(),
            id < old(self).docs@.len(),
            frontier_ok(*old(self).cm, old(self).docs@[id as int]@, column, indent, candidates@),
        ensures
            r matches Err(e) ==> error_sound(old(self).limits, e),
            r matches Err(RenderError::LimitExceeded { stats, .. }) ==> stats == final(self).stats,
            within_limits(old(self).limits, old(self).stats) && !(r matches Err(RenderError::LimitExceeded { .. }))
                ==> within_limits(final(self).limits, final(self).stats),
            final(self).wf(),
            final(self).cm == old(self).cm,
            final(self).docs == old(self).docs,
            final(self).limits == old(self).limits,
            old(self).limits.max_memo_entries is None ==> r is Ok,
            r matches Ok(cs) ==> frontier_ok(*old(self).cm, old(self).docs@[id as int]@, column, indent, cs@),
            r is Ok ==> final(self).memoized(old(self).docs@[id as int]@, column, indent),
            r is Err ==> final(self).memo@ == old(self).memo@,
            r is Ok ==> final(self).memo@.len() == old(self).memo@.len() + 1 && final(self).memo@.drop_last()
                == old(self).memo@ && final(self).memo@.last().doc_id == id,
    {
        let ghost m = *self.cm;
        let ghost d = self.docs@[id as int]@;
        let ghost input = candidates@;
        let (kept, pruned) = prune(candidates);
        self.stats.candidates_pruned = self.stats.candidates_pruned.saturating_add(
            if pruned as u128 > u64::MAX as u128 { u64::MAX } else { pruned as u64 },
        );
        if kept.len() > self.stats.peak_frontier {
            self.stats.peak_frontier = kept.len();
        }
        if let Some(limit) = self.limits.max_memo_entries {
            if self.memo.len() >= limit {
                let configured = if limit as u128 > u64::MAX as u128 { u64::MAX } else { limit as u64 };
                return Err(self.limit_error(SolveLimitKind::MemoEntries, configured));
            }
        }
        proof {
            let pos = choose|pos: Seq<int>|
                picks(kept@, input, pos, input.len() as int) && settles_prefix(kept@, pos, input, input.len() as int);
            lemma_pruned_frontier(m, d, column, indent, input, kept@, pos);
        }
        let shared = Rc::new(kept);
        let ghost old_memo = self.memo@;
        self.memo.push(MemoEntry { doc_id: id, column, indent, cands: crate::share(&shared) });
        self.stats.memo_entries = self.memo.len();
        assert forall|i: int| 0 <= i < self.memo@.len() implies (#[trigger] self.memo@[i]).doc_id
            < self.docs@.len() && frontier_ok(
            *self.cm,
            self.docs@[self.memo@[i].doc_id as int]@,
            self.memo@[i].column,
            self.memo@[i].indent,
            self.memo@[i].cands@,
        ) by {
            if i < old_memo.len() {
                assert(self.memo@[i] == old_memo[i]);
            }
        }
        assert(self.memo@[old_memo.len() as int].doc_id == id);
        assert(self.memo@.drop_last() =~= old_memo);
        Ok(shared)
    }

    /// Solves one exact subproblem: the frontier of `doc` laid out from
    /// `column` under `indent`, accumulating deterministic statistics.
    /// Structurally equal documents share memo entries.
    pub fn solve(&mut self, doc: &Rc<Doc>, column: u32, indent: u32) -> (r: Result<
        Rc<Vec<Cand>>,
        RenderError,
    >)
        requires
            old(self).wf(),
        ensures
            r matches Err(e) ==> error_sound(old(self).spec_limits(), e),
            r matches Err(RenderError::LimitExceeded { stats, .. }) ==> stats == final(self).spec_stats(),
            within_limits(old(self).spec_limits(), old(self).spec_stats()) && !(r matches Err(
                RenderError::LimitExceeded { .. },
            )) ==> within_limits(final(self).spec_limits(), final(self).spec_stats()),
            final(self).spec_limits() == old(self).spec_limits(),
            old(self).memoized(doc@, column, indent) && (old(self).spec_limits().max_solve_calls matches Some(l)
                ==> bumped(old(self).spec_stats().solve_calls) <= l) ==> r is Ok,
            old(self).unlimited() && !old(self).memoized(doc@, column, indent) && doc@ is Text && column
                + doc@->Text_0.columns > u32::MAX ==> (r matches Err(RenderError::ColumnOverflow { column: c, width: w, .. })
                && c == column && w == doc@->Text_0.columns),
            final(self).wf(),
            final(self).model() == old(self).model(),
            final(self).grows_from(&*old(self)),
            final(self).unlimited() == old(self).unlimited(),
            r matches Ok(cs) ==> frontier_ok(old(self).model(), doc@, column, indent, cs@),
            old(self).unlimited() && all_defined(old(self).model(), doc@, column, indent) ==> r is Ok,
            old(self).memoized(doc@, column, indent) ==> final(self).memo_count() == old(self).memo_count()
                && final(self).interned_count() == old(self).interned_count(),
            r is Ok ==> final(self).memoized(doc@, column, indent),
            r is Err && !old(self).memoized(doc@, column, indent) ==> !final(self).memoized(doc@, column, indent),
            final(self).memo_count() >= old(self).memo_count(),
            forall|d: DocModel, c: u32, i: u32| #[trigger] old(self).memoized(d, c, i) ==> final(self).memoized(d, c, i),
    {
        let ghost before = *self;
        let r = self.solve_node(doc, column, indent);
        proof {
            assert forall|d: DocModel, c: u32, i: u32| #[trigger] before.memoized(d, c, i) implies self.memoized(d, c, i) by {
                let j = choose|j: int|
                    0 <= j < before.memo@.len() && (#[trigger] before.memo@[j]).column == c
                        && before.memo@[j].indent == i && before.memo@[j].doc_id < before.docs@.len()
                        && before.docs@[before.memo@[j].doc_id as int]@ == d;
                assert(self.memo@[j] == before.memo@[j]);
                assert(self.docs@[before.memo@[j].doc_id as int] == before.docs@[before.memo@[j].doc_id as int]);
            }
        }
        proof {
            if r is Err && !before.memoized(doc@, column, indent) && self.memoized(doc@, column, indent) {
                let i = choose|i: int|
                    0 <= i < self.memo@.len() && (#[trigger] self.memo@[i]).column == column
                        && self.memo@[i].indent == indent && self.memo@[i].doc_id < self.docs@.len()
                        && self.docs@[self.memo@[i].doc_id as int]@ == doc@;
                if i < before.memo@.len() {
                    assert(self.memo@[i] == before.memo@[i]);
                    assert(before.memo@[i].doc_id < before.docs@.len());
                    assert(self.docs@[before.memo@[i].doc_id as int] == before.docs@[before.memo@[i].doc_id as int]);
                    assert(before.memoized(doc@, column, indent));
                }
            }
        }
        r
    }

    /// Solves one exact subproblem; the memo only gains entries for
    /// documents no larger than `doc`, and none as large when it fails.
    #[verifier::rlimit(60)]
    fn solve_node(&mut self, doc: &Rc<Doc>, column: u32, indent: u32) -> (r: Result<
        Rc<Vec<Cand>>,
        RenderError,
    >)
        requires
            old(self).wf(),
        ensures
            r matches Err(e) ==> error_sound(old(self).spec_limits(), e),
            r matches Err(RenderError::LimitExceeded { stats, .. }) ==> stats == final(self).spec_stats(),
            within_limits(old(self).spec_limits(), old(self).spec_stats()) && !(r matches Err(
                RenderError::LimitExceeded { .. },
            )) ==> within_limits(final(self).spec_limits(), final(self).spec_stats()),
            final(self).spec_limits() == old(self).spec_limits(),
            old(self).memoized(doc@, column, indent) && (old(self).spec_limits().max_solve_calls matches Some(l)
                ==> bumped(old(self).spec_stats().solve_calls) <= l) ==> r is Ok,
            old(self).unlimited() && !old(self).memoized(doc@, column, indent) && doc@ is Text && column
                + doc@->Text_0.columns > u32::MAX ==> (r matches Err(RenderError::ColumnOverflow { column: c, width: w, .. })
                && c == column && w == doc@->Text_0.columns),
            final(self).wf(),
            final(self).model() == old(self).model(),
            final(self).grows_from(&*old(self)),
            final(self).unlimited() == old(self).unlimited(),
            r matches Ok(cs) ==> frontier_ok(old(self).model(), doc@, column, indent, cs@),
            old(self).unlimited() && all_defined(old(self).model(), doc@, column, indent) ==> r is Ok,
            old(self).memoized(doc@, column, indent) ==> final(self).memo_count() == old(self).memo_count()
                && final(self).interned_count() == old(self).interned_count(),
            r is Ok ==> final(self).memoized(doc@, column, indent),
            memo_added_below(final(self).memo@, final(self).docs@, old(self).memo@, doc_size(doc@) + 1),
            r is Err ==> memo_added_below(final(self).memo@, final(self).docs@, old(self).memo@, doc_size(doc@)),
        decreases doc@, 1nat,
    {
        let ghost start = *self;
        proof {
            lemma_added_refl(self.memo@, self.docs@, doc_size(doc@));
        }
        self.record_solve_call()?;
        let ghost before = *self;
        let id = self.intern(doc);
        proof {
            lemma_added_refl(self.memo@, self.docs@, doc_size(doc@));
        }
        if let Some(found) = self.lookup(id, column, indent) {
            self.stats.memo_hits = self.stats.memo_hits.saturating_add(1);
            return Ok(found);
        }
        proof {
            if before.memoized(doc@, column, indent) {
                let i = choose|i: int|
                    0 <= i < before.memo@.len() && (#[trigger] before.memo@[i]).column == column
                        && before.memo@[i].indent == indent && before.memo@[i].doc_id < before.docs@.len()
                        && before.docs@[before.memo@[i].doc_id as int]@ == doc@;
                let j = before.memo@[i].doc_id as int;
                assert(0 <= j < before.docs@.len() && before.docs@[j]@ == doc@);
                assert(self.docs@ == before.docs@);
                if j < id {
                    assert(self.docs@[j]@ != self.docs@[id as int]@);
                } else if j > id {
                    assert(self.docs@[id as int]@ != self.docs@[j]@);
                }
                assert(self.memo@[i].doc_id == id);
                assert(false);
            }
        }
        self.stats.memo_misses = self.stats.memo_misses.saturating_add(1);
        let ghost m = *self.cm;
        let ghost interned = *self;
        proof {
            if self.unlimited() && all_defined(m, doc@, column, indent) {
                lemma_unary_defined(m, doc@, column, indent);
                lemma_expansions_nonempty(doc@);
                assert(run(m, spec_expansions(doc@)[0], column, indent) is Some);
            }
        }
        let cands: Vec<Cand> = match &**doc {
            Doc::Empty => {
                self.record_candidate()?;
                let c = Cand { cost: ConsumerCost::zero(), last: column, out: out_empty() };
                proof {
                    lemma_frontier_leaf(m, doc@, column, indent, c);
                }
                let cs = vec![c];
                assert(cs@ == seq![c]);
                cs
            },
            Doc::Text(run) => {
                self.record_candidate()?;
                let last = self.add_columns(column, run.columns())?;
                let cost = match self.cm.text(column, run.columns()) {
                    Some(cost) => cost,
                    None => {
                        return Err(self.cost_error());
                    },
                };
                let c = Cand { cost, last, out: out_text(run.duplicate()) };
                proof {
                    lemma_frontier_leaf(m, doc@, column, indent, c);
                }
                let cs = vec![c];
                assert(cs@ == seq![c]);
                cs
            },
            Doc::Line { .. } => {
                self.record_candidate()?;
                let indentation = match self.cm.text(0, indent) {
                    Some(cost) => cost,
                    None => {
                        return Err(self.cost_error());
                    },
                };
                let cost = match self.cm.newline().checked_add(indentation) {
                    Some(cost) => cost,
                    None => {
                        return Err(self.cost_error());
                    },
                };
                let c = Cand { cost, last: indent, out: out_newline(indent) };
                proof {
                    lemma_frontier_leaf(m, doc@, column, indent, c);
                }
                let cs = vec![c];
                assert(cs@ == seq![c]);
                cs
            },
            Doc::Concat(left, right) => {
                assert(doc@ == DocModel::Concat(Box::new(left@), Box::new(right@)));
                assert(spec_expansions(doc@)[0] == spec_expansions(doc@)[0]);
                let ghost pre_intern = *self;
                let _ = self.intern(left);
                proof {
                    lemma_added_keep(start.memo@, self.memo@, pre_intern.docs@, self.docs@, doc_size(doc@));
                }
                let ghost pre_concat = *self;
                let res_concat = self.solve_concat(left, right, column, indent);
                proof {
                    lemma_added_trans(start.memo@, pre_concat.memo@, pre_concat.docs@, self.memo@, self.docs@, doc_size(doc@), doc_size(doc@), doc_size(doc@));
                }
                let cs = res_concat?;
                assert(frontier_ok(m, doc@, column, indent, cs@));
                cs
            },
            Doc::Nest(amount, inner) => {
                let nested = self.add_columns(indent, *amount as u32)?;
                let child_indent = clamp(nested, self.cm.indent_cap());
                let ghost pre_intern = *self;
                let _ = self.intern(inner);
                proof {
                    lemma_added_keep(start.memo@, self.memo@, pre_intern.docs@, self.docs@, doc_size(doc@));
                }
                let ghost pre_solve = *self;
                let res_solve = self.solve_node(inner, column, child_indent);
                proof {
                    lemma_added_trans(start.memo@, pre_solve.memo@, pre_solve.docs@, self.memo@, self.docs@, doc_size(doc@), doc_size(inner@) + 1, doc_size(doc@));
                }
                let child = res_solve?;
                let cs = self.pass_all(&*child)?;
                proof {
                    lemma_frontier_nest(m, *amount, inner@, column, indent, cs@);
                }
                assert(frontier_ok(m, doc@, column, indent, cs@));
                cs
            },
            Doc::Align(inner) => {
                let ghost pre_intern = *self;
                let _ = self.intern(inner);
                proof {
                    lemma_added_keep(start.memo@, self.memo@, pre_intern.docs@, self.docs@, doc_size(doc@));
                }
                let child_indent = clamp(column, self.cm.indent_cap());
                let ghost pre_solve = *self;
                let res_solve = self.solve_node(inner, column, child_indent);
                proof {
                    lemma_added_trans(start.memo@, pre_solve.memo@, pre_solve.docs@, self.memo@, self.docs@, doc_size(doc@), doc_size(inner@) + 1, doc_size(doc@));
                }
                let child = res_solve?;
                let cs = self.pass_all(&*child)?;
                proof {
                    lemma_frontier_align(m, inner@, column, indent, cs@);
                }
                assert(frontier_ok(m, doc@, column, indent, cs@));
                cs
            },
            Doc::Choice(preferred, alternative) => {
                assert(doc@ == DocModel::Choice(Box::new(preferred@), Box::new(alternative@)));
                assert(decreases_to!(doc@ => *doc@->Choice_0));
                assert(decreases_to!(doc@ => *doc@->Choice_1));
                let ghost pre_intern = *self;
                let _ = self.intern(preferred);
                proof {
                    lemma_added_keep(start.memo@, self.memo@, pre_intern.docs@, self.docs@, doc_size(doc@));
                }
                let ghost pre_intern = *self;
                let _ = self.intern(alternative);
                proof {
                    lemma_added_keep(start.memo@, self.memo@, pre_intern.docs@, self.docs@, doc_size(doc@));
                }
                let ghost pre_solve = *self;
                let res_solve = self.solve_node(preferred, column, indent);
                proof {
                    lemma_added_trans(start.memo@, pre_solve.memo@, pre_solve.docs@, self.memo@, self.docs@, doc_size(doc@), doc_size(preferred@) + 1, doc_size(doc@));
                }
                let ps = res_solve?;
                let ghost pre_solve = *self;
                let res_solve = self.solve_node(alternative, column, indent);
                proof {
                    lemma_added_trans(start.memo@, pre_solve.memo@, pre_solve.docs@, self.memo@, self.docs@, doc_size(doc@), doc_size(alternative@) + 1, doc_size(doc@));
                }
                let qs = res_solve?;
                let mut cs = self.pass_all(&*ps)?;
                let rest = self.pass_all(&*qs)?;
                let ghost front = cs@;
                let mut j: usize = 0;
                while j < rest.len()
                    invariant
                        j <= rest@.len(),
                        cs@ == front + rest@.take(j as int),
                    decreases rest@.len() - j,
                {
                    cs.push(rest[j].duplicate());
                    assert(rest@.take(j + 1) == rest@.take(j as int).push(rest@[j as int]));
                    j = j + 1;
                }
                proof {
                    assert(rest@.take(rest@.len() as int) == rest@);
                    lemma_frontier_choice(m, preferred@, alternative@, column, indent, ps@, qs@);
                }
                assert(frontier_ok(m, doc@, column, indent, cs@));
                cs
            },
            Doc::Tag(t, inner) => {
                let ghost pre_intern = *self;
                let _ = self.intern(inner);
                proof {
                    lemma_added_keep(start.memo@, self.memo@, pre_intern.docs@, self.docs@, doc_size(doc@));
                }
                let ghost pre_solve = *self;
                let res_solve = self.solve_node(inner, column, indent);
                proof {
                    lemma_added_trans(start.memo@, pre_solve.memo@, pre_solve.docs@, self.memo@, self.docs@, doc_size(doc@), doc_size(inner@) + 1, doc_size(doc@));
                }
                let child = res_solve?;
                let cs = self.tag_all(&*child, *t)?;
                proof {
                    lemma_frontier_tag(m, *t, inner@, column, indent, child@, cs@);
                }
                assert(frontier_ok(m, doc@, column, indent, cs@));
                cs
            },
            Doc::Penalty { amount, doc: inner } => {
                let ghost pre_intern = *self;
                let _ = self.intern(inner);
                proof {
                    lemma_added_keep(start.memo@, self.memo@, pre_intern.docs@, self.docs@, doc_size(doc@));
                }
                let ghost pre_solve = *self;
                let res_solve = self.solve_node(inner, column, indent);
                proof {
                    lemma_added_trans(start.memo@, pre_solve.memo@, pre_solve.docs@, self.memo@, self.docs@, doc_size(doc@), doc_size(inner@) + 1, doc_size(doc@));
                }
                let child = res_solve?;
                proof {
                    reveal(all_valid);
                    assert forall|i: int| 0 <= i < child@.len() implies cand_valid(m, inner@, column, indent, #[trigger] child@[i]) by {}
                }
                let cs = self.penalize_all(&*child, *amount)?;
                proof {
                    lemma_frontier_penalty(m, *amount, inner@, column, indent, child@, cs@);
                }
                assert(frontier_ok(m, doc@, column, indent, cs@));
                cs
            },
        };
        assert(self.grows_from(&interned));
        assert(self.docs@[id as int] == interned.docs@[id as int]);
        assert(frontier_ok(m, doc@, column, indent, cands@));
        let ghost pre_complete = *self;
        let r = self.complete(id, column, indent, cands);
        proof {
            if r is Ok {
                let last = self.memo@.len() - 1;
                assert(self.memo@[last] == self.memo@.last());
                assert forall|k: int| 0 <= k < pre_complete.memo@.len() implies #[trigger] self.memo@[k] == pre_complete.memo@[k] by {
                    assert(self.memo@.drop_last()[k] == self.memo@[k]);
                }
                assert(memo_added_below(self.memo@, self.docs@, pre_complete.memo@, doc_size(doc@) + 1));
                lemma_added_trans(start.memo@, pre_complete.memo@, pre_complete.docs@, self.memo@, self.docs@, doc_size(doc@), doc_size(doc@) + 1, doc_size(doc@) + 1);
            }
        }
        r
    }

    /// Every candidate of `child`, each recorded.
    fn pass_all(&mut self, child: &Vec<Cand>) -> (r: Result<Vec<Cand>, RenderError>)
        ensures
            r matches Err(e) ==> error_sound(old(self).limits, e),
            r matches Err(RenderError::LimitExceeded { stats, .. }) ==> stats == final(self).stats,
            within_limits(old(self).limits, old(self).stats) && !(r matches Err(RenderError::LimitExceeded { .. }))
                ==> within_limits(final(self).limits, final(self).stats),
            final(self).memo == old(self).memo,
            final(self).docs == old(self).docs,
            final(self).cm == old(self).cm,
            final(self).limits == old(self).limits,
            final(self).stats.memo_entries == old(self).stats.memo_entries,
            final(self).stats.interned_documents == old(self).stats.interned_documents,
            old(self).limits.max_candidates is None ==> r is Ok,
            r matches Ok(cs) ==> cs@ == child@,
    {
        let mut cs: Vec<Cand> = Vec::new();
        let mut i: usize = 0;
        while i < child.len()
            invariant
                i <= child@.len(),
                cs@ == child@.take(i as int),
                self.memo == old(self).memo,
                self.docs == old(self).docs,
                self.cm == old(self).cm,
                self.limits == old(self).limits,
                within_limits(old(self).limits, old(self).stats) ==> within_limits(self.limits, self.stats),
                self.stats.memo_entries == old(self).stats.memo_entries,
                self.stats.interned_documents == old(self).stats.interned_documents,
            decreases child@.len() - i,
        {
            self.record_candidate()?;
            cs.push(child[i].duplicate());
            assert(child@.take(i + 1) == child@.take(i as int).push(child@[i as int]));
            i = i + 1;
        }
        assert(child@.take(child@.len() as int) == child@);
        Ok(cs)
    }

    /// Every candidate of `child` wrapped in tag `t`, each recorded.
    fn tag_all(&mut self, child: &Vec<Cand>, t: TagId) -> (r: Result<Vec<Cand>, RenderError>)
        ensures
            r matches Err(e) ==> error_sound(old(self).limits, e),
            r matches Err(RenderError::LimitExceeded { stats, .. }) ==> stats == final(self).stats,
            within_limits(old(self).limits, old(self).stats) && !(r matches Err(RenderError::LimitExceeded { .. }))
                ==> within_limits(final(self).limits, final(self).stats),
            final(self).memo == old(self).memo,
            final(self).docs == old(self).docs,
            final(self).cm == old(self).cm,
            final(self).limits == old(self).limits,
            final(self).stats.memo_entries == old(self).stats.memo_entries,
            final(self).stats.interned_documents == old(self).stats.interned_documents,
            old(self).limits.max_candidates is None ==> r is Ok,
            r matches Ok(cs) ==> cs@.len() == child@.len() && forall|i: int|
                0 <= i < cs@.len() ==> tagged_cand(t, #[trigger] child@[i], cs@[i]),
    {
        let mut cs: Vec<Cand> = Vec::new();
        let mut i: usize = 0;
        while i < child.len()
            invariant
                i <= child@.len(),
                cs@.len() == i,
                forall|j: int| 0 <= j < i ==> tagged_cand(t, #[trigger] child@[j], cs@[j]),
                self.memo == old(self).memo,
                self.docs == old(self).docs,
                self.cm == old(self).cm,
                self.limits == old(self).limits,
                within_limits(old(self).limits, old(self).stats) ==> within_limits(self.limits, self.stats),
                self.stats.memo_entries == old(self).stats.memo_entries,
                self.stats.interned_documents == old(self).stats.interned_documents,
            decreases child@.len() - i,
        {
            self.record_candidate()?;
            let c = &child[i];
            cs.push(Cand { cost: c.cost, last: c.last, out: out_tagged(t, crate::share(&c.out)) });
            i = i + 1;
        }
        Ok(cs)
    }

    /// Every candidate of `child` charged a penalty of `amount`, each
    /// recorded.
    fn penalize_all(&mut self, child: &Vec<Cand>, amount: u32) -> (r: Result<Vec<Cand>, RenderError>)
        ensures
            r matches Err(e) ==> error_sound(old(self).limits, e),
            r matches Err(RenderError::LimitExceeded { stats, .. }) ==> stats == final(self).stats,
            within_limits(old(self).limits, old(self).stats) && !(r matches Err(RenderError::LimitExceeded { .. }))
                ==> within_limits(final(self).limits, final(self).stats),
            final(self).memo == old(self).memo,
            final(self).docs == old(self).docs,
            final(self).cm == old(self).cm,
            final(self).limits == old(self).limits,
            final(self).stats.memo_entries == old(self).stats.memo_entries,
            final(self).stats.interned_documents == old(self).stats.interned_documents,
            old(self).limits.max_candidates is None && (forall|i: int|
                0 <= i < child@.len() ==> (#[trigger] cost_add(
                    old(self).cm.spec_penalty(amount),
                    child@[i].cost,
                )) is Some) ==> r is Ok,
            r matches Ok(cs) ==> cs@.len() == child@.len() && forall|i: int|
                0 <= i < cs@.len() ==> penalized_cand(*old(self).cm, amount, #[trigger] child@[i], cs@[i]),
    {
        let ghost defined = old(self).limits.max_candidates is None && (forall|i: int|
            0 <= i < child@.len() ==> (#[trigger] cost_add(old(self).cm.spec_penalty(amount), child@[i].cost))
                is Some);
        let mut cs: Vec<Cand> = Vec::new();
        let mut i: usize = 0;
        while i < child.len()
            invariant
                defined ==> self.limits.max_candidates is None && (forall|i: int|
                    0 <= i < child@.len() ==> (#[trigger] cost_add(self.cm.spec_penalty(amount), child@[i].cost))
                        is Some),
                i <= child@.len(),
                cs@.len() == i,
                forall|j: int| 0 <= j < i ==> penalized_cand(*self.cm, amount, #[trigger] child@[j], cs@[j]),
                self.memo == old(self).memo,
                self.docs == old(self).docs,
                self.cm == old(self).cm,
                self.limits == old(self).limits,
                within_limits(old(self).limits, old(self).stats) ==> within_limits(self.limits, self.stats),
                self.stats.memo_entries == old(self).stats.memo_entries,
                self.stats.interned_documents == old(self).stats.interned_documents,
            decreases child@.len() - i,
        {
            self.record_candidate()?;
            let c = &child[i];
            let cost = match self.cm.penalty(amount).checked_add(c.cost) {
                Some(cost) => cost,
                None => {
                    return Err(self.cost_error());
                },
            };
            cs.push(Cand { cost, last: c.last, out: out_penalty(amount, crate::share(&c.out)) });
            i = i + 1;
        }
        Ok(cs)
    }

    /// The combined candidates of a concatenation: the left frontier, then
    /// for each left candidate the right frontier from its end.
    fn solve_concat(&mut self, left: &Rc<Doc>, right: &Rc<Doc>, column: u32, indent: u32) -> (r: Result<
        Vec<Cand>,
        RenderError,
    >)
        requires
            old(self).wf(),
        ensures
            r matches Err(e) ==> error_sound(old(self).limits, e),
            r matches Err(RenderError::LimitExceeded { stats, .. }) ==> stats == final(self).stats,
            within_limits(old(self).limits, old(self).stats) && !(r matches Err(RenderError::LimitExceeded { .. }))
                ==> within_limits(final(self).limits, final(self).stats),
            final(self).limits == old(self).limits,
            memo_added_below(
                final(self).memo@,
                final(self).docs@,
                old(self).memo@,
                doc_size(DocModel::Concat(Box::new(left@), Box::new(right@))),
            ),
            final(self).wf(),
            final(self).model() == old(self).model(),
            final(self).grows_from(&*old(self)),
            final(self).unlimited() == old(self).unlimited(),
            r matches Ok(cs) ==> frontier_ok(
                old(self).model(),
                DocModel::Concat(Box::new(left@), Box::new(right@)),
                column,
                indent,
                cs@,
            ),
            old(self).unlimited() && all_defined(
                old(self).model(),
                DocModel::Concat(Box::new(left@), Box::new(right@)),
                column,
                indent,
            ) ==> r is Ok,
        decreases DocModel::Concat(Box::new(left@), Box::new(right@)), 0nat,
    {
        let ghost m = *self.cm;
        let ghost d = DocModel::Concat(Box::new(left@), Box::new(right@));
        assert(decreases_to!(d => *d->Concat_0));
        assert(decreases_to!(d => *d->Concat_1));
        let ghost defined = old(self).unlimited() && all_defined(m, d, column, indent);
        proof {
            if defined {
                lemma_concat_defined(m, left@, right@, column, indent);
            }
        }
        let ghost initial = *self;
        let ghost entry = *self;
        proof {
            lemma_added_refl(self.memo@, self.docs@, doc_size(d));
        }
        let ghost pre_solve = *self;
        let res_solve = self.solve_node(left, column, indent);
        proof {
            lemma_added_trans(entry.memo@, pre_solve.memo@, pre_solve.docs@, self.memo@, self.docs@, doc_size(d), doc_size(left@) + 1, doc_size(d));
        }
        let shared_left = res_solve?;
        let ls: &Vec<Cand> = &*shared_left;
        assert(defined ==> self.unlimited());
        let ghost lids = choose|ids: Seq<int>| ranked(m, left@, column, indent, ls@, ids);
        let ghost nb = spec_expansions(right@).len() as int;
        let ghost mut cids: Seq<int> = Seq::empty();
        let ghost mut hi: int = 0;
        let mut combined: Vec<Cand> = Vec::new();
        let mut t: usize = 0;
        proof {
            reveal(all_valid);
            lemma_ranked_at(m, left@, column, indent, ls@, lids, 0);
            assert(0 <= lids[0] * nb) by (nonlinear_arith)
                requires
                    0 <= lids[0],
                    0 <= nb,
            ;
        }
        while t < ls.len()
            invariant
                self.wf(),
                *self.cm == m,
                m == old(self).model(),
                self.grows_from(&initial),
                initial.grows_from(&*old(self)),
                decreases_to!(d => *d->Concat_1),
                self.unlimited() == old(self).unlimited(),
                self.limits == old(self).limits,
                within_limits(old(self).limits, old(self).stats) ==> within_limits(self.limits, self.stats),
                memo_added_below(self.memo@, self.docs@, entry.memo@, doc_size(d)),
                entry.memo == old(self).memo,
                defined == (old(self).unlimited() && all_defined(m, d, column, indent)),
                defined ==> self.unlimited() && (forall|l: Cand|
                    #[trigger] cand_valid(m, left@, column, indent, l) ==> all_defined(m, right@, l.last, indent))
                    && (forall|l: Cand, r: Cand|
                    cand_valid(m, left@, column, indent, l) && #[trigger] cand_valid(m, right@, l.last, indent, r)
                        ==> (#[trigger] cost_add(l.cost, r.cost)) is Some),
                d == DocModel::Concat(Box::new(left@), Box::new(right@)),
                frontier_ok(m, left@, column, indent, ls@),
                ranked(m, left@, column, indent, ls@, lids),
                nb == spec_expansions(right@).len(),
                t <= ls@.len(),
                t >= 1 ==> combined@.len() >= 1,
                cids.len() == combined@.len(),
                forall|i: int| 0 <= i < combined@.len() ==> cand_at(m, d, column, indent, #[trigger] combined@[i], cids[i]),
                forall|a: int, b: int| 0 <= a < b < cids.len() ==> #[trigger] cids[a] < #[trigger] cids[b],
                forall|i: int| 0 <= i < cids.len() ==> #[trigger] cids[i] < hi,
                t < ls@.len() ==> hi <= lids[t as int] * nb,
                forall|s: int| 0 <= s < t ==> joined_settles(m, right@, indent, #[trigger] ls@[s], lids[s], combined@, cids),
            decreases ls@.len() - t,
        {
            let l = &ls[t];
            proof {
                reveal(all_valid);
                assert(cand_valid(m, left@, column, indent, ls@[t as int]));
                lemma_ranked_at(m, left@, column, indent, ls@, lids, t as int);
            }
            let ghost pre_solve = *self;
            let res_solve = self.solve_node(right, l.last, indent);
            proof {
                lemma_added_trans(entry.memo@, pre_solve.memo@, pre_solve.docs@, self.memo@, self.docs@, doc_size(d), doc_size(right@) + 1, doc_size(d));
            }
            let shared_right = res_solve?;
            let rs: &Vec<Cand> = &*shared_right;
            let ghost start = combined@;
            let ghost start_ids = cids;
            let ghost rids = choose|ids: Seq<int>| ranked(m, right@, l.last, indent, rs@, ids);
            let ghost base = lids[t as int] * nb;
            let mut u: usize = 0;
            while u < rs.len()
                invariant
                    self.wf(),
                    *self.cm == m,
                    m == old(self).model(),
                    self.grows_from(&initial),
                    initial.grows_from(&*old(self)),
                    self.unlimited() == old(self).unlimited(),
                    self.limits == old(self).limits,
                    within_limits(old(self).limits, old(self).stats) ==> within_limits(self.limits, self.stats),
                    memo_added_below(self.memo@, self.docs@, entry.memo@, doc_size(d)),
                    entry.memo == old(self).memo,
                memo_added_below(self.memo@, self.docs@, entry.memo@, doc_size(d)),
                entry.memo == old(self).memo,
                self.limits == old(self).limits,
                within_limits(old(self).limits, old(self).stats) ==> within_limits(self.limits, self.stats),
                memo_added_below(self.memo@, self.docs@, entry.memo@, doc_size(d)),
                entry.memo == old(self).memo,
                    defined == (old(self).unlimited() && all_defined(m, d, column, indent)),
                    defined ==> self.unlimited() && (forall|r: Cand|
                        #[trigger] cand_valid(m, right@, l.last, indent, r) ==> (cost_add(l.cost, r.cost)) is Some),
                    d == DocModel::Concat(Box::new(left@), Box::new(right@)),
                    frontier_ok(m, left@, column, indent, ls@),
                    frontier_ok(m, right@, l.last, indent, rs@),
                    ranked(m, left@, column, indent, ls@, lids),
                    ranked(m, right@, l.last, indent, rs@, rids),
                    nb == spec_expansions(right@).len(),
                    base == lids[t as int] * nb,
                    t < ls@.len(),
                    *l == ls@[t as int],
                    cand_at(m, left@, column, indent, *l, lids[t as int]),
                    u <= rs@.len(),
                    combined@.len() == start.len() + u,
                    cids.len() == combined@.len(),
                    forall|i: int| 0 <= i < start.len() ==> #[trigger] combined@[i] == start[i],
                    forall|i: int| 0 <= i < start.len() ==> #[trigger] cids[i] == start_ids[i],
                    forall|i: int| 0 <= i < start.len() ==> #[trigger] start_ids[i] < hi,
                    hi <= base,
                    forall|i: int| 0 <= i < combined@.len() ==> cand_at(m, d, column, indent, #[trigger] combined@[i], cids[i]),
                    forall|a: int, b: int| 0 <= a < b < cids.len() ==> #[trigger] cids[a] < #[trigger] cids[b],
                    forall|v: int| 0 <= v < u ==> joined_cand(*l, #[trigger] rs@[v], combined@[start.len() + v]),
                    forall|v: int| 0 <= v < u ==> cids[start.len() + v] == base + #[trigger] rids[v],
                decreases rs@.len() - u,
            {
                self.record_candidate()?;
                let r = &rs[u];
                proof {
                    reveal(all_valid);
                    assert(cand_valid(m, right@, l.last, indent, rs@[u as int]));
                    lemma_ranked_at(m, right@, l.last, indent, rs@, rids, u as int);
                }
                let cost = match l.cost.checked_add(r.cost) {
                    Some(cost) => cost,
                    None => {
                        return Err(self.cost_error());
                    },
                };
                let c = Cand { cost, last: r.last, out: out_cat(crate::share(&l.out), crate::share(&r.out)) };
                proof {
                    lemma_concat_at(m, left@, right@, column, indent, *l, lids[t as int], rs@[u as int], rids[u as int], c);
                }
                let ghost before = combined@;
                let ghost before_ids = cids;
                combined.push(c);
                proof {
                    cids = cids.push(base + rids[u as int]);
                    assert forall|i: int| 0 <= i < combined@.len() implies cand_at(
                        m,
                        d,
                        column,
                        indent,
                        #[trigger] combined@[i],
                        cids[i],
                    ) by {
                        if i < before.len() {
                            assert(combined@[i] == before[i] && cids[i] == before_ids[i]);
                        }
                    }
                    assert forall|a: int, b: int| 0 <= a < b < cids.len() implies #[trigger] cids[a] < #[trigger] cids[b] by {
                        if b == cids.len() - 1 {
                            if a < start.len() {
                                assert(cids[a] == start_ids[a]);
                                assert(start_ids[a] < hi);
                            } else {
                                let v = a - start.len();
                                assert(cids[a] == before_ids[a]);
                                assert(before_ids[start.len() + v] == base + rids[v]);
                                lemma_ranked_order(m, right@, l.last, indent, rs@, rids, v, u as int);
                            }
                        } else {
                            assert(cids[a] == before_ids[a] && cids[b] == before_ids[b]);
                        }
                    }
                    assert forall|v: int| 0 <= v < u + 1 implies joined_cand(
                        *l,
                        #[trigger] rs@[v],
                        combined@[start.len() + v],
                    ) by {
                        if v < u {
                            assert(combined@[start.len() + v] == before[start.len() + v]);
                        }
                    }
                    assert forall|v: int| 0 <= v < u + 1 implies cids[start.len() + v] == base + #[trigger] rids[v] by {
                        if v < u {
                            assert(cids[start.len() + v] == before_ids[start.len() + v]);
                        }
                    }
                }
                u = u + 1;
            }
            proof {
                lemma_joined_settles_done(m, right@, indent, *l, lids[t as int], rs@, rids, combined@, cids, start.len() as int);
                assert forall|s: int| 0 <= s < t implies joined_settles(
                    m,
                    right@,
                    indent,
                    #[trigger] ls@[s],
                    lids[s],
                    combined@,
                    cids,
                ) by {
                    lemma_joined_settles_prefix(m, right@, indent, ls@[s], lids[s], start, start_ids, combined@, cids);
                }
                let next_hi = (lids[t as int] + 1) * nb;
                assert(base + nb == next_hi) by (nonlinear_arith)
                    requires
                        base == lids[t as int] * nb,
                        next_hi == (lids[t as int] + 1) * nb,
                ;
                assert forall|i: int| 0 <= i < cids.len() implies #[trigger] cids[i] < next_hi by {
                    if i < start.len() {
                        assert(cids[i] == start_ids[i]);
                        assert(start_ids[i] < hi);
                        assert(0 <= nb);
                    } else {
                        let v = i - start.len();
                        lemma_ranked_at(m, right@, l.last, indent, rs@, rids, v);
                        assert(cids[start.len() + v] == base + rids[v]);
                        assert(rids[v] < nb);
                    }
                }
                if t + 1 < ls.len() {
                    lemma_ranked_order(m, left@, column, indent, ls@, lids, t as int, t + 1);
                    assert(next_hi <= lids[t + 1] * nb) by (nonlinear_arith)
                        requires
                            next_hi == (lids[t as int] + 1) * nb,
                            lids[t as int] < lids[t + 1],
                            0 <= nb,
                    ;
                }
                hi = next_hi;
            }
            t = t + 1;
        }
        proof {
            lemma_concat_settles(m, left@, right@, column, indent, ls@, lids, combined@, cids);
            lemma_ranked_intro(m, d, column, indent, combined@, cids);
            lemma_ranked_frontier(m, d, column, indent, combined@, cids);
        }
        Ok(combined)
    }
}

/// The three parts of [`ranked`] make it.
proof fn lemma_ranked_intro<M: CostModel>(
    m: M,
    d: DocModel,
    column: u32,
    indent: u32,
    cs: Seq<Cand>,
    ids: Seq<int>,
)
    requires
        ids.len() == cs.len(),
        forall|t: int| 0 <= t < cs.len() ==> cand_at(m, d, column, indent, #[trigger] cs[t], ids[t]),
        forall|s: int, t: int| 0 <= s < t < cs.len() ==> #[trigger] ids[s] < #[trigger] ids[t],
        forall|k: int|
            0 <= k < spec_expansions(d).len() && (#[trigger] run(m, spec_expansions(d)[k], column, indent))
                is Some ==> exists|t: int|
                0 <= t < cs.len() && settles(
                    #[trigger] cs[t],
                    ids[t],
                    run(m, spec_expansions(d)[k], column, indent).unwrap().1,
                    run(m, spec_expansions(d)[k], column, indent).unwrap().2,
                    k,
                ),
    ensures
        ranked(m, d, column, indent, cs, ids),
{
    reveal(ranked);
}

/// The first strictly cheapest candidate of a non-empty list.
fn first_cheapest(cs: &Vec<Cand>) -> (r: usize)
    requires
        cs@.len() >= 1,
    ensures
        r < cs@.len(),
        forall|i: int| 0 <= i < cs@.len() ==> cost_le(cs@[r as int].cost, #[trigger] cs@[i].cost),
        forall|i: int| 0 <= i < r ==> cost_lt(cs@[r as int].cost, #[trigger] cs@[i].cost),
{
    let mut best: usize = 0;
    let mut i: usize = 1;
    while i < cs.len()
        invariant
            1 <= i <= cs@.len(),
            best < i,
            forall|j: int| 0 <= j < i ==> cost_le(cs@[best as int].cost, #[trigger] cs@[j].cost),
            forall|j: int| 0 <= j < best ==> cost_lt(cs@[best as int].cost, #[trigger] cs@[j].cost),
        decreases cs@.len() - i,
    {
        if cs[i].cost.is_cheaper_than(&cs[best].cost) {
            proof {
                assert forall|j: int| 0 <= j < i + 1 implies cost_le(cs@[i as int].cost, #[trigger] cs@[j].cost) by {
                    lemma_cost_order(cs@[i as int].cost, cs@[best as int].cost, cs@[j].cost);
                }
                assert forall|j: int| 0 <= j < i implies cost_lt(cs@[i as int].cost, #[trigger] cs@[j].cost) by {
                    lemma_cost_order(cs@[i as int].cost, cs@[best as int].cost, cs@[j].cost);
                }
            }
            best = i;
        } else {
            proof {
                lemma_cost_order(cs@[best as int].cost, cs@[i as int].cost, cs@[i as int].cost);
            }
        }
        i = i + 1;
    }
    best
}

/// `c` is the layout from the origin of resolution `k` of `doc`, the first
/// cheapest one: no layout of a resolution costs less, and the layout of
/// every earlier resolution costs more.
pub open spec fn first_cheapest_at<M: CostModel>(m: M, doc: DocModel, c: Cand, k: int) -> bool {
    &&& cand_at(m, doc, 0, 0, c, k)
    &&& forall|j: int|
        0 <= j < spec_expansions(doc).len() && (#[trigger] run(m, spec_expansions(doc)[j], 0, 0)) is Some
            ==> cost_le(c.cost, run(m, spec_expansions(doc)[j], 0, 0).unwrap().2)
    &&& forall|j: int|
        0 <= j < k && (#[trigger] run(m, spec_expansions(doc)[j], 0, 0)) is Some ==> cost_lt(
            c.cost,
            run(m, spec_expansions(doc)[j], 0, 0).unwrap().2,
        )
}

/// `c` is the layout from the origin of the first resolution of `doc` whose
/// layout is cheapest.
pub open spec fn is_cheapest_layout<M: CostModel>(m: M, doc: DocModel, c: Cand) -> bool {
    exists|k: int| first_cheapest_at(m, doc, c, k)
}

/// The first cheapest candidate of a root frontier is the layout of the
/// first cheapest resolution.
proof fn lemma_frontier_cheapest<M: CostModel>(m: M, doc: DocModel, cs: Seq<Cand>, i: int)
    requires
        frontier_ok(m, doc, 0, 0, cs),
        0 <= i < cs.len(),
        forall|j: int| 0 <= j < cs.len() ==> cost_le(cs[i].cost, #[trigger] cs[j].cost),
        forall|j: int| 0 <= j < i ==> cost_lt(cs[i].cost, #[trigger] cs[j].cost),
    ensures
        is_cheapest_layout(m, doc, cs[i]),
{
    let ids = choose|ids: Seq<int>| ranked(m, doc, 0, 0, cs, ids);
    lemma_ranked_at(m, doc, 0, 0, cs, ids, i);
    let k = ids[i];
    let e = spec_expansions(doc);
    assert forall|j: int| 0 <= j < e.len() && (#[trigger] run(m, e[j], 0, 0)) is Some implies cost_le(
        cs[i].cost,
        run(m, e[j], 0, 0).unwrap().2,
    ) by {
        let (o, l, c) = run(m, e[j], 0, 0).unwrap();
        lemma_ranked_settles(m, doc, 0, 0, cs, ids, j);
        let t = choose|t: int| 0 <= t < cs.len() && settles(#[trigger] cs[t], ids[t], l, c, j);
        lemma_cost_order(cs[i].cost, cs[t].cost, c);
    }
    assert forall|j: int| 0 <= j < k && (#[trigger] run(m, e[j], 0, 0)) is Some implies cost_lt(
        cs[i].cost,
        run(m, e[j], 0, 0).unwrap().2,
    ) by {
        let (o, l, c) = run(m, e[j], 0, 0).unwrap();
        lemma_ranked_settles(m, doc, 0, 0, cs, ids, j);
        let t = choose|t: int| 0 <= t < cs.len() && settles(#[trigger] cs[t], ids[t], l, c, j);
        lemma_cost_order(cs[i].cost, cs[t].cost, c);
        if !cost_lt(cs[t].cost, c) {
            if t >= i {
                if t > i {
                    lemma_ranked_order(m, doc, 0, 0, cs, ids, i, t);
                }
                assert(false);
            }
            assert(cost_lt(cs[i].cost, cs[t].cost));
        }
    }
    assert(first_cheapest_at(m, doc, cs[i], k));
}

/// Exact minimum-cost layout with deterministic resource limits: the first
/// cheapest candidate of the root frontier.
pub fn best_with_limits<M: LawfulCostModel>(cm: &M, doc: &Rc<Doc>, limits: SolveLimits) -> (r: Result<
    Solved,
    RenderError,
>)
    ensures
        r matches Ok(s) ==> is_cheapest_layout(*cm, doc@, s.candidate),
        limits.max_solve_calls is None && limits.max_candidates is None && limits.max_memo_entries is None
            && all_defined(*cm, doc@, 0, 0) ==> r is Ok,
{
    let mut engine = Engine::with_limits(cm, limits);
    let shared = engine.solve(doc, 0, 0)?;
    let frontier: &Vec<Cand> = &*shared;
    let i = first_cheapest(frontier);
    let candidate = frontier[i].duplicate();
    proof {
        lemma_frontier_cheapest(*cm, doc@, frontier@, i as int);
    }
    Ok(Solved { candidate, stats: engine.stats() })
}

/// Exact minimum-cost layout with unlimited deterministic work.
pub fn best<M: LawfulCostModel>(cm: &M, doc: &Rc<Doc>) -> (r: Result<Cand, RenderError>)
    ensures
        r matches Ok(c) ==> is_cheapest_layout(*cm, doc@, c),
        all_defined(*cm, doc@, 0, 0) ==> r is Ok,
{
    match best_with_limits(cm, doc, SolveLimits::default()) {
        Ok(solved) => Ok(solved.candidate),
        Err(e) => Err(e),
    }
}

/// Every resolution has a defined oracle cost exactly when every resolution
/// lays out from the origin.
pub proof fn lemma_layouts_defined_iff<M: CostModel>(m: M, doc: DocModel)
    ensures
        all_layouts_defined(m, doc) <==> all_defined(m, doc, 0, 0),
{
    let e = spec_expansions(doc);
    assert forall|k: int| #![trigger e[k]] 0 <= k < e.len() implies (run(m, e[k], 0, 0) is Some) == (
    layout_cost(m, e[k]) is Some) by {
        lemma_run_is_layout_cost(m, e[k]);
    }
}

/// The cost the exact engine reports for its cheapest layout is the cost
/// that the model charges the layout's output, recomputed from it.
pub proof fn lemma_cheapest_cost_is_output_cost<M: CostModel>(m: M, doc: DocModel, c: Cand)
    requires
        is_cheapest_layout(m, doc, c),
    ensures
        out_cost(m, c.out@) == Some(c.cost),
{
    let k = choose|k: int| first_cheapest_at(m, doc, c, k);
    lemma_run_is_layout_cost(m, spec_expansions(doc)[k]);
}

/// The exact engine's layout costs no more than the greedy engine's layout
/// of the same document under the same model.
pub proof fn lemma_cheapest_beats_greedy<M: CostModel>(m: M, doc: DocModel, c: Cand, k: int, g: GreedyResult)
    requires
        is_cheapest_layout(m, doc, c),
        greedy_renders(m, doc, k, g),
    ensures
        cost_le(c.cost, g.cost),
{
    let j = choose|j: int| first_cheapest_at(m, doc, c, j);
    let e = spec_expansions(doc);
    lemma_run_is_layout_cost(m, e[k]);
    assert(run(m, e[k], 0, 0) is Some);
}

/// The exact engine's cheapest layout is the layout of the exhaustive
/// oracle's first minimum-cost resolution: the same output, last column
/// and cost.
pub proof fn lemma_cheapest_matches_oracle<M: CostModel>(m: M, doc: DocModel, c: Cand, k: int)
    requires
        is_cheapest_layout(m, doc, c),
        is_first_minimum(m, doc, k),
        all_layouts_defined(m, doc),
    ensures
        run(m, spec_expansions(doc)[k], 0, 0) == Some((c.out@, c.last, c.cost)),
        spec_resolve(spec_expansions(doc)[k], 0, 0, m.spec_indent_cap()) == Some((c.out@, c.last)),
        layout_cost(m, spec_expansions(doc)[k]) == Some(c.cost),
{
    let e = spec_expansions(doc);
    let j = choose|j: int| first_cheapest_at(m, doc, c, j);
    lemma_run_is_layout_cost(m, e[j]);
    lemma_run_is_layout_cost(m, e[k]);
    assert(layout_cost(m, e[k]) is Some);
    assert(run(m, e[k], 0, 0) is Some);
    let kk = run(m, e[k], 0, 0).unwrap().2;
    assert(cost_le(c.cost, kk));
    assert(cost_le(layout_cost(m, e[k]).unwrap(), layout_cost(m, e[j]).unwrap()));
    lemma_cost_order(c.cost, kk, c.cost);
    if j < k {
        assert(cost_lt(layout_cost(m, e[k]).unwrap(), layout_cost(m, e[j]).unwrap()));
        assert(false);
    } else if k < j {
        assert(cost_lt(c.cost, kk));
        assert(false);
    }
    lemma_run_resolves(m, e[k], 0, 0);
}

} // verus!
