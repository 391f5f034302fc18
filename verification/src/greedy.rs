//! Greedy Wadler/Leijen baseline: at each `Choice`, take the preferred
//! branch when it fits, deciding by scanning the laid-out stream — the
//! candidate branch followed by the pending continuation — up to the next
//! break opportunity. This is the classical correct-but-not-optimal printer
//! the frontier engine is measured against.
use crate::brute::{
    concat_pairs, layout_cost, lemma_expansions_nonempty, spec_expansions, spec_resolve,
};
use crate::cost::{clamp, clamp_indent, ConsumerCost, CostModel};
use crate::doc::{Doc, DocModel};
use crate::frontier::lemma_concat_pairs_member;
use crate::research::{
    cost_of_out, materialize_text, out_bytes, out_cat, out_empty, out_newline, out_penalty,
    out_spans, out_tagged, out_text, out_text_of, spans_match, split_into_lines, split_lines,
    spec_out_cat, AnnotationSpan, Out, OutModel,
};
use crate::summary::{
    build_source, compose, empty_summary, first_stop, fits, sat64, lemma_compose_summarizes, lemma_stream_push,
    lemma_summary_decides, stream_stop, summarizes, summarizes_doc, FitSummary, SumTree,
};
use std::rc::Rc;
use vstd::prelude::*;

verus! {

/// The number of nodes of a document.
pub open spec fn doc_size(d: DocModel) -> nat
    decreases d,
{
    match d {
        DocModel::Concat(a, b) => 1 + doc_size(*a) + doc_size(*b),
        DocModel::Choice(a, b) => 1 + doc_size(*a) + doc_size(*b),
        DocModel::Nest(_, x) => 1 + doc_size(*x),
        DocModel::Align(x) => 1 + doc_size(*x),
        DocModel::Tag(_, x) => 1 + doc_size(*x),
        DocModel::Penalty(_, x) => 1 + doc_size(*x),
        _ => 1,
    }
}

/// A pending piece of layout as a model: its indentation and document.
pub type FrameModel = (u32, DocModel);

/// The total number of nodes of a stack of frame models.
pub open spec fn models_size(s: Seq<FrameModel>) -> nat
    decreases s.len(),
{
    if s.len() == 0 {
        0
    } else {
        models_size(s.drop_last()) + doc_size(s.last().1)
    }
}

/// Whether the stream made of `frames`, its last frame laid out first,
/// reaches a break opportunity (any `Line`) or its end from column `col`
/// without passing `width` or leaving `u32`. A `Choice` met on the way
/// counts as its preferred branch; indentation saturates.
pub open spec fn spec_fits(width: u32, col: u32, frames: Seq<FrameModel>) -> bool
    decreases models_size(frames),
{
    if frames.len() == 0 {
        true
    } else {
        let (indent, d) = frames.last();
        let rest = frames.drop_last();
        match d {
            DocModel::Empty => spec_fits(width, col, rest),
            DocModel::Text(t) => if col + t.columns > u32::MAX || col + t.columns > width {
                false
            } else {
                spec_fits(width, (col + t.columns) as u32, rest)
            },
            DocModel::Line(_) => true,
            DocModel::Concat(a, b) => {
                let s1 = rest.push((indent, *b));
                let s2 = s1.push((indent, *a));
                proof {
                    assert(s2.drop_last() =~= s1);
                    assert(s1.drop_last() =~= rest);
                    assert(models_size(s2) == models_size(s1) + doc_size(*a));
                    assert(models_size(s1) == models_size(rest) + doc_size(*b));
                    assert(models_size(frames) == models_size(rest) + doc_size(d));
                }
                spec_fits(width, col, s2)
            },
            DocModel::Nest(n, x) => {
                let s1 = rest.push((if indent + n > u32::MAX { u32::MAX } else { (indent + n) as u32 }, *x));
                proof {
                    assert(s1.drop_last() =~= rest);
                }
                spec_fits(width, col, s1)
            },
            DocModel::Align(x) => {
                let s1 = rest.push((col, *x));
                proof {
                    assert(s1.drop_last() =~= rest);
                }
                spec_fits(width, col, s1)
            },
            DocModel::Tag(_, x) => {
                let s1 = rest.push((indent, *x));
                proof {
                    assert(s1.drop_last() =~= rest);
                }
                spec_fits(width, col, s1)
            },
            DocModel::Penalty(_, x) => {
                let s1 = rest.push((indent, *x));
                proof {
                    assert(s1.drop_last() =~= rest);
                }
                spec_fits(width, col, s1)
            },
            DocModel::Choice(p, _) => {
                let s1 = rest.push((indent, *p));
                proof {
                    assert(s1.drop_last() =~= rest);
                }
                spec_fits(width, col, s1)
            },
        }
    }
}

/// The resolution greedy layout picks for `d` laid out from `column` under
/// `indent`, with `cont` pending after it, and its last column: each choice
/// takes its preferred branch when the stream of that branch and `cont`
/// fits `width`, its alternative otherwise. `None` when a column or
/// indentation of the picked resolution leaves `u32`.
pub open spec fn greedy_pick(d: DocModel, indent: u32, column: u32, width: u32, cont: Seq<FrameModel>, cap: u32) -> Option<
    (DocModel, u32),
>
    decreases d,
{
    match d {
        DocModel::Empty => Some((d, column)),
        DocModel::Text(t) => if column + t.columns > u32::MAX {
            None
        } else {
            Some((d, (column + t.columns) as u32))
        },
        DocModel::Line(_) => Some((d, indent)),
        DocModel::Concat(a, b) => match greedy_pick(*a, indent, column, width, cont.push((indent, *b)), cap) {
            Some((ra, mid)) => match greedy_pick(*b, indent, mid, width, cont, cap) {
                Some((rb, end)) => Some((DocModel::Concat(Box::new(ra), Box::new(rb)), end)),
                None => None,
            },
            None => None,
        },
        DocModel::Nest(n, x) => if indent + n > u32::MAX {
            None
        } else {
            match greedy_pick(*x, clamp_indent((indent + n) as u32, cap), column, width, cont, cap) {
                Some((r, end)) => Some((DocModel::Nest(n, Box::new(r)), end)),
                None => None,
            }
        },
        DocModel::Align(x) => match greedy_pick(*x, clamp_indent(column, cap), column, width, cont, cap) {
            Some((r, end)) => Some((DocModel::Align(Box::new(r)), end)),
            None => None,
        },
        DocModel::Tag(t, x) => match greedy_pick(*x, indent, column, width, cont, cap) {
            Some((r, end)) => Some((DocModel::Tag(t, Box::new(r)), end)),
            None => None,
        },
        DocModel::Penalty(amount, x) => match greedy_pick(*x, indent, column, width, cont, cap) {
            Some((r, end)) => Some((DocModel::Penalty(amount, Box::new(r)), end)),
            None => None,
        },
        DocModel::Choice(p, q) => if spec_fits(width, column, cont.push((indent, *p))) {
            greedy_pick(*p, indent, column, width, cont, cap)
        } else {
            greedy_pick(*q, indent, column, width, cont, cap)
        },
    }
}

/// The fit decisions greedy layout makes on `d` laid out from `column`
/// under `indent` with `cont` pending: one per choice it meets, along the
/// branches it takes, until a column or indentation leaves `u32`.
pub open spec fn greedy_checks(d: DocModel, indent: u32, column: u32, width: u32, cont: Seq<FrameModel>, cap: u32) -> nat
    decreases d,
{
    match d {
        DocModel::Concat(a, b) => match greedy_pick(*a, indent, column, width, cont.push((indent, *b)), cap) {
            Some((_, mid)) => greedy_checks(*a, indent, column, width, cont.push((indent, *b)), cap) + greedy_checks(
                *b,
                indent,
                mid,
                width,
                cont,
                cap,
            ),
            None => greedy_checks(*a, indent, column, width, cont.push((indent, *b)), cap),
        },
        DocModel::Nest(n, x) => if indent + n > u32::MAX {
            0
        } else {
            greedy_checks(*x, clamp_indent((indent + n) as u32, cap), column, width, cont, cap)
        },
        DocModel::Align(x) => greedy_checks(*x, clamp_indent(column, cap), column, width, cont, cap),
        DocModel::Tag(_, x) => greedy_checks(*x, indent, column, width, cont, cap),
        DocModel::Penalty(_, x) => greedy_checks(*x, indent, column, width, cont, cap),
        DocModel::Choice(p, q) => 1 + if spec_fits(width, column, cont.push((indent, *p))) {
            greedy_checks(*p, indent, column, width, cont, cap)
        } else {
            greedy_checks(*q, indent, column, width, cont, cap)
        },
        _ => 0,
    }
}

/// Greedy layout within `width` picks resolution `k` of `doc`.
pub open spec fn greedy_picks(doc: DocModel, width: u32, cap: u32, k: int) -> bool {
    greedy_layout(doc, width, cap) matches Some((e, _)) && e == spec_expansions(doc)[k]
}

/// The resolution greedy layout within `width`, with indentation clamped to
/// `cap`, picks for `doc` from the origin.
pub open spec fn greedy_layout(doc: DocModel, width: u32, cap: u32) -> Option<(DocModel, u32)> {
    greedy_pick(doc, 0, 0, width, seq![], cap)
}

/// Greedily lays out `doc` from `column` under `indent`, with `cont` the
/// pending frames laid out after it. `tree` holds the summaries of `doc`'s
/// nodes and `cont_sum` that of the pending stream, so each choice is
/// decided in constant time. The ghost index names the resolution that was
/// laid out: on success its rendering is the returned output and last
/// column; on failure a column or indentation of it leaves `u32`.
fn lay(
    doc: &Rc<Doc>,
    tree: &Rc<SumTree>,
    indent: u32,
    column: u32,
    width: u32,
    cap: u32,
    cont_sum: FitSummary,
    cont: Ghost<Seq<FrameModel>>,
) -> (res: (Option<(Rc<Out>, u32)>, Ghost<int>, u64))
    requires
        summarizes_doc(**tree, doc@),
        summarizes(cont_sum, stream_stop(cont@)),
    ensures
        0 <= res.1@ < spec_expansions(doc@).len(),
        match res.0 {
            Some((out, last)) => spec_resolve(spec_expansions(doc@)[res.1@], column, indent, cap) == Some(
                (out@, last),
            ),
            None => spec_resolve(spec_expansions(doc@)[res.1@], column, indent, cap) is None,
        },
        res.0 matches Some((_, last)) ==> greedy_pick(doc@, indent, column, width, cont@, cap) == Some(
            (spec_expansions(doc@)[res.1@], last),
        ),
        res.0 is None ==> greedy_pick(doc@, indent, column, width, cont@, cap) is None,
        res.2 == sat64(greedy_checks(doc@, indent, column, width, cont@, cap)),
    decreases doc@,
{
    proof {
        lemma_expansions_nonempty(doc@);
    }
    match &**doc {
        Doc::Empty => (Some((out_empty(), column)), Ghost(0), 0),
        Doc::Text(run) => match column.checked_add(run.columns()) {
            Some(last) => (Some((out_text(run.duplicate()), last)), Ghost(0), 0),
            None => (None, Ghost(0), 0),
        },
        Doc::Line { .. } => (Some((out_newline(indent), indent)), Ghost(0), 0),
        Doc::Concat(a, b) => {
            let ghost ea = spec_expansions(a@);
            let ghost eb = spec_expansions(b@);
            proof {
                lemma_expansions_nonempty(b@);
                assert(spec_expansions(doc@) == concat_pairs(ea, eb));
            }
            let (ta, tb) = match &**tree {
                SumTree::Two(_, ta, tb) => (ta, tb),
                _ => {
                    proof {
                        assert(false);
                    }
                    return (None, Ghost(0), 0);
                },
            };
            proof {
                assert(summarizes_doc(**tb, b@));
                assert(summarizes(tb.spec_summary(), first_stop(b@)));
                lemma_stream_push(cont@, (indent, b@));
                lemma_compose_summarizes(tb.spec_summary(), cont_sum, first_stop(b@), stream_stop(cont@));
            }
            let sub = compose(tb.summary(), cont_sum);
            let (left, Ghost(ka), na) = lay(a, ta, indent, column, width, cap, sub, Ghost(cont@.push((indent, b@))));
            match left {
                None => {
                    proof {
                        lemma_concat_pairs_member(ea, eb, ka, 0);
                    }
                    let ghost k = choose|k: int|
                        0 <= k < concat_pairs(ea, eb).len() && #[trigger] concat_pairs(ea, eb)[k]
                            == DocModel::Concat(Box::new(ea[ka]), Box::new(eb[0]));
                    (None, Ghost(k), na)
                },
                Some((left_out, mid)) => {
                    let (right, Ghost(kb), nb) = lay(b, tb, indent, mid, width, cap, cont_sum, cont);
                    proof {
                        lemma_concat_pairs_member(ea, eb, ka, kb);
                    }
                    let ghost k = choose|k: int|
                        0 <= k < concat_pairs(ea, eb).len() && #[trigger] concat_pairs(ea, eb)[k]
                            == DocModel::Concat(Box::new(ea[ka]), Box::new(eb[kb]));
                    match right {
                        None => (None, Ghost(k), na.saturating_add(nb)),
                        Some((right_out, last)) => (Some((out_cat(left_out, right_out), last)), Ghost(k), na.saturating_add(nb)),
                    }
                },
            }
        },
        Doc::Nest(n, inner) => {
            let ghost ex = spec_expansions(inner@);
            proof {
                lemma_expansions_nonempty(inner@);
                assert(spec_expansions(doc@) == ex.map_values(|e: DocModel| DocModel::Nest(*n, Box::new(e))));
            }
            match indent.checked_add(*n as u32) {
                None => {
                    assert(spec_expansions(doc@)[0] == DocModel::Nest(*n, Box::new(ex[0])));
                    (None, Ghost(0), 0)
                },
                Some(nested) => {
                    let child_indent = clamp(nested, cap);
                    let tx = match &**tree {
                        SumTree::One(_, tx) => tx,
                        _ => {
                            proof {
                                assert(false);
                            }
                            return (None, Ghost(0), 0);
                        },
                    };
                    let (r, Ghost(k), cnt) = lay(inner, tx, child_indent, column, width, cap, cont_sum, cont);
                    assert(spec_expansions(doc@)[k] == DocModel::Nest(*n, Box::new(ex[k])));
                    (r, Ghost(k), cnt)
                },
            }
        },
        Doc::Align(inner) => {
            let ghost ex = spec_expansions(inner@);
            let tx = match &**tree {
                SumTree::One(_, tx) => tx,
                _ => {
                    proof {
                        assert(false);
                    }
                    return (None, Ghost(0), 0);
                },
            };
            let (r, Ghost(k), cnt) = lay(inner, tx, clamp(column, cap), column, width, cap, cont_sum, cont);
            assert(spec_expansions(doc@)[k] == DocModel::Align(Box::new(ex[k])));
            (r, Ghost(k), cnt)
        },
        Doc::Tag(t, inner) => {
            let ghost ex = spec_expansions(inner@);
            let tx = match &**tree {
                SumTree::One(_, tx) => tx,
                _ => {
                    proof {
                        assert(false);
                    }
                    return (None, Ghost(0), 0);
                },
            };
            let (r, Ghost(k), cnt) = lay(inner, tx, indent, column, width, cap, cont_sum, cont);
            assert(spec_expansions(doc@)[k] == DocModel::Tag(*t, Box::new(ex[k])));
            match r {
                None => (None, Ghost(k), cnt),
                Some((out, last)) => (Some((out_tagged(*t, out), last)), Ghost(k), cnt),
            }
        },
        Doc::Penalty { amount, doc: inner } => {
            let ghost ex = spec_expansions(inner@);
            let tx = match &**tree {
                SumTree::One(_, tx) => tx,
                _ => {
                    proof {
                        assert(false);
                    }
                    return (None, Ghost(0), 0);
                },
            };
            let (r, Ghost(k), cnt) = lay(inner, tx, indent, column, width, cap, cont_sum, cont);
            assert(spec_expansions(doc@)[k] == DocModel::Penalty(*amount, Box::new(ex[k])));
            match r {
                None => (None, Ghost(k), cnt),
                Some((out, last)) => (Some((out_penalty(*amount, out), last)), Ghost(k), cnt),
            }
        },
        Doc::Choice(preferred, alternative) => {
            let ghost ep = spec_expansions(preferred@);
            let ghost eq = spec_expansions(alternative@);
            proof {
                assert(spec_expansions(doc@) == ep + eq);
            }
            let (tp, tq) = match &**tree {
                SumTree::Two(_, tp, tq) => (tp, tq),
                _ => {
                    proof {
                        assert(false);
                    }
                    return (None, Ghost(0), 0);
                },
            };
            proof {
                assert(summarizes_doc(**tp, preferred@));
                assert(summarizes(tp.spec_summary(), first_stop(preferred@)));
                lemma_summary_decides(width, column, cont@, (indent, preferred@), tp.spec_summary(), cont_sum);
            }
            if fits(tp.summary(), cont_sum, column, width) {
                let (r, Ghost(k), cnt) = lay(preferred, tp, indent, column, width, cap, cont_sum, cont);
                assert(spec_expansions(doc@)[k] == ep[k]);
                (r, Ghost(k), cnt.saturating_add(1))
            } else {
                let (r, Ghost(k), cnt) = lay(alternative, tq, indent, column, width, cap, cont_sum, cont);
                assert(spec_expansions(doc@)[ep.len() + k] == eq[k]);
                (r, Ghost(ep.len() + k), cnt.saturating_add(1))
            }
        },
    }
}

/// A greedy layout: its cost, output, spans and lines.
pub struct GreedyResult {
    /// Model-specific cost.
    pub cost: ConsumerCost,
    /// Persistent output witness.
    pub out: Rc<Out>,
    /// Materialized tag spans.
    pub spans: Vec<AnnotationSpan>,
    /// Materialized output lines.
    pub lines: Vec<String>,
    /// Fit decisions made, saturating.
    pub fit_checks: u64,
}

/// `g` is the layout of resolution `k` of `doc` from the origin, with its
/// oracle cost, spans and lines.
pub open spec fn greedy_renders<M: CostModel>(m: M, doc: DocModel, k: int, g: GreedyResult) -> bool {
    &&& 0 <= k < spec_expansions(doc).len()
    &&& spec_resolve(spec_expansions(doc)[k], 0, 0, m.spec_indent_cap()) matches Some((o, _)) && o == g.out@
    &&& layout_cost(m, spec_expansions(doc)[k]) == Some(g.cost)
    &&& spans_match(g.spans@, out_spans(g.out@))
    &&& g.lines@.len() == split_lines(out_text_of(g.out@)).len()
    &&& forall|i: int|
        0 <= i < g.lines@.len() ==> (#[trigger] g.lines@[i])@ == split_lines(out_text_of(g.out@))[i]
}

/// The outcome of greedy layout within `width`: the rendering of the
/// resolution [`greedy_layout`] picks, or none when that resolution's
/// columns, cost or byte size leave their domains.
pub open spec fn greedy_outcome<M: CostModel>(m: M, doc: DocModel, width: u32, r: Option<GreedyResult>) -> bool {
    &&& r matches Some(g) ==> g.fit_checks == sat64(
        greedy_checks(doc, 0, 0, width, Seq::<FrameModel>::empty(), m.spec_indent_cap()),
    )
    &&& r matches Some(g) ==> exists|k: int| #[trigger] greedy_renders(m, doc, k, g) && greedy_picks(doc, width, m.spec_indent_cap(), k)
    &&& r is None ==> (greedy_layout(doc, width, m.spec_indent_cap()) matches Some((e, _)) ==> layout_cost(m, e) is None
        || out_bytes(spec_resolve(e, 0, 0, m.spec_indent_cap()).unwrap().0) > usize::MAX)
    &&& match r {
        Some(g) => exists|k: int| greedy_renders(m, doc, k, g),
        None => exists|k: int|
            0 <= k < spec_expansions(doc).len() && (layout_cost(m, spec_expansions(doc)[k])
                is None || out_bytes(spec_resolve(spec_expansions(doc)[k], 0, 0, m.spec_indent_cap()).unwrap().0)
                > usize::MAX),
    }
}

/// Greedy layout within `width`: at each choice the preferred branch is
/// taken when the stream up to the next break fits. The document's summary
/// tree is built first, so each choice is decided in constant time.
pub fn layout<M: CostModel>(cm: &M, doc: &Rc<Doc>, width: u32) -> (r: Option<GreedyResult>)
    ensures
        greedy_outcome(*cm, doc@, width, r),
{
    let mut cache: Vec<(Rc<Doc>, Rc<SumTree>)> = Vec::new();
    let tree = build_source(doc, &mut cache);
    layout_summarized(cm, doc, &tree, width)
}

/// Greedy layout within `width` of a document whose summary tree is
/// `tree`.
pub fn layout_summarized<M: CostModel>(cm: &M, doc: &Rc<Doc>, tree: &Rc<SumTree>, width: u32) -> (r: Option<
    GreedyResult,
>)
    requires
        summarizes_doc(**tree, doc@),
    ensures
        greedy_outcome(*cm, doc@, width, r),
{
    let (laid, Ghost(k), checks) = lay(doc, tree, 0, 0, width, cm.indent_cap(), empty_summary(), Ghost(Seq::<FrameModel>::empty()));
    let ghost e = spec_expansions(doc@)[k];
    match laid {
        None => None,
        Some((out, _)) => {
            let cost = match cost_of_out(cm, &out) {
                Some(cost) => cost,
                None => {
                    return None;
                },
            };
            let (text, spans) = match materialize_text(&out) {
                Some(v) => v,
                None => {
                    return None;
                },
            };
            let lines = split_into_lines(text.as_str());
            let g = GreedyResult { cost, out, spans, lines, fit_checks: checks };
            assert(greedy_renders(*cm, doc@, k, g));
            Some(g)
        },
    }
}

} // verus!
