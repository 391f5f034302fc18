//! Brute-force oracle: enumerate every choice assignment, render each fully,
//! keep the minimum-cost rendering. Exponential in the number of `Choice`
//! nodes; this is ground truth for the other engines, not an engine.
use crate::cost::{clamp, clamp_indent, cost_le, cost_lt, lemma_cost_order, ConsumerCost, CostModel};
use crate::doc::{count_choices, models, spec_count_choices, Doc, DocModel};
use crate::research::{
    materialize_text, out_cat, out_cost, out_empty, out_newline, out_penalty, out_spans,
    out_tagged, out_text, out_text_of, spans_match, spec_out_cat, split_into_lines, split_lines,
    AnnotationSpan, Out, OutModel,
};
use std::rc::Rc;
use vstd::prelude::*;

verus! {

/// All choice-free resolutions of `d`, in left-preferring order.
pub open spec fn spec_expansions(d: DocModel) -> Seq<DocModel>
    decreases d,
{
    match d {
        DocModel::Empty | DocModel::Text(_) | DocModel::Line(_) => seq![d],
        DocModel::Concat(a, b) => concat_pairs(spec_expansions(*a), spec_expansions(*b)),
        DocModel::Nest(n, x) => spec_expansions(*x).map_values(|e: DocModel| DocModel::Nest(n, Box::new(e))),
        DocModel::Align(x) => spec_expansions(*x).map_values(|e: DocModel| DocModel::Align(Box::new(e))),
        DocModel::Tag(t, x) => spec_expansions(*x).map_values(|e: DocModel| DocModel::Tag(t, Box::new(e))),
        DocModel::Penalty(amount, x) => spec_expansions(*x).map_values(
            |e: DocModel| DocModel::Penalty(amount, Box::new(e)),
        ),
        DocModel::Choice(l, r) => spec_expansions(*l) + spec_expansions(*r),
    }
}

/// `x` concatenated with each of `rs`.
pub open spec fn pair_row(x: DocModel, rs: Seq<DocModel>) -> Seq<DocModel> {
    Seq::new(rs.len(), |k: int| DocModel::Concat(Box::new(x), Box::new(rs[k])))
}

/// Every left resolution concatenated with every right resolution, left
/// resolutions outermost.
pub open spec fn concat_pairs(ls: Seq<DocModel>, rs: Seq<DocModel>) -> Seq<DocModel>
    decreases ls.len(),
{
    if ls.len() == 0 {
        seq![]
    } else {
        pair_row(ls[0], rs) + concat_pairs(ls.drop_first(), rs)
    }
}

/// Renders a choice-free document from `column` under `indent`, giving its
/// output tree and last column; `None` when a column leaves `u32`. A
/// `Choice` renders its preferred branch.
pub open spec fn spec_resolve(d: DocModel, column: u32, indent: u32, cap: u32) -> Option<(OutModel, u32)>
    decreases d,
{
    match d {
        DocModel::Empty => Some((OutModel::Empty, column)),
        DocModel::Text(run) => if column + run.columns > u32::MAX {
            None
        } else {
            Some((OutModel::Text(run), (column + run.columns) as u32))
        },
        DocModel::Line(_) => Some((OutModel::Newline(indent), indent)),
        DocModel::Concat(a, b) => match spec_resolve(*a, column, indent, cap) {
            Some((oa, ca)) => match spec_resolve(*b, ca, indent, cap) {
                Some((ob, cb)) => Some((spec_out_cat(oa, ob), cb)),
                None => None,
            },
            None => None,
        },
        DocModel::Nest(n, x) => if indent + n > u32::MAX {
            None
        } else {
            spec_resolve(*x, column, clamp_indent((indent + n) as u32, cap), cap)
        },
        DocModel::Align(x) => spec_resolve(*x, column, clamp_indent(column, cap), cap),
        DocModel::Tag(t, x) => match spec_resolve(*x, column, indent, cap) {
            Some((o, c)) => Some((OutModel::Tagged(t, Box::new(o)), c)),
            None => None,
        },
        DocModel::Penalty(amount, x) => match spec_resolve(*x, column, indent, cap) {
            Some((o, c)) => Some((OutModel::Penalty(amount, Box::new(o)), c)),
            None => None,
        },
        DocModel::Choice(l, _) => spec_resolve(*l, column, indent, cap),
    }
}

/// The cost of the layout a choice-free document renders from column zero.
pub open spec fn layout_cost<M: CostModel>(m: M, d: DocModel) -> Option<ConsumerCost> {
    match spec_resolve(d, 0, 0, m.spec_indent_cap()) {
        Some((o, _)) => out_cost(m, o),
        None => None,
    }
}

/// Every resolution of `doc` renders and has a representable cost.
pub open spec fn all_layouts_defined<M: CostModel>(m: M, doc: DocModel) -> bool {
    forall|i: int|
        0 <= i < spec_expansions(doc).len() ==> #[trigger] layout_cost(m, spec_expansions(doc)[i])
            is Some
}

/// Resolution `k` of `doc` is the first minimum-cost one.
pub open spec fn is_first_minimum<M: CostModel>(m: M, doc: DocModel, k: int) -> bool {
    let e = spec_expansions(doc);
    &&& 0 <= k < e.len()
    &&& forall|j: int|
        0 <= j < e.len() ==> cost_le(
            layout_cost(m, e[k]).unwrap(),
            #[trigger] layout_cost(m, e[j]).unwrap(),
        )
    &&& forall|j: int|
        0 <= j < k ==> cost_lt(
            layout_cost(m, e[k]).unwrap(),
            #[trigger] layout_cost(m, e[j]).unwrap(),
        )
}

/// Every document has at least one resolution.
pub proof fn lemma_expansions_nonempty(d: DocModel)
    ensures
        spec_expansions(d).len() >= 1,
    decreases d,
{
    match d {
        DocModel::Concat(a, b) => {
            lemma_expansions_nonempty(*a);
            lemma_expansions_nonempty(*b);
            let ls = spec_expansions(*a);
            let rs = spec_expansions(*b);
            assert(concat_pairs(ls, rs) == pair_row(ls[0], rs) + concat_pairs(ls.drop_first(), rs));
        },
        DocModel::Nest(_, x) => lemma_expansions_nonempty(*x),
        DocModel::Align(x) => lemma_expansions_nonempty(*x),
        DocModel::Tag(_, x) => lemma_expansions_nonempty(*x),
        DocModel::Penalty(_, x) => lemma_expansions_nonempty(*x),
        DocModel::Choice(l, r) => {
            lemma_expansions_nonempty(*l);
            lemma_expansions_nonempty(*r);
        },
        _ => {},
    }
}

/// Every left resolution concatenated with every right resolution.
fn pairs(left: &Vec<Rc<Doc>>, right: &Vec<Rc<Doc>>) -> (r: Vec<Rc<Doc>>)
    ensures
        models(r@) == concat_pairs(models(left@), models(right@)),
{
    let mut out: Vec<Rc<Doc>> = Vec::new();
    let ghost ls = models(left@);
    let ghost rs = models(right@);
    let mut li: usize = 0;
    assert(ls.take(0) =~= Seq::<DocModel>::empty());
    assert(models(out@) =~= concat_pairs(ls.take(0), rs));
    while li < left.len()
        invariant
            li <= left@.len(),
            ls == models(left@),
            rs == models(right@),
            models(out@) == concat_pairs(ls.take(li as int), rs),
        decreases left@.len() - li,
    {
        let ghost before = models(out@);
        let ghost block = pair_row(ls[li as int], rs);
        let mut ri: usize = 0;
        assert(models(out@) =~= before + block.take(0));
        while ri < right.len()
            invariant
                li < left@.len(),
                ri <= right@.len(),
                ls == models(left@),
                rs == models(right@),
                block == pair_row(ls[li as int], rs),
                models(out@) == before + block.take(ri as int),
            decreases right@.len() - ri,
        {
            let ghost prev = out@;
            out.push(crate::doc::concat2(crate::share(&left[li]), crate::share(&right[ri])));
            assert(models(out@) =~= models(prev).push(out@.last()@));
            assert(block.take(ri as int + 1) =~= block.take(ri as int).push(block[ri as int]));
            assert(rs.len() == right@.len());
            assert(block.len() == rs.len());
            assert(ls[li as int] == left@[li as int]@);
            assert(rs[ri as int] == right@[ri as int]@);
            assert(out@.last()@ == block[ri as int]);
            assert(models(out@) =~= before + block.take(ri as int + 1));
            ri = ri + 1;
        }
        proof {
            assert(block.take(rs.len() as int) =~= block);
            lemma_concat_pairs_step(ls, rs, li as int);
        }
        li = li + 1;
    }
    assert(ls.take(ls.len() as int) =~= ls);
    out
}

proof fn lemma_concat_pairs_step(ls: Seq<DocModel>, rs: Seq<DocModel>, i: int)
    requires
        0 <= i < ls.len(),
    ensures
        concat_pairs(ls.take(i + 1), rs) == concat_pairs(ls.take(i), rs) + pair_row(ls[i], rs),
{
    assert(ls.take(i + 1) =~= ls.take(i) + seq![ls[i]]);
    lemma_concat_pairs_append(ls.take(i), seq![ls[i]], rs);
    assert(seq![ls[i]].drop_first() =~= Seq::<DocModel>::empty());
    let block = pair_row(ls[i], rs);
    let one = seq![ls[i]];
    assert(concat_pairs(one.drop_first(), rs) == Seq::<DocModel>::empty());
    assert(one[0] == ls[i]);
    assert(concat_pairs(one, rs) == block + concat_pairs(one.drop_first(), rs));
    assert(concat_pairs(one, rs) =~= block);
}

pub proof fn lemma_concat_pairs_append(a: Seq<DocModel>, b: Seq<DocModel>, rs: Seq<DocModel>)
    ensures
        concat_pairs(a + b, rs) == concat_pairs(a, rs) + concat_pairs(b, rs),
    decreases a.len(),
{
    if a.len() == 0 {
        assert(a + b =~= b);
        assert(concat_pairs(a, rs) + concat_pairs(b, rs) =~= concat_pairs(b, rs));
    } else {
        assert((a + b).drop_first() =~= a.drop_first() + b);
        assert((a + b)[0] == a[0]);
        lemma_concat_pairs_append(a.drop_first(), b, rs);
        let head = pair_row(a[0], rs);
        assert(head + (concat_pairs(a.drop_first(), rs) + concat_pairs(b, rs)) =~= head
            + concat_pairs(a.drop_first(), rs) + concat_pairs(b, rs));
    }
}

/// Every choice-free resolution of `doc`, in left-preferring order.
pub fn expansions(doc: &Rc<Doc>) -> (r: Vec<Rc<Doc>>)
    ensures
        models(r@) == spec_expansions(doc@),
    decreases **doc,
{
    let r = match &**doc {
        Doc::Empty | Doc::Text(_) | Doc::Line { .. } => {
            let mut v: Vec<Rc<Doc>> = Vec::new();
            v.push(crate::share(doc));
            v
        },
        Doc::Concat(a, b) => {
            let left = expansions(a);
            let right = expansions(b);
            let out = pairs(&left, &right);
            proof {
                assert(models(out@) =~= concat_pairs(models(left@), models(right@)));
            }
            out
        },
        Doc::Nest(n, inner) => {
            let inner_exps = expansions(inner);
            let mut v: Vec<Rc<Doc>> = Vec::new();
            let mut i: usize = 0;
            while i < inner_exps.len()
                invariant
                    i <= inner_exps@.len(),
                    v@.len() == i,
                    forall|k: int|
                        0 <= k < i ==> #[trigger] v@[k]@ == DocModel::Nest(*n, Box::new(inner_exps@[k]@)),
                decreases inner_exps@.len() - i,
            {
                v.push(crate::doc::nest(*n, crate::share(&inner_exps[i])));
                i = i + 1;
            }
            assert(models(v@) =~= models(inner_exps@).map_values(
                |e: DocModel| DocModel::Nest(*n, Box::new(e)),
            ));
            v
        },
        Doc::Align(inner) => {
            let inner_exps = expansions(inner);
            let mut v: Vec<Rc<Doc>> = Vec::new();
            let mut i: usize = 0;
            while i < inner_exps.len()
                invariant
                    i <= inner_exps@.len(),
                    v@.len() == i,
                    forall|k: int| 0 <= k < i ==> #[trigger] v@[k]@ == DocModel::Align(Box::new(inner_exps@[k]@)),
                decreases inner_exps@.len() - i,
            {
                v.push(crate::doc::align(crate::share(&inner_exps[i])));
                i = i + 1;
            }
            assert(models(v@) =~= models(inner_exps@).map_values(
                |e: DocModel| DocModel::Align(Box::new(e)),
            ));
            v
        },
        Doc::Tag(t, inner) => {
            let inner_exps = expansions(inner);
            let mut v: Vec<Rc<Doc>> = Vec::new();
            let mut i: usize = 0;
            while i < inner_exps.len()
                invariant
                    i <= inner_exps@.len(),
                    v@.len() == i,
                    forall|k: int| 0 <= k < i ==> #[trigger] v@[k]@ == DocModel::Tag(*t, Box::new(inner_exps@[k]@)),
                decreases inner_exps@.len() - i,
            {
                v.push(crate::doc::tag(*t, crate::share(&inner_exps[i])));
                i = i + 1;
            }
            assert(models(v@) =~= models(inner_exps@).map_values(
                |e: DocModel| DocModel::Tag(*t, Box::new(e)),
            ));
            v
        },
        Doc::Penalty { amount, doc: inner } => {
            let inner_exps = expansions(inner);
            let mut v: Vec<Rc<Doc>> = Vec::new();
            let mut i: usize = 0;
            while i < inner_exps.len()
                invariant
                    i <= inner_exps@.len(),
                    v@.len() == i,
                    forall|k: int|
                        0 <= k < i ==> #[trigger] v@[k]@ == DocModel::Penalty(*amount, Box::new(inner_exps@[k]@)),
                decreases inner_exps@.len() - i,
            {
                v.push(Rc::new(Doc::Penalty { amount: *amount, doc: crate::share(&inner_exps[i]) }));
                i = i + 1;
            }
            assert(models(v@) =~= models(inner_exps@).map_values(
                |e: DocModel| DocModel::Penalty(*amount, Box::new(e)),
            ));
            v
        },
        Doc::Choice(l, r) => {
            let mut left = expansions(l);
            let mut right = expansions(r);
            let ghost ls = left@;
            let ghost rs = right@;
            left.append(&mut right);
            assert(models(left@) =~= models(ls) + models(rs));
            left
        },
    };
    r
}

/// Renders a choice-free document, giving its output tree and last column;
/// `None` when a column leaves `u32`. A `Choice` renders its preferred branch.
pub fn render_resolved_out(d: &Rc<Doc>, column: u32, indent: u32, cap: u32) -> (r: Option<(Rc<Out>, u32)>)
    ensures
        match spec_resolve(d@, column, indent, cap) {
            Some((o, c)) => r matches Some((ro, rc)) && ro@ == o && rc == c,
            None => r is None,
        },
    decreases **d,
{
    match &**d {
        Doc::Empty => Some((out_empty(), column)),
        Doc::Text(run) => match column.checked_add(run.columns()) {
            Some(end) => Some((out_text(run.duplicate()), end)),
            None => None,
        },
        Doc::Line { .. } => Some((out_newline(indent), indent)),
        Doc::Concat(a, b) => match render_resolved_out(a, column, indent, cap) {
            Some((oa, ca)) => match render_resolved_out(b, ca, indent, cap) {
                Some((ob, cb)) => Some((out_cat(oa, ob), cb)),
                None => None,
            },
            None => None,
        },
        Doc::Nest(n, x) => match indent.checked_add(*n as u32) {
            Some(nested) => render_resolved_out(x, column, clamp(nested, cap), cap),
            None => None,
        },
        Doc::Align(x) => render_resolved_out(x, column, clamp(column, cap), cap),
        Doc::Tag(t, x) => match render_resolved_out(x, column, indent, cap) {
            Some((o, c)) => Some((out_tagged(*t, o), c)),
            None => None,
        },
        Doc::Penalty { amount, doc } => match render_resolved_out(doc, column, indent, cap) {
            Some((o, c)) => Some((out_penalty(*amount, o), c)),
            None => None,
        },
        Doc::Choice(l, _) => render_resolved_out(l, column, indent, cap),
    }
}

/// A rendering: cost, structural output witness, spans and lines.
pub struct Rendering {
    /// Model-specific cost.
    pub cost: ConsumerCost,
    /// Persistent output witness.
    pub out: Rc<Out>,
    /// Materialized tag spans.
    pub spans: Vec<AnnotationSpan>,
    /// Materialized output lines.
    pub lines: Vec<String>,
}

/// `r` renders `out` at `cost`: its lines and spans are those of `out`.
pub open spec fn renders(r: Rendering, out: OutModel, cost: ConsumerCost) -> bool {
    &&& r.out@ == out
    &&& r.cost == cost
    &&& spans_match(r.spans@, out_spans(out))
    &&& r.lines@.len() == split_lines(out_text_of(out)).len()
    &&& forall|i: int|
        0 <= i < r.lines@.len() ==> (#[trigger] r.lines@[i])@ == split_lines(out_text_of(out))[i]
}

impl Rendering {
    /// Joins output lines with newline characters.
    pub fn text(&self) -> (r: String)
        ensures
            r@ == crate::research::join_lines(self.lines@.map_values(|s: String| s@)),
    {
        join_strings(&self.lines)
    }
}

/// Joins strings with newline characters.
pub fn join_strings(lines: &Vec<String>) -> (r: String)
    ensures
        r@ == crate::research::join_lines(lines@.map_values(|s: String| s@)),
{
    let ghost views = lines@.map_values(|s: String| s@);
    if lines.len() == 0 {
        return String::new();
    }
    let mut i: usize = lines.len() - 1;
    let mut acc = lines[i].clone();
    assert(views.skip(i as int) =~= seq![views[i as int]]);
    while i > 0
        invariant
            i < lines@.len(),
            views == lines@.map_values(|s: String| s@),
            acc@ == crate::research::join_lines(views.skip(i as int)),
        decreases i,
    {
        i = i - 1;
        let mut next = lines[i].clone();
        let nl = "\n";
        proof {
            reveal_strlit("\n");
        }
        next.append(nl);
        next.append(acc.as_str());
        assert(views.skip(i as int).drop_first() =~= views.skip(i as int + 1));
        assert(views.skip(i as int).len() >= 2);
        assert(views.skip(i as int)[0] == views[i as int]);
        acc = next;
    }
    assert(views.skip(0) =~= views);
    acc
}

/// Output tree, last column and cost of the layout of a choice-free
/// document from column zero.
fn render_costed<M: CostModel>(cm: &M, doc: &Rc<Doc>) -> (r: Option<(Rc<Out>, ConsumerCost)>)
    ensures
        match layout_cost(*cm, doc@) {
            Some(cost) => r matches Some((o, c)) && Some((o@, spec_resolve(doc@, 0, 0, cm.spec_indent_cap()).unwrap().1))
                == spec_resolve(doc@, 0, 0, cm.spec_indent_cap()) && c == cost,
            None => r is None,
        },
{
    match render_resolved_out(doc, 0, 0, cm.indent_cap()) {
        Some((out, _)) => match crate::research::cost_of_out(cm, &out) {
            Some(cost) => Some((out, cost)),
            None => None,
        },
        None => None,
    }
}

/// A document has at most one first minimum-cost resolution.
pub proof fn lemma_first_minimum_unique<M: CostModel>(m: M, doc: DocModel, j: int, k: int)
    requires
        is_first_minimum(m, doc, j),
        is_first_minimum(m, doc, k),
    ensures
        j == k,
{
    let e = spec_expansions(doc);
    lemma_cost_order(layout_cost(m, e[j]).unwrap(), layout_cost(m, e[k]).unwrap(), layout_cost(m, e[j]).unwrap());
    if j < k {
        assert(cost_lt(layout_cost(m, e[k]).unwrap(), layout_cost(m, e[j]).unwrap()));
        assert(cost_le(layout_cost(m, e[j]).unwrap(), layout_cost(m, e[k]).unwrap()));
    } else if k < j {
        assert(cost_lt(layout_cost(m, e[j]).unwrap(), layout_cost(m, e[k]).unwrap()));
        assert(cost_le(layout_cost(m, e[k]).unwrap(), layout_cost(m, e[j]).unwrap()));
    }
}

/// Minimum-cost rendering over all layouts, keeping the earliest
/// (left-preferring) layout among equal costs. `None` when some layout has
/// no representable column or cost, or when the chosen text's byte length
/// leaves `usize`.
pub fn best<M: CostModel>(cm: &M, doc: &Rc<Doc>, max_choices: usize) -> (r: Option<Rendering>)
    requires
        spec_count_choices(doc@) <= max_choices,
    ensures
        match r {
            Some(rendering) => all_layouts_defined(*cm, doc@) && exists|k: int|
                is_first_minimum(*cm, doc@, k) && renders(
                    rendering,
                    spec_resolve(spec_expansions(doc@)[k], 0, 0, cm.spec_indent_cap()).unwrap().0,
                    layout_cost(*cm, spec_expansions(doc@)[k]).unwrap(),
                ),
            None => !all_layouts_defined(*cm, doc@) || exists|k: int|
                is_first_minimum(*cm, doc@, k) && crate::research::out_bytes(
                    spec_resolve(spec_expansions(doc@)[k], 0, 0, cm.spec_indent_cap()).unwrap().0,
                ) > usize::MAX,
        },
{
    let exps = expansions(doc);
    proof {
        lemma_expansions_nonempty(doc@);
    }
    let ghost e = spec_expansions(doc@);
    let mut best_index: usize = 0;
    let mut best_out: Option<(Rc<Out>, ConsumerCost)> = None;
    let mut i: usize = 0;
    while i < exps.len()
        invariant
            e == spec_expansions(doc@),
            models(exps@) == e,
            e.len() >= 1,
            i <= exps@.len(),
            forall|j: int| 0 <= j < i ==> #[trigger] layout_cost(*cm, e[j]) is Some,
            i == 0 <==> best_out is None,
            best_out matches Some((o, c)) ==> {
                &&& 0 <= best_index < i
                &&& layout_cost(*cm, e[best_index as int]) == Some(c)
                &&& spec_resolve(e[best_index as int], 0, 0, cm.spec_indent_cap()).unwrap().0 == o@
                &&& forall|j: int| 0 <= j < i ==> cost_le(c, #[trigger] layout_cost(*cm, e[j]).unwrap())
                &&& forall|j: int| 0 <= j < best_index ==> cost_lt(c, #[trigger] layout_cost(*cm, e[j]).unwrap())
            },
        decreases exps@.len() - i,
    {
        assert(exps@[i as int]@ == e[i as int]);
        let (out, cost) = match render_costed(cm, &exps[i]) {
            Some(v) => v,
            None => return None,
        };
        let replace = match &best_out {
            Some((_, c)) => cost.is_cheaper_than(c),
            None => true,
        };
        if replace {
            proof {
                if let Some((o, c)) = best_out {
                    assert forall|j: int| 0 <= j <= i implies cost_le(cost, #[trigger] layout_cost(*cm, e[j]).unwrap()) by {
                        if j < i {
                            lemma_cost_order(cost, c, layout_cost(*cm, e[j]).unwrap());
                        }
                    }
                    assert forall|j: int| 0 <= j < i implies cost_lt(cost, #[trigger] layout_cost(*cm, e[j]).unwrap()) by {
                        lemma_cost_order(cost, c, layout_cost(*cm, e[j]).unwrap());
                    }
                }
            }
            best_index = i;
            best_out = Some((out, cost));
        } else {
            proof {
                let (o, c) = best_out.unwrap();
                lemma_cost_order(c, cost, cost);
            }
        }
        i = i + 1;
    }
    let (out, cost) = best_out.unwrap();
    assert(is_first_minimum(*cm, doc@, best_index as int));
    let (text, spans) = match materialize_text(&out) {
        Some(v) => v,
        None => return None,
    };
    let lines = split_into_lines(text.as_str());
    Some(Rendering { cost, out, spans, lines })
}

} // verus!
