//! First-stop fit summaries. The summary of a stream is what the greedy
//! engine's fit test reads of it: the columns its text takes before its
//! first break opportunity, whether any text comes before that break, and
//! whether there is a break at all. Summaries compose, so a tree built once
//! for a document holds the summary of every node, and each fit decision
//! combines two of them in constant time.
use crate::doc::{Doc, DocModel};
use crate::greedy::{spec_fits, models_size, FrameModel};
use std::rc::Rc;
use vstd::prelude::*;

verus! {

/// A stream's first-stop model: text columns before the first break, any
/// text before it, and whether a break comes at all.
pub type StopModel = (nat, bool, bool);

/// `s` followed by `c`: once `s` breaks, `c` is not read.
pub open spec fn compose_stop(s: StopModel, c: StopModel) -> StopModel {
    if s.2 {
        s
    } else {
        (s.0 + c.0, s.1 || c.1, c.2)
    }
}

/// The first-stop model of a document, each choice read as its preferred
/// branch.
pub open spec fn first_stop(d: DocModel) -> StopModel
    decreases d,
{
    match d {
        DocModel::Empty => (0, false, false),
        DocModel::Text(t) => (t.columns as nat, true, false),
        DocModel::Line(_) => (0, false, true),
        DocModel::Concat(a, b) => compose_stop(first_stop(*a), first_stop(*b)),
        DocModel::Nest(_, x) | DocModel::Align(x) | DocModel::Tag(_, x) | DocModel::Penalty(_, x) => first_stop(*x),
        DocModel::Choice(p, _) => first_stop(*p),
    }
}

/// The first-stop model of a stack of frames, its last frame first.
pub open spec fn stream_stop(frames: Seq<FrameModel>) -> StopModel
    decreases frames.len(),
{
    if frames.len() == 0 {
        (0, false, false)
    } else {
        compose_stop(first_stop(frames.last().1), stream_stop(frames.drop_last()))
    }
}

/// A summary of a stream, its columns saturating at `u64::MAX`.
#[derive(Clone, Copy, Debug, PartialEq, Eq, Structural)]
pub struct FitSummary {
    /// Text columns before the first break, saturating.
    pub columns: u64,
    /// Some text comes before the first break.
    pub texts: bool,
    /// The stream has a break.
    pub stops: bool,
}

/// `n`, or `u64::MAX` where `n` is larger.
pub open spec fn sat64(n: nat) -> u64 {
    if n > u64::MAX {
        u64::MAX
    } else {
        n as u64
    }
}

/// `s` is the summary of the model `m`.
pub open spec fn summarizes(s: FitSummary, m: StopModel) -> bool {
    s.columns == sat64(m.0) && s.texts == m.1 && s.stops == m.2
}

/// `s` followed by `c`, as summaries.
pub open spec fn summary_compose(s: FitSummary, c: FitSummary) -> FitSummary {
    if s.stops {
        s
    } else {
        FitSummary {
            columns: if s.columns + c.columns > u64::MAX {
                u64::MAX
            } else {
                (s.columns + c.columns) as u64
            },
            texts: s.texts || c.texts,
            stops: c.stops,
        }
    }
}

/// Whether a branch summarized by `s`, followed by a continuation
/// summarized by `cont`, fits `width` from `column`: no text comes before
/// the first break, or the columns up to it stay within `width`.
pub open spec fn spec_fits_summary(s: FitSummary, cont: FitSummary, column: u32, width: u32) -> bool {
    let t = summary_compose(s, cont);
    !t.texts || column + t.columns <= width
}

/// The summary of a stream with nothing in it.
pub fn empty_summary() -> (r: FitSummary)
    ensures
        summarizes(r, (0, false, false)),
{
    FitSummary { columns: 0, texts: false, stops: false }
}

/// `s` followed by `c`.
pub fn compose(s: FitSummary, c: FitSummary) -> (r: FitSummary)
    ensures
        r == summary_compose(s, c),
{
    if s.stops {
        s
    } else {
        FitSummary { columns: s.columns.saturating_add(c.columns), texts: s.texts || c.texts, stops: c.stops }
    }
}

/// The fit decision, in constant time.
pub fn fits(s: FitSummary, cont: FitSummary, column: u32, width: u32) -> (r: bool)
    ensures
        r == spec_fits_summary(s, cont, column, width),
{
    let t = compose(s, cont);
    if !t.texts {
        true
    } else if t.columns > width as u64 {
        false
    } else {
        column as u64 + t.columns <= width as u64
    }
}

/// Composing summaries summarizes the composed models.
pub proof fn lemma_compose_summarizes(s: FitSummary, c: FitSummary, a: StopModel, b: StopModel)
    requires
        summarizes(s, a),
        summarizes(c, b),
    ensures
        summarizes(summary_compose(s, c), compose_stop(a, b)),
{
}

/// A model with no text before its break has no columns before it.
proof fn lemma_no_text_no_columns(d: DocModel)
    ensures
        !first_stop(d).1 ==> first_stop(d).0 == 0,
    decreases d,
{
    match d {
        DocModel::Concat(a, b) => {
            lemma_no_text_no_columns(*a);
            lemma_no_text_no_columns(*b);
        },
        DocModel::Nest(_, x) | DocModel::Align(x) | DocModel::Tag(_, x) | DocModel::Penalty(_, x) => {
            lemma_no_text_no_columns(*x);
        },
        DocModel::Choice(p, _) => {
            lemma_no_text_no_columns(*p);
        },
        _ => {},
    }
}

proof fn lemma_stream_no_text_no_columns(frames: Seq<FrameModel>)
    ensures
        !stream_stop(frames).1 ==> stream_stop(frames).0 == 0,
    decreases frames.len(),
{
    if frames.len() > 0 {
        lemma_no_text_no_columns(frames.last().1);
        lemma_stream_no_text_no_columns(frames.drop_last());
    }
}

/// Composition is associative.
proof fn lemma_compose_assoc(a: StopModel, b: StopModel, c: StopModel)
    ensures
        compose_stop(compose_stop(a, b), c) == compose_stop(a, compose_stop(b, c)),
{
}

/// Pushing a frame puts its document first in the stream.
pub proof fn lemma_stream_push(frames: Seq<FrameModel>, f: FrameModel)
    ensures
        stream_stop(frames.push(f)) == compose_stop(first_stop(f.1), stream_stop(frames)),
{
    assert(frames.push(f).drop_last() =~= frames);
}

/// The scanning fit test is the summary test: a stream fits exactly when
/// no text comes before its first break or its columns up to that break
/// stay within `width`.
pub proof fn lemma_fits_by_summary(width: u32, col: u32, frames: Seq<FrameModel>)
    ensures
        spec_fits(width, col, frames) == (!stream_stop(frames).1 || col + stream_stop(frames).0 <= width),
    decreases models_size(frames),
{
    if frames.len() > 0 {
        let (indent, d) = frames.last();
        let rest = frames.drop_last();
        lemma_stream_no_text_no_columns(rest);
        assert(stream_stop(frames) == compose_stop(first_stop(d), stream_stop(rest)));
        match d {
            DocModel::Empty => {
                lemma_fits_by_summary(width, col, rest);
            },
            DocModel::Text(t) => {
                if !(col + t.columns > u32::MAX || col + t.columns > width) {
                    lemma_fits_by_summary(width, (col + t.columns) as u32, rest);
                }
            },
            DocModel::Line(_) => {},
            DocModel::Concat(a, b) => {
                let s1 = rest.push((indent, *b));
                let s2 = s1.push((indent, *a));
                assert(s2.drop_last() =~= s1);
                assert(s1.drop_last() =~= rest);
                assert(models_size(s2) == models_size(s1) + crate::greedy::doc_size(*a));
                assert(models_size(s1) == models_size(rest) + crate::greedy::doc_size(*b));
                assert(models_size(frames) == models_size(rest) + crate::greedy::doc_size(d));
                lemma_fits_by_summary(width, col, s2);
                lemma_stream_push(s1, (indent, *a));
                lemma_stream_push(rest, (indent, *b));
                lemma_compose_assoc(first_stop(*a), first_stop(*b), stream_stop(rest));
            },
            DocModel::Nest(n, x) => {
                let s1 = rest.push((if indent + n > u32::MAX { u32::MAX } else { (indent + n) as u32 }, *x));
                assert(s1.drop_last() =~= rest);
                lemma_fits_by_summary(width, col, s1);
            },
            DocModel::Align(x) => {
                let s1 = rest.push((col, *x));
                assert(s1.drop_last() =~= rest);
                lemma_fits_by_summary(width, col, s1);
            },
            DocModel::Tag(_, x) => {
                let s1 = rest.push((indent, *x));
                assert(s1.drop_last() =~= rest);
                lemma_fits_by_summary(width, col, s1);
            },
            DocModel::Penalty(_, x) => {
                let s1 = rest.push((indent, *x));
                assert(s1.drop_last() =~= rest);
                lemma_fits_by_summary(width, col, s1);
            },
            DocModel::Choice(p, _) => {
                let s1 = rest.push((indent, *p));
                assert(s1.drop_last() =~= rest);
                lemma_fits_by_summary(width, col, s1);
            },
        }
    }
}

/// The summary decision on summaries of a branch and of its continuation
/// is the scanning fit test of the branch pushed on the continuation.
pub proof fn lemma_summary_decides(
    width: u32,
    column: u32,
    cont: Seq<FrameModel>,
    f: FrameModel,
    s: FitSummary,
    c: FitSummary,
)
    requires
        summarizes(s, first_stop(f.1)),
        summarizes(c, stream_stop(cont)),
    ensures
        spec_fits_summary(s, c, column, width) == spec_fits(width, column, cont.push(f)),
{
    lemma_stream_push(cont, f);
    lemma_compose_summarizes(s, c, first_stop(f.1), stream_stop(cont));
    lemma_fits_by_summary(width, column, cont.push(f));
}

/// The summaries of a document, one per node, in the document's shape: a
/// leaf for text, lines and empty documents, one child under a node with
/// one child, two under a concatenation or a choice.
#[derive(Debug)]
pub enum SumTree {
    /// A node without children.
    Leaf(FitSummary),
    /// A node with one child.
    One(FitSummary, Rc<SumTree>),
    /// A node with two children.
    Two(FitSummary, Rc<SumTree>, Rc<SumTree>),
}

impl SumTree {
    /// The summary at the root.
    pub open spec fn spec_summary(&self) -> FitSummary {
        match *self {
            SumTree::Leaf(s) => s,
            SumTree::One(s, _) => s,
            SumTree::Two(s, _, _) => s,
        }
    }

    /// The summary at the root.
    pub fn summary(&self) -> (r: FitSummary)
        ensures
            r == self.spec_summary(),
    {
        match self {
            SumTree::Leaf(s) => *s,
            SumTree::One(s, _) => *s,
            SumTree::Two(s, _, _) => *s,
        }
    }
}

/// `t` holds the summary of every node of `d`, in `d`'s shape.
pub open spec fn summarizes_doc(t: SumTree, d: DocModel) -> bool
    decreases d,
{
    &&& summarizes(t.spec_summary(), first_stop(d))
    &&& match d {
        DocModel::Concat(a, b) => t is Two && summarizes_doc(*t->Two_1, *a) && summarizes_doc(*t->Two_2, *b),
        DocModel::Choice(a, b) => t is Two && summarizes_doc(*t->Two_1, *a) && summarizes_doc(*t->Two_2, *b),
        DocModel::Nest(_, x) => t is One && summarizes_doc(*t->One_1, *x),
        DocModel::Align(x) => t is One && summarizes_doc(*t->One_1, *x),
        DocModel::Tag(_, x) => t is One && summarizes_doc(*t->One_1, *x),
        DocModel::Penalty(_, x) => t is One && summarizes_doc(*t->One_1, *x),
        _ => t is Leaf,
    }
}

/// Every cached tree summarizes its document.
pub open spec fn trees_cached(cache: Seq<(Rc<Doc>, Rc<SumTree>)>) -> bool {
    forall|i: int| 0 <= i < cache.len() ==> summarizes_doc(*(#[trigger] cache[i]).1, cache[i].0@)
}

/// The tree cached for the allocation of `d`, if any.
fn cached_tree(d: &Rc<Doc>, cache: &Vec<(Rc<Doc>, Rc<SumTree>)>) -> (r: Option<Rc<SumTree>>)
    requires
        trees_cached(cache@),
    ensures
        r matches Some(t) ==> summarizes_doc(*t, d@),
{
    let mut i: usize = 0;
    while i < cache.len()
        invariant
            0 <= i <= cache.len(),
            trees_cached(cache@),
        decreases cache.len() - i,
    {
        if crate::same_allocation(&cache[i].0, d) {
            return Some(crate::share(&cache[i].1));
        }
        i = i + 1;
    }
    None
}

/// Builds the summary tree of `d`, bottom up; a subdocument shared by
/// several handles is summarized once.
pub fn build_source(d: &Rc<Doc>, cache: &mut Vec<(Rc<Doc>, Rc<SumTree>)>) -> (r: Rc<SumTree>)
    requires
        trees_cached(old(cache)@),
    ensures
        summarizes_doc(*r, d@),
        trees_cached(final(cache)@),
    decreases *d,
{
    let shared = crate::handle_count(d) > 1;
    if shared {
        match cached_tree(d, cache) {
            Some(t) => {
                return t;
            },
            None => {},
        }
    }
    let r = match &**d {
        Doc::Empty => Rc::new(SumTree::Leaf(empty_summary())),
        Doc::Text(run) => Rc::new(
            SumTree::Leaf(FitSummary { columns: run.columns() as u64, texts: true, stops: false }),
        ),
        Doc::Line { .. } => Rc::new(SumTree::Leaf(FitSummary { columns: 0, texts: false, stops: true })),
        Doc::Concat(a, b) => {
            let ta = build_source(a, cache);
            let tb = build_source(b, cache);
            proof {
                lemma_compose_summarizes(ta.spec_summary(), tb.spec_summary(), first_stop(a@), first_stop(b@));
            }
            let s = compose(ta.summary(), tb.summary());
            Rc::new(SumTree::Two(s, ta, tb))
        },
        Doc::Choice(p, q) => {
            let tp = build_source(p, cache);
            let tq = build_source(q, cache);
            let s = tp.summary();
            Rc::new(SumTree::Two(s, tp, tq))
        },
        Doc::Nest(_, x) | Doc::Align(x) => {
            let tx = build_source(x, cache);
            let s = tx.summary();
            Rc::new(SumTree::One(s, tx))
        },
        Doc::Tag(_, x) => {
            let tx = build_source(x, cache);
            let s = tx.summary();
            Rc::new(SumTree::One(s, tx))
        },
        Doc::Penalty { doc: x, .. } => {
            let tx = build_source(x, cache);
            let s = tx.summary();
            Rc::new(SumTree::One(s, tx))
        },
    };
    if shared {
        let ghost before = cache@;
        cache.push((crate::share(d), crate::share(&r)));
        assert forall|i: int| 0 <= i < cache@.len() implies summarizes_doc(
            *(#[trigger] cache@[i]).1,
            cache@[i].0@,
        ) by {
            if i < before.len() {
                assert(cache@[i] == before[i]);
            }
        }
    }
    r
}

} // verus!
