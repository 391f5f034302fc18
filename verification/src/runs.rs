//! Splitting a rendering into runs of text between annotation boundaries,
//! each with the tags of the spans that cover it.
use crate::doc::TagId;
use crate::render::Rendered;
use crate::research::AnnotationSpan;
use vstd::prelude::*;
use vstd::string::StringSliceAdditionalSpecFns;
use vstd::utf8::{decode_utf8, encode_utf8, encode_utf8_decode_utf8, is_char_boundary};

verus! {

/// A maximal piece of rendered text inside which no annotation starts or
/// ends, with the tags of the spans that cover it, outermost first.
#[derive(Clone, Debug, PartialEq, Eq)]
pub struct AnnotatedRun {
    /// The text of the run.
    pub text: String,
    /// First UTF-8 byte of the run.
    pub start: usize,
    /// One past the last UTF-8 byte of the run.
    pub end: usize,
    /// Tags of the covering spans, in span order.
    pub tags: Vec<TagId>,
}

/// `s` is strictly increasing.
pub open spec fn strictly_increasing(s: Seq<usize>) -> bool {
    forall|i: int, j: int| 0 <= i < j < s.len() ==> s[i] < s[j]
}

/// `b` is the start or the end of span `i`.
pub open spec fn ends_span(spans: Seq<AnnotationSpan>, i: int, b: usize) -> bool {
    spans[i].start == b || spans[i].end == b
}

/// `b` is a run boundary: either end of the text, or an end of a span.
pub open spec fn is_run_bound(len: usize, spans: Seq<AnnotationSpan>, b: usize) -> bool {
    b == 0 || b == len || exists|i: int| 0 <= i < spans.len() && #[trigger] ends_span(spans, i, b)
}

/// `runs` split `text` at the sorted boundaries `bounds`.
pub open spec fn runs_of(
    runs: Seq<AnnotatedRun>,
    text: Seq<char>,
    spans: Seq<AnnotationSpan>,
    bounds: Seq<usize>,
) -> bool {
    let bytes = encode_utf8(text);
    &&& strictly_increasing(bounds)
    &&& forall|b: usize| #[trigger] bounds.contains(b) <==> is_run_bound(bytes.len() as usize, spans, b)
    &&& runs_between(runs, bytes, spans, bounds)
}

/// The tags of the spans that cover the byte range `start..end`, in span
/// order.
pub open spec fn covering_tags(spans: Seq<AnnotationSpan>, start: usize, end: usize) -> Seq<TagId>
    decreases spans.len(),
{
    if spans.len() == 0 {
        seq![]
    } else {
        let rest = covering_tags(spans.drop_last(), start, end);
        let s = spans.last();
        if s.start <= start && end <= s.end {
            rest.push(s.tag)
        } else {
            rest
        }
    }
}

/// The characters of the bytes `start..end` of `bytes`, or nothing when
/// the range does not lie on character boundaries inside `bytes`.
pub open spec fn run_text(bytes: Seq<u8>, start: usize, end: usize) -> Seq<char> {
    if start <= end <= bytes.len() && is_char_boundary(bytes, start as int) && is_char_boundary(
        bytes,
        end as int,
    ) {
        decode_utf8(bytes.subrange(start as int, end as int))
    } else {
        seq![]
    }
}

/// `run` is the run of `start..end` of the text encoded by `bytes`.
pub open spec fn is_run(
    run: AnnotatedRun,
    bytes: Seq<u8>,
    spans: Seq<AnnotationSpan>,
    start: usize,
    end: usize,
) -> bool {
    &&& run.start == start
    &&& run.end == end
    &&& run.text@ == run_text(bytes, start, end)
    &&& run.tags@ == covering_tags(spans, start, end)
}

/// `runs` are the runs between consecutive boundaries `bounds`.
pub open spec fn runs_between(
    runs: Seq<AnnotatedRun>,
    bytes: Seq<u8>,
    spans: Seq<AnnotationSpan>,
    bounds: Seq<usize>,
) -> bool {
    &&& runs.len() + 1 == bounds.len()
    &&& forall|i: int| 0 <= i < runs.len() ==> #[trigger] is_run(runs[i], bytes, spans, bounds[i], bounds[i + 1])
}

/// The subslice of `s` of the bytes `start..end` (`str::get` with a byte
/// range): present exactly when the range is ordered, inside `s` and on
/// character boundaries, and then made of those bytes.
#[verifier::external_body]
fn byte_range(s: &str, start: usize, end: usize) -> (r: Option<&str>)
    ensures
        r is Some <==> (start <= end <= s.spec_bytes().len() && is_char_boundary(
            s.spec_bytes(),
            start as int,
        ) && is_char_boundary(s.spec_bytes(), end as int)),
        r matches Some(t) ==> t.spec_bytes() == s.spec_bytes().subrange(start as int, end as int),
{
    s.get(start..end)
}

/// Inserts `x` into the strictly increasing `v`, keeping it so.
fn insert_bound(v: Vec<usize>, x: usize) -> (r: Vec<usize>)
    requires
        strictly_increasing(v@),
    ensures
        strictly_increasing(r@),
        forall|b: usize| r@.contains(b) <==> (v@.contains(b) || b == x),
{
    let mut i: usize = 0;
    while i < v.len() && v[i] < x
        invariant
            i <= v@.len(),
            forall|j: int| 0 <= j < i ==> v@[j] < x,
        decreases v@.len() - i,
    {
        i = i + 1;
    }
    if i < v.len() && v[i] == x {
        assert(v@[i as int] == x);
        return v;
    }
    let ghost old_v = v@;
    let mut r = v;
    r.insert(i, x);
    proof {
        assert(r@ == old_v.insert(i as int, x));
        assert forall|j: int| i < j < old_v.len() implies old_v[j] > x by {
            assert(old_v[i as int] < old_v[j]);
        }
        assert forall|a: int, b: int| 0 <= a < b < r@.len() implies r@[a] < r@[b] by {
            if b < i {
            } else if b == i {
            } else if a < i {
                assert(old_v[a] < x);
            } else if a == i {
            } else {
                assert(old_v[a - 1] < old_v[b - 1]);
            }
        }
        assert forall|b: usize| r@.contains(b) <==> (old_v.contains(b) || b == x) by {
            if r@.contains(b) {
                let k = choose|k: int| 0 <= k < r@.len() && r@[k] == b;
                if k < i {
                    assert(old_v[k] == b);
                } else if k > i {
                    assert(old_v[k - 1] == b);
                }
            }
            if old_v.contains(b) {
                let k = choose|k: int| 0 <= k < old_v.len() && old_v[k] == b;
                if k < i {
                    assert(r@[k] == b);
                } else {
                    assert(r@[k + 1] == b);
                }
            }
            if b == x {
                assert(r@[i as int] == b);
            }
        }
    }
    r
}

/// The tags of the spans covering `start..end`.
fn tags_covering(spans: &Vec<AnnotationSpan>, start: usize, end: usize) -> (r: Vec<TagId>)
    ensures
        r@ == covering_tags(spans@, start, end),
{
    let mut tags: Vec<TagId> = Vec::new();
    let mut j: usize = 0;
    while j < spans.len()
        invariant
            j <= spans@.len(),
            tags@ == covering_tags(spans@.take(j as int), start, end),
        decreases spans@.len() - j,
    {
        assert(spans@.take(j as int + 1).drop_last() == spans@.take(j as int));
        let s = &spans[j];
        if s.start <= start && end <= s.end {
            tags.push(s.tag);
        }
        j = j + 1;
    }
    assert(spans@.take(spans@.len() as int) == spans@);
    tags
}

impl Rendered {
    /// Splits the text at every annotation boundary and pairs each
    /// nonempty piece with the tags of the spans covering it.
    pub fn annotated_runs(&self) -> (r: Vec<AnnotatedRun>)
        ensures
            self.spec_text().len() == 0 ==> r@.len() == 0,
            self.spec_text().len() > 0 ==> exists|bounds: Seq<usize>|
                #[trigger] runs_of(r@, self.spec_text(), self.spec_spans(), bounds),
    {
        let text = self.text();
        let spans = self.spans();
        if text.is_empty() {
            return Vec::new();
        }
        let ghost bytes = text.spec_bytes();
        let len = text.len();
        let mut bounds: Vec<usize> = Vec::new();
        bounds = insert_bound(bounds, 0);
        bounds = insert_bound(bounds, len);
        let mut i: usize = 0;
        while i < spans.len()
            invariant
                i <= spans@.len(),
                strictly_increasing(bounds@),
                forall|b: usize|
                    #[trigger] bounds@.contains(b) <==> (b == 0 || b == len || exists|k: int|
                        0 <= k < i && #[trigger] ends_span(spans@, k, b)),
            decreases spans@.len() - i,
        {
            bounds = insert_bound(bounds, spans[i].start);
            bounds = insert_bound(bounds, spans[i].end);
            proof {
                assert forall|b: usize| #[trigger] bounds@.contains(b) <==> (b == 0 || b == len || exists|k: int|
                    0 <= k < i + 1 && #[trigger] ends_span(spans@, k, b)) by {
                    if ends_span(spans@, i as int, b) {
                        assert(0 <= i < i + 1);
                    }
                    if exists|k: int| 0 <= k < i + 1 && #[trigger] ends_span(spans@, k, b) {
                        let k = choose|k: int| 0 <= k < i + 1 && #[trigger] ends_span(spans@, k, b);
                        if k < i {
                            assert(0 <= k < i && ends_span(spans@, k, b));
                        }
                    }
                }
            }
            i = i + 1;
        }
        assert(bounds@.contains(0usize));
        let last = bounds.len() - 1;
        let mut runs: Vec<AnnotatedRun> = Vec::new();
        let mut k: usize = 0;
        while k < last
            invariant
                strictly_increasing(bounds@),
                last + 1 == bounds@.len(),
                k <= last,
                runs@.len() == k,
                bytes == text.spec_bytes(),
                forall|j: int|
                    0 <= j < k ==> #[trigger] is_run(runs@[j], bytes, spans@, bounds@[j], bounds@[j + 1]),
            decreases bounds@.len() - k,
        {
            let start = bounds[k];
            let end = bounds[k + 1];
            let piece = match byte_range(text, start, end) {
                Some(t) => {
                    proof {
                        encode_utf8_decode_utf8(t@);
                    }
                    t.to_owned()
                },
                None => String::new(),
            };
            let tags = tags_covering(spans, start, end);
            runs.push(AnnotatedRun { text: piece, start, end, tags });
            k = k + 1;
        }
        proof {
            assert(bounds@.contains(0usize));
            assert(runs_of(runs@, text@, spans@, bounds@));
        }
        runs
    }
}

} // verus!
