//! JSON formatter: arrays and objects are groups that the layout engine
//! keeps on one line or breaks one item per line.
use crate::corpus::quote::{quote, quoted};
use crate::doc::{
    concat, group, join, line, models, nest, softline, space_model, spec_concat, spec_group, spec_join,
    tag, Doc, DocModel, TagId, TextModel, TextRun,
};
use crate::research::push_char;
use crate::tags;
use std::rc::Rc;
use vstd::prelude::*;

verus! {

/// Tag of object keys.
pub const TAG_KEY: TagId = tags::CUSTOM_START;

/// Tag of string values.
pub const TAG_STRING: TagId = tags::CUSTOM_START + 1;

/// Tag of numbers.
pub const TAG_NUMBER: TagId = tags::CUSTOM_START + 2;

/// Tag of booleans.
pub const TAG_BOOL: TagId = tags::CUSTOM_START + 3;

/// Tag of punctuation.
pub const TAG_PUNCT: TagId = tags::CUSTOM_START + 4;

/// Indentation of nested items.
pub const INDENT: u16 = 2;

/// A JSON value; object entries keep their order.
#[derive(Debug)]
pub enum Value {
    /// `null`.
    Null,
    /// A boolean.
    Bool(bool),
    /// An integer.
    Int(i64),
    /// A string.
    Str(String),
    /// An array.
    Arr(Vec<Value>),
    /// An object.
    Obj(Vec<(String, Value)>),
}

/// A JSON value with its strings as characters.
pub enum ValueModel {
    /// `null`.
    Null,
    /// A boolean.
    Bool(bool),
    /// An integer.
    Int(i64),
    /// A string.
    Str(Seq<char>),
    /// An array.
    Arr(Seq<ValueModel>),
    /// An object.
    Obj(Seq<(Seq<char>, ValueModel)>),
}

/// The model of a value.
pub open spec fn value_model(v: Value) -> ValueModel
    decreases v,
{
    match v {
        Value::Null => ValueModel::Null,
        Value::Bool(b) => ValueModel::Bool(b),
        Value::Int(n) => ValueModel::Int(n),
        Value::Str(s) => ValueModel::Str(s@),
        Value::Arr(items) => {
            proof {
                assert(decreases_to!(v => items));
                assert(decreases_to!(items => items@));
            }
            ValueModel::Arr(item_models(items@))
        },
        Value::Obj(entries) => {
            proof {
                assert(decreases_to!(v => entries));
                assert(decreases_to!(entries => entries@));
            }
            ValueModel::Obj(entry_models(entries@))
        },
    }
}

/// The models of array items.
pub open spec fn item_models(items: Seq<Value>) -> Seq<ValueModel>
    decreases items,
{
    if items.len() == 0 {
        seq![]
    } else {
        let front = items.subrange(0, items.len() - 1);
        proof {
            assert(decreases_to!(items => front));
            assert(decreases_to!(items => items[items.len() - 1]));
        }
        item_models(front).push(value_model(items[items.len() - 1]))
    }
}

/// The models of object entries.
pub open spec fn entry_models(entries: Seq<(String, Value)>) -> Seq<(Seq<char>, ValueModel)>
    decreases entries,
{
    if entries.len() == 0 {
        seq![]
    } else {
        let front = entries.subrange(0, entries.len() - 1);
        let last = entries[entries.len() - 1];
        proof {
            assert(decreases_to!(entries => front));
            assert(decreases_to!(entries => last));
            assert(decreases_to!(last => last.1));
        }
        entry_models(front).push((last.0@, value_model(last.1)))
    }
}

impl View for Value {
    type V = ValueModel;

    open spec fn view(&self) -> ValueModel {
        value_model(*self)
    }
}

/// The decimal digits of `n`.
pub open spec fn digits(n: nat) -> Seq<char>
    decreases n,
{
    if n < 10 {
        seq![crate::corpus::quote::hex_digit(n)]
    } else {
        digits(n / 10).push(crate::corpus::quote::hex_digit(n % 10))
    }
}

/// The decimal representation of `n`, with a minus sign when negative.
pub open spec fn decimal(n: int) -> Seq<char> {
    if n < 0 {
        seq!['-'] + digits((-n) as nat)
    } else {
        digits(n as nat)
    }
}

/// Printable ASCII text, one column per character.
pub open spec fn ascii_text(s: Seq<char>) -> DocModel {
    DocModel::Text(TextModel { value: s, columns: s.len() as u32 })
}

/// Punctuation.
pub open spec fn punct(s: Seq<char>) -> DocModel {
    DocModel::Tag(TAG_PUNCT, Box::new(ascii_text(s)))
}

/// A string under `t`, quoted and escaped.
pub open spec fn string_doc(s: Seq<char>, t: TagId) -> DocModel {
    DocModel::Tag(t, Box::new(ascii_text(quoted(s))))
}

/// A comma and a break.
pub open spec fn comma_line() -> DocModel {
    DocModel::Concat(Box::new(punct(","@)), Box::new(DocModel::Line(Some(space_model()))))
}

/// Items between brackets: the brackets alone when there are none, else a
/// group that breaks after the opening bracket, between items and before
/// the closing bracket.
pub open spec fn bracketed(open: Seq<char>, close: Seq<char>, items: Seq<DocModel>) -> DocModel {
    let ghost soft = DocModel::Line(Some(TextModel { value: seq![], columns: 0 }));
    if items.len() == 0 {
        punct(open + close)
    } else {
        spec_group(
            spec_concat(
                seq![
                    punct(open),
                    DocModel::Nest(INDENT, Box::new(spec_concat(seq![soft, spec_join(comma_line(), items)]))),
                    soft,
                    punct(close),
                ],
            ),
        )
    }
}

/// The document of a value.
pub open spec fn value_doc(v: ValueModel) -> DocModel
    decreases v,
{
    match v {
        ValueModel::Null => ascii_text("null"@),
        ValueModel::Bool(b) => DocModel::Tag(
            TAG_BOOL,
            Box::new(
                ascii_text(
                    if b {
                        "true"@
                    } else {
                        "false"@
                    },
                ),
            ),
        ),
        ValueModel::Int(n) => DocModel::Tag(TAG_NUMBER, Box::new(ascii_text(decimal(n as int)))),
        ValueModel::Str(s) => string_doc(s, TAG_STRING),
        ValueModel::Arr(items) => bracketed("["@, "]"@, item_docs(items)),
        ValueModel::Obj(entries) => bracketed("{"@, "}"@, entry_docs(entries)),
    }
}

/// The documents of array items.
pub open spec fn item_docs(items: Seq<ValueModel>) -> Seq<DocModel>
    decreases items,
{
    if items.len() == 0 {
        seq![]
    } else {
        let front = items.subrange(0, items.len() - 1);
        proof {
            assert(decreases_to!(items => front));
            assert(decreases_to!(items => items[items.len() - 1]));
        }
        item_docs(front).push(value_doc(items[items.len() - 1]))
    }
}

/// The documents of object entries: the quoted key, a colon, a space and
/// the value, grouped.
pub open spec fn entry_docs(entries: Seq<(Seq<char>, ValueModel)>) -> Seq<DocModel>
    decreases entries,
{
    if entries.len() == 0 {
        seq![]
    } else {
        let front = entries.subrange(0, entries.len() - 1);
        let last = entries[entries.len() - 1];
        proof {
            assert(decreases_to!(entries => front));
            assert(decreases_to!(entries => last));
            assert(decreases_to!(last => last.1));
        }
        entry_docs(front).push(
            spec_group(spec_concat(seq![string_doc(last.0, TAG_KEY), punct(":"@), ascii_text(" "@), value_doc(last.1)])),
        )
    }
}

/// Every string of a value fits a quoted text run.
pub open spec fn value_ok(v: ValueModel) -> bool
    decreases v,
{
    match v {
        ValueModel::Str(s) => 10 * s.len() + 2 <= u32::MAX,
        ValueModel::Arr(items) => items_ok(items),
        ValueModel::Obj(entries) => entries_ok(entries),
        _ => true,
    }
}

/// Every string of some array items fits a quoted text run.
pub open spec fn items_ok(items: Seq<ValueModel>) -> bool
    decreases items,
{
    if items.len() == 0 {
        true
    } else {
        let front = items.subrange(0, items.len() - 1);
        proof {
            assert(decreases_to!(items => front));
            assert(decreases_to!(items => items[items.len() - 1]));
        }
        items_ok(front) && value_ok(items[items.len() - 1])
    }
}

/// Every string of some object entries fits a quoted text run.
pub open spec fn entries_ok(entries: Seq<(Seq<char>, ValueModel)>) -> bool
    decreases entries,
{
    if entries.len() == 0 {
        true
    } else {
        let front = entries.subrange(0, entries.len() - 1);
        let last = entries[entries.len() - 1];
        proof {
            assert(decreases_to!(entries => front));
            assert(decreases_to!(entries => last));
            assert(decreases_to!(last => last.1));
        }
        entries_ok(front) && 10 * last.0.len() + 2 <= u32::MAX && value_ok(last.1)
    }
}

proof fn lemma_item_models(s: Seq<Value>)
    ensures
        item_models(s).len() == s.len(),
        forall|i: int| 0 <= i < s.len() ==> #[trigger] item_models(s)[i] == value_model(s[i]),
    decreases s.len(),
{
    if s.len() > 0 {
        let front = s.subrange(0, s.len() - 1);
        lemma_item_models(front);
        assert forall|i: int| 0 <= i < s.len() implies #[trigger] item_models(s)[i] == value_model(s[i]) by {
            if i < s.len() - 1 {
                assert(front[i] == s[i]);
            }
        }
    }
}

proof fn lemma_entry_models(s: Seq<(String, Value)>)
    ensures
        entry_models(s).len() == s.len(),
        forall|i: int| 0 <= i < s.len() ==> #[trigger] entry_models(s)[i] == (s[i].0@, value_model(s[i].1)),
    decreases s.len(),
{
    if s.len() > 0 {
        let front = s.subrange(0, s.len() - 1);
        lemma_entry_models(front);
        assert forall|i: int| 0 <= i < s.len() implies #[trigger] entry_models(s)[i] == (s[i].0@, value_model(s[i].1)) by {
            if i < s.len() - 1 {
                assert(front[i] == s[i]);
            }
        }
    }
}

proof fn lemma_item_docs(s: Seq<ValueModel>)
    ensures
        item_docs(s).len() == s.len(),
        forall|i: int| 0 <= i < s.len() ==> #[trigger] item_docs(s)[i] == value_doc(s[i]),
        items_ok(s) <==> forall|i: int| 0 <= i < s.len() ==> value_ok(#[trigger] s[i]),
    decreases s.len(),
{
    if s.len() > 0 {
        let front = s.subrange(0, s.len() - 1);
        lemma_item_docs(front);
        assert forall|i: int| 0 <= i < s.len() implies #[trigger] item_docs(s)[i] == value_doc(s[i]) by {
            if i < s.len() - 1 {
                assert(front[i] == s[i]);
            }
        }
        if forall|i: int| 0 <= i < s.len() ==> value_ok(#[trigger] s[i]) {
            assert forall|i: int| 0 <= i < front.len() implies value_ok(#[trigger] front[i]) by {
                assert(front[i] == s[i]);
            }
        }
        if items_ok(s) {
            assert forall|i: int| 0 <= i < s.len() implies value_ok(#[trigger] s[i]) by {
                if i < s.len() - 1 {
                    assert(front[i] == s[i]);
                }
            }
        }
    }
}

proof fn lemma_entry_docs(s: Seq<(Seq<char>, ValueModel)>)
    ensures
        entry_docs(s).len() == s.len(),
        forall|i: int|
            0 <= i < s.len() ==> #[trigger] entry_docs(s)[i] == spec_group(
                spec_concat(seq![string_doc(s[i].0, TAG_KEY), punct(":"@), ascii_text(" "@), value_doc(s[i].1)]),
            ),
        entries_ok(s) <==> forall|i: int|
            0 <= i < s.len() ==> 10 * (#[trigger] s[i]).0.len() + 2 <= u32::MAX && value_ok(s[i].1),
    decreases s.len(),
{
    if s.len() > 0 {
        let front = s.subrange(0, s.len() - 1);
        lemma_entry_docs(front);
        assert forall|i: int| 0 <= i < s.len() implies #[trigger] entry_docs(s)[i] == spec_group(
            spec_concat(seq![string_doc(s[i].0, TAG_KEY), punct(":"@), ascii_text(" "@), value_doc(s[i].1)]),
        ) by {
            if i < s.len() - 1 {
                assert(front[i] == s[i]);
            }
        }
        if forall|i: int| 0 <= i < s.len() ==> 10 * (#[trigger] s[i]).0.len() + 2 <= u32::MAX && value_ok(s[i].1) {
            assert forall|i: int| 0 <= i < front.len() implies 10 * (#[trigger] front[i]).0.len() + 2 <= u32::MAX
                && value_ok(front[i].1) by {
                assert(front[i] == s[i]);
            }
        }
        if entries_ok(s) {
            assert forall|i: int| 0 <= i < s.len() implies 10 * (#[trigger] s[i]).0.len() + 2 <= u32::MAX && value_ok(
                s[i].1,
            ) by {
                if i < s.len() - 1 {
                    assert(front[i] == s[i]);
                }
            }
        }
    }
}

/// Ten to the power `k`.
pub open spec fn pow10(k: nat) -> nat
    decreases k,
{
    if k == 0 {
        1
    } else {
        10 * pow10((k - 1) as nat)
    }
}

pub(crate) proof fn lemma_digits(n: nat, k: nat)
    requires
        n < pow10(k),
    ensures
        digits(n).len() <= k + 1,
        crate::doc::is_printable_ascii(digits(n)),
    decreases n,
{
    if n >= 10 {
        assert(k >= 1);
        assert(n / 10 < pow10((k - 1) as nat));
        lemma_digits(n / 10, (k - 1) as nat);
        let d = digits(n / 10);
        assert forall|i: int| 0 <= i < digits(n).len() implies 0x20 <= (#[trigger] digits(n)[i]) as u32 <= 0x7e by {
            if i < d.len() {
                assert(digits(n)[i] == d[i]);
            }
        }
    }
}

fn digit_char(n: u64) -> (r: char)
    requires
        n < 10,
    ensures
        r == crate::corpus::quote::hex_digit(n as nat),
{
    if n == 0 {
        '0'
    } else if n == 1 {
        '1'
    } else if n == 2 {
        '2'
    } else if n == 3 {
        '3'
    } else if n == 4 {
        '4'
    } else if n == 5 {
        '5'
    } else if n == 6 {
        '6'
    } else if n == 7 {
        '7'
    } else if n == 8 {
        '8'
    } else {
        '9'
    }
}

pub(crate) fn push_digits(out: &mut String, n: u64)
    ensures
        final(out)@ == old(out)@ + digits(n as nat),
    decreases n,
{
    if n >= 10 {
        push_digits(out, n / 10);
    }
    push_char(out, digit_char(n % 10));
    assert(final(out)@ =~= old(out)@ + digits(n as nat));
}

/// The decimal representation of `n`.
fn decimal_string(n: i64) -> (r: String)
    ensures
        r@ == decimal(n as int),
        crate::doc::is_printable_ascii(r@),
        r@.len() <= 22,
{
    let mut out = String::new();
    let magnitude: u64 = if n < 0 {
        push_char(&mut out, '-');
        (0i128 - n as i128) as u64
    } else {
        n as u64
    };
    push_digits(&mut out, magnitude);
    proof {
        reveal_with_fuel(pow10, 21);
        assert(magnitude < pow10(20));
        lemma_digits(magnitude as nat, 20);
        let ds = digits(magnitude as nat);
        if n < 0 {
            assert(out@ =~= seq!['-'] + ds);
            assert forall|i: int| 0 <= i < out@.len() implies 0x20 <= (#[trigger] out@[i]) as u32 <= 0x7e by {
                if i > 0 {
                    assert(out@[i] == ds[i - 1]);
                }
            }
        } else {
            assert(out@ =~= ds);
        }
    }
    out
}

/// Printable ASCII text under `t`.
fn ascii_tagged(t: TagId, value: &str) -> (r: Rc<Doc>)
    requires
        crate::doc::is_printable_ascii(value@),
        value@.len() <= u32::MAX,
    ensures
        r@ == DocModel::Tag(t, Box::new(ascii_text(value@))),
{
    tag(t, Rc::new(Doc::Text(TextRun::trusted_ascii(value))))
}

/// Printable ASCII text.
fn ascii_plain(value: &str) -> (r: Rc<Doc>)
    requires
        crate::doc::is_printable_ascii(value@),
        value@.len() <= u32::MAX,
    ensures
        r@ == ascii_text(value@),
{
    Rc::new(Doc::Text(TextRun::trusted_ascii(value)))
}

fn punct_open_bracket() -> (r: Rc<Doc>)
    ensures
        r@ == punct("["@),
{
    let s = "[";
    proof {
        reveal_strlit("[");
        assert(s@ =~= seq!['[']);
    }
    ascii_tagged(TAG_PUNCT, s)
}

fn punct_close_bracket() -> (r: Rc<Doc>)
    ensures
        r@ == punct("]"@),
{
    let s = "]";
    proof {
        reveal_strlit("]");
        assert(s@ =~= seq![']']);
    }
    ascii_tagged(TAG_PUNCT, s)
}

fn punct_open_brace() -> (r: Rc<Doc>)
    ensures
        r@ == punct("{"@),
{
    let s = "{";
    proof {
        reveal_strlit("{");
        assert(s@ =~= seq!['{']);
    }
    ascii_tagged(TAG_PUNCT, s)
}

fn punct_close_brace() -> (r: Rc<Doc>)
    ensures
        r@ == punct("}"@),
{
    let s = "}";
    proof {
        reveal_strlit("}");
        assert(s@ =~= seq!['}']);
    }
    ascii_tagged(TAG_PUNCT, s)
}

fn punct_comma() -> (r: Rc<Doc>)
    ensures
        r@ == punct(","@),
{
    let s = ",";
    proof {
        reveal_strlit(",");
        assert(s@ =~= seq![',']);
    }
    ascii_tagged(TAG_PUNCT, s)
}

fn punct_colon() -> (r: Rc<Doc>)
    ensures
        r@ == punct(":"@),
{
    let s = ":";
    proof {
        reveal_strlit(":");
        assert(s@ =~= seq![':']);
    }
    ascii_tagged(TAG_PUNCT, s)
}

fn plain_null() -> (r: Rc<Doc>)
    ensures
        r@ == ascii_text("null"@),
{
    let s = "null";
    proof {
        reveal_strlit("null");
        assert(s@ =~= seq!['n', 'u', 'l', 'l']);
    }
    ascii_plain(s)
}

fn plain_space() -> (r: Rc<Doc>)
    ensures
        r@ == ascii_text(" "@),
{
    let s = " ";
    proof {
        reveal_strlit(" ");
        assert(s@ =~= seq![' ']);
    }
    ascii_plain(s)
}

fn boolean(b: bool) -> (r: Rc<Doc>)
    ensures
        r@ == DocModel::Tag(TAG_BOOL, Box::new(ascii_text(if b { "true"@ } else { "false"@ }))),
{
    if b {
        let s = "true";
        proof {
            reveal_strlit("true");
            assert(s@ =~= seq!['t', 'r', 'u', 'e']);
        }
        ascii_tagged(TAG_BOOL, s)
    } else {
        let s = "false";
        proof {
            reveal_strlit("false");
            assert(s@ =~= seq!['f', 'a', 'l', 's', 'e']);
        }
        ascii_tagged(TAG_BOOL, s)
    }
}

fn quoted_string(value: &str, t: TagId) -> (r: Rc<Doc>)
    requires
        10 * value@.len() + 2 <= u32::MAX,
    ensures
        r@ == string_doc(value@, t),
{
    let q = quote(value);
    ascii_tagged(t, q.as_str())
}

fn comma_break() -> (r: Rc<Doc>)
    ensures
        r@ == comma_line(),
{
    crate::doc::concat2(punct_comma(), line())
}

/// `items` between brackets, as [`bracketed`] describes.
fn bracket(open: Rc<Doc>, close: Rc<Doc>, both: Rc<Doc>, items: Vec<Rc<Doc>>) -> (r: Rc<Doc>)
    ensures
        forall|o: Seq<char>, c: Seq<char>|
            open@ == punct(o) && close@ == punct(c) && both@ == punct(o + c) ==> r@ == bracketed(o, c, models(items@)),
{
    if items.len() == 0 {
        return both;
    }
    let ghost ms = models(items@);
    let inner_parts = vec![softline(), join(comma_break(), items)];
    let ghost soft = DocModel::Line(Some(TextModel { value: seq![], columns: 0 }));
    assert(models(inner_parts@) =~= seq![soft, spec_join(comma_line(), ms)]);
    let inner = concat(inner_parts);
    let ghost open_m = open@;
    let ghost close_m = close@;
    let parts = vec![open, nest(INDENT, inner), softline(), close];
    assert(models(parts@) =~= seq![
        open_m,
        DocModel::Nest(INDENT, Box::new(spec_concat(seq![soft, spec_join(comma_line(), ms)]))),
        soft,
        close_m,
    ]);
    group(concat(parts))
}

fn brackets() -> (r: (Rc<Doc>, Rc<Doc>, Rc<Doc>))
    ensures
        r.0@ == punct("["@),
        r.1@ == punct("]"@),
        r.2@ == punct("["@ + "]"@),
{
    let s = "[]";
    proof {
        reveal_strlit("[]");
        reveal_strlit("[");
        reveal_strlit("]");
        assert(s@ =~= seq!['[', ']']);
        assert(s@ =~= "["@ + "]"@);
    }
    (punct_open_bracket(), punct_close_bracket(), ascii_tagged(TAG_PUNCT, s))
}

fn braces() -> (r: (Rc<Doc>, Rc<Doc>, Rc<Doc>))
    ensures
        r.0@ == punct("{"@),
        r.1@ == punct("}"@),
        r.2@ == punct("{"@ + "}"@),
{
    let s = "{}";
    proof {
        reveal_strlit("{}");
        reveal_strlit("{");
        reveal_strlit("}");
        assert(s@ =~= seq!['{', '}']);
        assert(s@ =~= "{"@ + "}"@);
    }
    (punct_open_brace(), punct_close_brace(), ascii_tagged(TAG_PUNCT, s))
}

/// The document of a value: arrays and objects are groups that stay on
/// one line when they fit and otherwise put each item on its own indented
/// line.
pub fn format(v: &Value) -> (r: Rc<Doc>)
    requires
        value_ok(v@),
    ensures
        r@ == value_doc(v@),
    decreases v, 1nat,
{
    match v {
        Value::Null => plain_null(),
        Value::Bool(b) => boolean(*b),
        Value::Int(n) => {
            let d = decimal_string(*n);
            ascii_tagged(TAG_NUMBER, d.as_str())
        },
        Value::Str(s) => quoted_string(s.as_str(), TAG_STRING),
        Value::Arr(items) => {
            let docs = format_items(items);
            let (open, close, both) = brackets();
            bracket(open, close, both, docs)
        },
        Value::Obj(entries) => {
            let docs = format_entries(entries);
            let (open, close, both) = braces();
            bracket(open, close, both, docs)
        },
    }
}

fn format_items(items: &Vec<Value>) -> (r: Vec<Rc<Doc>>)
    requires
        items_ok(item_models(items@)),
    ensures
        models(r@) == item_docs(item_models(items@)),
    decreases items, 0nat,
{
    let ghost ms = item_models(items@);
    let ghost target = item_docs(ms);
    proof {
        lemma_item_models(items@);
        lemma_item_docs(ms);
    }
    let mut docs: Vec<Rc<Doc>> = Vec::new();
    let mut j: usize = 0;
    while j < items.len()
        invariant
            j <= items@.len(),
            ms == item_models(items@),
            target == item_docs(ms),
            ms.len() == items@.len(),
            target.len() == items@.len(),
            forall|i: int| 0 <= i < items@.len() ==> #[trigger] ms[i] == items@[i]@,
            forall|i: int| 0 <= i < items@.len() ==> #[trigger] target[i] == value_doc(ms[i]),
            forall|i: int| 0 <= i < items@.len() ==> value_ok(#[trigger] ms[i]),
            models(docs@) == target.take(j as int),
        decreases items@.len() - j,
    {
        proof {
            assert(decreases_to!(items => items@));
            assert(decreases_to!(items@ => items@[j as int]));
            assert(ms[j as int] == items@[j as int]@);
            assert(value_ok(ms[j as int]));
        }
        let d = format(&items[j]);
        let ghost before = docs@;
        docs.push(d);
        assert(models(docs@) =~= models(before).push(target[j as int]));
        assert(target.take(j as int + 1) =~= target.take(j as int).push(target[j as int]));
        j = j + 1;
    }
    assert(target.take(items@.len() as int) =~= target);
    docs
}

fn format_entries(entries: &Vec<(String, Value)>) -> (r: Vec<Rc<Doc>>)
    requires
        entries_ok(entry_models(entries@)),
    ensures
        models(r@) == entry_docs(entry_models(entries@)),
    decreases entries, 0nat,
{
    let ghost es = entry_models(entries@);
    let ghost target = entry_docs(es);
    proof {
        lemma_entry_models(entries@);
        lemma_entry_docs(es);
    }
    let mut docs: Vec<Rc<Doc>> = Vec::new();
    let mut j: usize = 0;
    while j < entries.len()
        invariant
            j <= entries@.len(),
            es == entry_models(entries@),
            target == entry_docs(es),
            es.len() == entries@.len(),
            target.len() == entries@.len(),
            forall|i: int| 0 <= i < entries@.len() ==> #[trigger] es[i] == (entries@[i].0@, entries@[i].1@),
            forall|i: int|
                0 <= i < entries@.len() ==> #[trigger] target[i] == spec_group(
                    spec_concat(
                        seq![string_doc(es[i].0, TAG_KEY), punct(":"@), ascii_text(" "@), value_doc(es[i].1)],
                    ),
                ),
            forall|i: int|
                0 <= i < entries@.len() ==> 10 * (#[trigger] es[i]).0.len() + 2 <= u32::MAX && value_ok(es[i].1),
            models(docs@) == target.take(j as int),
        decreases entries@.len() - j,
    {
        proof {
            assert(decreases_to!(entries => entries@));
            assert(decreases_to!(entries@ => entries@[j as int]));
            assert(decreases_to!(entries@[j as int] => entries@[j as int].1));
        }
        let (key, value) = &entries[j];
        let value_doc_exec = format(value);
        let parts = vec![quoted_string(key.as_str(), TAG_KEY), punct_colon(), plain_space(), value_doc_exec];
        assert(models(parts@) =~= seq![
            string_doc(es[j as int].0, TAG_KEY),
            punct(":"@),
            ascii_text(" "@),
            value_doc(es[j as int].1),
        ]);
        let d = group(concat(parts));
        let ghost before = docs@;
        docs.push(d);
        assert(models(docs@) =~= models(before).push(target[j as int]));
        assert(target.take(j as int + 1) =~= target.take(j as int).push(target[j as int]));
        j = j + 1;
    }
    assert(target.take(entries@.len() as int) =~= target);
    docs
}

/// An array of `items`.
fn array(items: Vec<Value>) -> (r: Value)
    ensures
        r@ == ValueModel::Arr(items@.map_values(|v: Value| v@)),
{
    proof {
        lemma_item_models(items@);
        assert(item_models(items@) =~= items@.map_values(|v: Value| v@));
    }
    Value::Arr(items)
}

/// An object of `entries`.
fn object(entries: Vec<(String, Value)>) -> (r: Value)
    ensures
        r@ == ValueModel::Obj(entries@.map_values(|e: (String, Value)| (e.0@, e.1@))),
{
    proof {
        lemma_entry_models(entries@);
        assert(entry_models(entries@) =~= entries@.map_values(|e: (String, Value)| (e.0@, e.1@)));
    }
    Value::Obj(entries)
}

fn string(s: &str) -> (r: Value)
    ensures
        r@ == ValueModel::Str(s@),
{
    Value::Str(s.to_owned())
}

/// The model of a server entry of [`complex_value`].
pub open spec fn server_model(host: Seq<char>, port: i64) -> ValueModel {
    ValueModel::Obj(seq![("host"@, ValueModel::Str(host)), ("port"@, ValueModel::Int(port))])
}

/// The model of [`complex_value`].
pub open spec fn complex_value_model() -> ValueModel {
    ValueModel::Obj(
        seq![
            ("name"@, ValueModel::Str("Example"@)),
            (
                "config"@,
                ValueModel::Obj(
                    seq![
                        ("timeout"@, ValueModel::Int(30)),
                        ("retries"@, ValueModel::Int(3)),
                        (
                            "servers"@,
                            ValueModel::Arr(seq![server_model("server1"@, 8080), server_model("server2"@, 8081)]),
                        ),
                    ],
                ),
            ),
            ("enabled"@, ValueModel::Bool(true)),
            ("tags"@, ValueModel::Arr(seq![ValueModel::Str("production"@), ValueModel::Str("v2"@)])),
        ],
    )
}

fn server(host: &str, port: i64) -> (r: Value)
    ensures
        r@ == server_model(host@, port),
{
    let entries = vec![("host".to_owned(), string(host)), ("port".to_owned(), Value::Int(port))];
    assert(entries@.map_values(|e: (String, Value)| (e.0@, e.1@)) =~= seq![
        ("host"@, ValueModel::Str(host@)),
        ("port"@, ValueModel::Int(port)),
    ]);
    object(entries)
}

/// A sample configuration document with nested objects and arrays.
pub fn complex_value() -> (r: Value)
    ensures
        r@ == complex_value_model(),
{
    let server_items = vec![server("server1", 8080), server("server2", 8081)];
    assert(server_items@.map_values(|v: Value| v@) =~= seq![
        server_model("server1"@, 8080),
        server_model("server2"@, 8081),
    ]);
    let servers = array(server_items);
    let config_entries = vec![
        ("timeout".to_owned(), Value::Int(30)),
        ("retries".to_owned(), Value::Int(3)),
        ("servers".to_owned(), servers),
    ];
    assert(config_entries@.map_values(|e: (String, Value)| (e.0@, e.1@)) =~= seq![
        ("timeout"@, ValueModel::Int(30)),
        ("retries"@, ValueModel::Int(3)),
        (
            "servers"@,
            ValueModel::Arr(seq![server_model("server1"@, 8080), server_model("server2"@, 8081)]),
        ),
    ]);
    let config = object(config_entries);
    let tag_items = vec![string("production"), string("v2")];
    assert(tag_items@.map_values(|v: Value| v@) =~= seq![ValueModel::Str("production"@), ValueModel::Str("v2"@)]);
    let tags = array(tag_items);
    let entries = vec![
        ("name".to_owned(), string("Example")),
        ("config".to_owned(), config),
        ("enabled".to_owned(), Value::Bool(true)),
        ("tags".to_owned(), tags),
    ];
    assert(entries@.map_values(|e: (String, Value)| (e.0@, e.1@)) =~= complex_value_model()->Obj_0);
    object(entries)
}

} // verus!
