//! The document algebra.
//!
//! `Choice` is the primitive; `group` is sugar built with `flatten`. A `Line`
//! node always renders as a break in every engine; its `flat` field exists
//! only so `flatten` knows what the flat projection of that break is (space,
//! nothing, or impossible).
use std::rc::Rc;
use vstd::prelude::*;

verus! {

/// Semantic tag identifier. Orthogonal to layout: tags never influence
/// measurement or cost, they only annotate output spans.
pub type TagId = u32;

/// Display width that the narrow Unicode policy assigns to a string.
pub uninterp spec fn unicode_width_narrow(s: Seq<char>) -> usize;

/// Display width that the East Asian wide policy assigns to a string.
pub uninterp spec fn unicode_width_cjk(s: Seq<char>) -> usize;

/// Every character is printable ASCII (space through tilde).
pub open spec fn is_printable_ascii(s: Seq<char>) -> bool {
    forall|i: int| 0 <= i < s.len() ==> 0x20 <= (#[trigger] s[i]) as u32 <= 0x7e
}

/// `unicode_width::UnicodeWidthStr::width`: its result is named by
/// `unicode_width_narrow`; printable ASCII is one column per character, which
/// the crate's lookup returns for every character from U+0020 to U+007E.
#[verifier::external_body]
pub(crate) fn str_width_narrow(value: &str) -> (r: usize)
    ensures
        r == unicode_width_narrow(value@),
        is_printable_ascii(value@) ==> r == value@.len(),
{
    unicode_width::UnicodeWidthStr::width(value)
}

/// `unicode_width::UnicodeWidthStr::width_cjk`: its result is named by
/// `unicode_width_cjk`; printable ASCII is one column per character.
#[verifier::external_body]
pub(crate) fn str_width_cjk(value: &str) -> (r: usize)
    ensures
        r == unicode_width_cjk(value@),
        is_printable_ascii(value@) ==> r == value@.len(),
{
    unicode_width::UnicodeWidthStr::width_cjk(value)
}

/// Terminal-column policy used when a text run is constructed.
#[derive(Clone, Copy, Debug, PartialEq, Eq, Structural, Hash)]
pub enum WidthMode {
    /// Unicode width with East Asian ambiguous characters treated as narrow.
    Narrow,
    /// Unicode width with East Asian ambiguous characters treated as wide.
    Cjk,
}

impl Default for WidthMode {
    fn default() -> (r: Self)
        ensures
            r == WidthMode::Narrow,
    {
        WidthMode::Narrow
    }
}

/// Display width of `s` under `mode`.
pub open spec fn spec_width(s: Seq<char>, mode: WidthMode) -> usize {
    match mode {
        WidthMode::Narrow => unicode_width_narrow(s),
        WidthMode::Cjk => unicode_width_cjk(s),
    }
}

/// Measures `value` under `mode`.
pub(crate) fn measure_width(value: &str, mode: WidthMode) -> (r: usize)
    ensures
        r == spec_width(value@, mode),
        is_printable_ascii(value@) ==> r == value@.len(),
{
    match mode {
        WidthMode::Narrow => str_width_narrow(value),
        WidthMode::Cjk => str_width_cjk(value),
    }
}

/// Failure to turn input text into measured document runs.
#[derive(Clone, Copy, Debug, PartialEq, Eq, Structural)]
pub enum TextError {
    /// A terminal control character appeared where document text was expected.
    ControlCharacter { character: char, byte_offset: usize },
    /// The measured display width cannot be represented by the document model.
    DisplayWidthOverflow { byte_offset: usize },
}

/// Unicode general category `Cc`: U+0000 to U+001F and U+007F to U+009F.
pub open spec fn is_control_char(c: char) -> bool {
    (c as u32) <= 0x1f || (0x7f <= (c as u32) && (c as u32) <= 0x9f)
}

/// Whether `c` is a terminal control character (general category `Cc`).
pub fn is_control(c: char) -> (r: bool)
    ensures
        r == is_control_char(c),
{
    let v = c as u32;
    v <= 0x1f || (0x7f <= v && v <= 0x9f)
}

/// Number of UTF-8 bytes that encode `c`.
pub open spec fn utf8_len(c: char) -> nat {
    if (c as u32) < 0x80 {
        1
    } else if (c as u32) < 0x800 {
        2
    } else if (c as u32) < 0x10000 {
        3
    } else {
        4
    }
}

/// UTF-8 byte offset of the character at index `i` of `s`.
pub open spec fn byte_offset(s: Seq<char>, i: int) -> nat
    decreases i,
{
    if i <= 0 || s.len() == 0 {
        0
    } else if i > s.len() {
        byte_offset(s, s.len() as int)
    } else {
        byte_offset(s, i - 1) + utf8_len(s[i - 1])
    }
}

/// Number of UTF-8 bytes that encode `c`.
pub fn char_utf8_len(c: char) -> (r: usize)
    ensures
        r == utf8_len(c),
{
    let v = c as u32;
    if v < 0x80 {
        1
    } else if v < 0x800 {
        2
    } else if v < 0x10000 {
        3
    } else {
        4
    }
}

/// Index of the first control character of `s`, if any.
pub open spec fn first_control(s: Seq<char>) -> Option<int> {
    if exists|i: int| 0 <= i < s.len() && is_control_char(#[trigger] s[i]) {
        Some(
            choose|i: int|
                0 <= i < s.len() && is_control_char(#[trigger] s[i]) && forall|j: int|
                    0 <= j < i ==> !is_control_char(#[trigger] s[j]),
        )
    } else {
        None
    }
}

/// The outcome of measuring `s` under `mode`: the first control character
/// with its byte offset, a width overflow reported at the end of the text, or
/// the column count.
pub open spec fn spec_measure(s: Seq<char>, mode: WidthMode) -> Result<u32, TextError> {
    match first_control(s) {
        Some(i) => Err(
            TextError::ControlCharacter {
                character: s[i],
                byte_offset: byte_offset(s, i) as usize,
            },
        ),
        None => if spec_width(s, mode) <= u32::MAX {
            Ok(spec_width(s, mode) as u32)
        } else {
            Err(TextError::DisplayWidthOverflow { byte_offset: byte_offset(s, s.len() as int) as usize })
        },
    }
}

/// `s` can be measured under `mode`.
pub open spec fn measurable(s: Seq<char>, mode: WidthMode) -> bool {
    spec_measure(s, mode) is Ok
}

pub(crate) proof fn lemma_byte_offset_step(s: Seq<char>, i: int)
    requires
        0 <= i < s.len(),
    ensures
        byte_offset(s, i + 1) == byte_offset(s, i) + utf8_len(s[i]),
        byte_offset(s, i) <= 4 * i,
{
    lemma_byte_offset_bound(s, i);
}

proof fn lemma_byte_offset_bound(s: Seq<char>, i: int)
    requires
        0 <= i <= s.len(),
    ensures
        byte_offset(s, i) <= 4 * i,
    decreases i,
{
    if i > 0 {
        lemma_byte_offset_bound(s, i - 1);
    }
}

/// Scans `value` for its first control character, returning it with its
/// byte offset, or the total byte length when there is none.
fn scan_controls(value: &str) -> (r: Result<usize, (char, usize)>)
    requires
        4 * value@.len() <= usize::MAX,
    ensures
        match first_control(value@) {
            Some(i) => r == Err::<usize, (char, usize)>(
                (value@[i], byte_offset(value@, i) as usize),
            ),
            None => r == Ok::<usize, (char, usize)>(byte_offset(value@, value@.len() as int) as usize),
        },
{
    let n = value.unicode_len();
    let mut i: usize = 0;
    let mut offset: usize = 0;
    while i < n
        invariant
            n == value@.len(),
            4 * value@.len() <= usize::MAX,
            0 <= i <= n,
            offset == byte_offset(value@, i as int),
            forall|j: int| 0 <= j < i ==> !is_control_char(#[trigger] value@[j]),
        decreases n - i,
    {
        let c = value.get_char(i);
        proof {
            lemma_byte_offset_step(value@, i as int);
        }
        if is_control(c) {
            proof {
                let k = choose|k: int|
                    0 <= k < value@.len() && is_control_char(#[trigger] value@[k]) && forall|j: int|
                        0 <= j < k ==> !is_control_char(#[trigger] value@[j]);
                assert(is_control_char(value@[i as int]));
                if k < i {
                } else if k > i {
                    assert(!is_control_char(value@[i as int]));
                }
                assert(k == i);
            }
            return Err((c, offset));
        }
        offset = offset + char_utf8_len(c);
        i = i + 1;
    }
    Ok(offset)
}

/// Printable ASCII is one byte per character.
proof fn lemma_ascii_byte_offset(s: Seq<char>, i: int)
    requires
        is_printable_ascii(s),
        0 <= i <= s.len(),
    ensures
        byte_offset(s, i) == i,
    decreases i,
{
    if i > 0 {
        lemma_ascii_byte_offset(s, i - 1);
        assert(0x20 <= s[i - 1] as u32 <= 0x7e);
    }
}

/// UTF-8 length of `value` in bytes.
fn utf8_byte_len(value: &str) -> (r: usize)
    requires
        4 * value@.len() <= usize::MAX,
    ensures
        r == byte_offset(value@, value@.len() as int),
{
    let n = value.unicode_len();
    let mut i: usize = 0;
    let mut offset: usize = 0;
    while i < n
        invariant
            n == value@.len(),
            4 * value@.len() <= usize::MAX,
            0 <= i <= n,
            offset == byte_offset(value@, i as int),
        decreases n - i,
    {
        let c = value.get_char(i);
        proof {
            lemma_byte_offset_step(value@, i as int);
        }
        offset = offset + char_utf8_len(c);
        i = i + 1;
    }
    offset
}

/// Immutable text plus the authoritative number of terminal columns it uses.
#[derive(Debug, PartialEq, Eq, Hash)]
pub struct TextRun {
    value: Rc<String>,
    columns: u32,
    byte_len: usize,
}

impl TextRun {
    /// The text of this run.
    pub closed spec fn spec_value(&self) -> Seq<char> {
        self.value@
    }

    /// The display width of this run.
    pub closed spec fn spec_columns(&self) -> u32 {
        self.columns
    }

    /// Every run records the UTF-8 length of its text.
    #[verifier::type_invariant]
    spec fn records_byte_len(&self) -> bool {
        self.byte_len == byte_offset(self.value@, self.value@.len() as int)
    }

    /// UTF-8 length of the text in bytes.
    pub fn byte_len(&self) -> (r: usize)
        ensures
            r == byte_offset(self.spec_value(), self.spec_value().len() as int),
    {
        proof {
            use_type_invariant(self);
        }
        self.byte_len
    }

    /// Measures `value` under `width_mode`, rejecting control characters and
    /// unrepresentable widths.
    pub fn try_new(value: &str, width_mode: WidthMode) -> (r: Result<Self, TextError>)
        requires
            4 * value@.len() <= usize::MAX,
        ensures
            match spec_measure(value@, width_mode) {
                Ok(columns) => r matches Ok(run) && run.spec_value() == value@
                    && run.spec_columns() == columns,
                Err(e) => r == Err::<Self, TextError>(e),
            },
    {
        let byte_len = match scan_controls(value) {
            Ok(len) => {
                assert(first_control(value@) is None);
                len
            },
            Err((character, byte_offset)) => {
                return Err(TextError::ControlCharacter { character, byte_offset });
            },
        };
        let columns = match columns_from_width(measure_width(value, width_mode), byte_len) {
            Ok(c) => c,
            Err(e) => return Err(e),
        };
        proof {
            lemma_byte_offset_bound(value@, value@.len() as int);
        }
        Ok(TextRun { value: Rc::new(value.to_owned()), columns, byte_len })
    }

    /// A run of printable ASCII whose width is its length.
    pub fn trusted_ascii(value: &str) -> (r: Self)
        requires
            is_printable_ascii(value@),
            value@.len() <= u32::MAX,
        ensures
            r.spec_value() == value@,
            r.spec_columns() == value@.len(),
    {
        let n = value.unicode_len();
        proof {
            lemma_ascii_byte_offset(value@, value@.len() as int);
        }
        TextRun { value: Rc::new(value.to_owned()), columns: n as u32, byte_len: n }
    }

    /// A run whose width is supplied by the caller instead of measured.
    pub fn with_columns(value: &str, columns: u32) -> (r: Self)
        requires
            4 * value@.len() <= usize::MAX,
        ensures
            r.spec_value() == value@,
            r.spec_columns() == columns,
    {
        let byte_len = utf8_byte_len(value);
        TextRun { value: Rc::new(value.to_owned()), columns, byte_len }
    }

    /// The original text.
    pub fn value(&self) -> (r: &str)
        ensures
            r@ == self.spec_value(),
    {
        (*self.value).as_str()
    }

    /// The display width fixed when this run was constructed.
    pub fn columns(&self) -> (r: u32)
        ensures
            r == self.spec_columns(),
    {
        self.columns
    }

    /// A copy of this run.
    pub fn duplicate(&self) -> (r: Self)
        ensures
            r == *self,
            r@ == self@,
    {
        proof {
            use_type_invariant(self);
        }
        TextRun { value: crate::share(&self.value), columns: self.columns, byte_len: self.byte_len }
    }

    /// Whether two runs hold the same text and width.
    pub fn same_as(&self, other: &Self) -> (r: bool)
        ensures
            r == (self@ == other@),
    {
        self.columns == other.columns && *self.value == *other.value
    }
}

/// The mathematical content of a text run: its characters and width.
pub struct TextModel {
    /// The characters.
    pub value: Seq<char>,
    /// The display width in columns.
    pub columns: u32,
}

impl View for TextRun {
    type V = TextModel;

    open spec fn view(&self) -> TextModel {
        TextModel { value: self.spec_value(), columns: self.spec_columns() }
    }
}

impl Clone for TextRun {
    fn clone(&self) -> (r: Self)
        ensures
            r == *self,
            r@ == self@,
    {
        self.duplicate()
    }
}

/// Measures `value` under `width_mode`, reporting overflow at `byte_offset`.
pub fn measured_columns(value: &str, width_mode: WidthMode, byte_offset: usize) -> (r: Result<
    u32,
    TextError,
>)
    ensures
        r == (if spec_width(value@, width_mode) <= u32::MAX {
            Ok::<u32, TextError>(spec_width(value@, width_mode) as u32)
        } else {
            Err(TextError::DisplayWidthOverflow { byte_offset })
        }),
{
    columns_from_width(measure_width(value, width_mode), byte_offset)
}

/// Converts a measured width to a column count, or reports the overflow at
/// `byte_offset`.
pub fn columns_from_width(width: usize, byte_offset: usize) -> (r: Result<u32, TextError>)
    ensures
        r == (if width <= u32::MAX {
            Ok::<u32, TextError>(width as u32)
        } else {
            Err(TextError::DisplayWidthOverflow { byte_offset })
        }),
{
    if width <= u32::MAX as usize {
        Ok(width as u32)
    } else {
        Err(TextError::DisplayWidthOverflow { byte_offset })
    }
}

/// The document tree.
#[derive(Clone, Debug, PartialEq, Eq, Hash)]
#[non_exhaustive]
pub enum Doc {
    /// Nothing.
    Empty,
    /// Validated text with an authoritative display width.
    Text(TextRun),
    /// A line break. `flat` is the flat projection used by `flatten`:
    /// a space for `line`, nothing for `softline`, `None` for `hardline`
    /// (no flat form exists).
    Line { flat: Option<TextRun> },
    /// One document after the other.
    Concat(Rc<Doc>, Rc<Doc>),
    /// Adds to the indentation applied after line breaks inside.
    Nest(u16, Rc<Doc>),
    /// Sets indentation after line breaks inside to the current column.
    Align(Rc<Doc>),
    /// Layout alternative. Engines prefer the left branch on cost ties.
    Choice(Rc<Doc>, Rc<Doc>),
    /// Annotates the output of the child with a tag.
    Tag(TagId, Rc<Doc>),
    /// Add branch-local cost without occupying terminal columns.
    Penalty { amount: u32, doc: Rc<Doc> },
}

/// The mathematical content of a document: the same tree with text runs
/// replaced by their characters and widths.
pub enum DocModel {
    /// Nothing.
    Empty,
    /// Text.
    Text(TextModel),
    /// A break with its optional flat text.
    Line(Option<TextModel>),
    /// Concatenation.
    Concat(Box<DocModel>, Box<DocModel>),
    /// Added indentation.
    Nest(u16, Box<DocModel>),
    /// Indentation set to the current column.
    Align(Box<DocModel>),
    /// Preferred and alternative layouts.
    Choice(Box<DocModel>, Box<DocModel>),
    /// Tagged content.
    Tag(TagId, Box<DocModel>),
    /// Penalized content.
    Penalty(u32, Box<DocModel>),
}

/// The model of a document.
pub open spec fn doc_model(d: Doc) -> DocModel
    decreases d,
{
    match d {
        Doc::Empty => DocModel::Empty,
        Doc::Text(run) => DocModel::Text(run@),
        Doc::Line { flat } => DocModel::Line(
            match flat {
                Some(run) => Some(run@),
                None => None,
            },
        ),
        Doc::Concat(a, b) => DocModel::Concat(Box::new(doc_model(*a)), Box::new(doc_model(*b))),
        Doc::Nest(n, x) => DocModel::Nest(n, Box::new(doc_model(*x))),
        Doc::Align(x) => DocModel::Align(Box::new(doc_model(*x))),
        Doc::Choice(a, b) => DocModel::Choice(Box::new(doc_model(*a)), Box::new(doc_model(*b))),
        Doc::Tag(t, x) => DocModel::Tag(t, Box::new(doc_model(*x))),
        Doc::Penalty { amount, doc } => DocModel::Penalty(amount, Box::new(doc_model(*doc))),
    }
}

impl View for Doc {
    type V = DocModel;

    open spec fn view(&self) -> DocModel {
        doc_model(*self)
    }
}

/// The models of a sequence of shared documents.
pub open spec fn models(docs: Seq<Rc<Doc>>) -> Seq<DocModel> {
    docs.map_values(|d: Rc<Doc>| d@)
}

/// The empty document.
pub fn empty() -> (r: Rc<Doc>)
    ensures
        r@ == DocModel::Empty,
{
    Rc::new(Doc::Empty)
}

/// Fallible constructor for untrusted single-line text.
pub fn try_text(value: &str) -> (r: Result<Rc<Doc>, TextError>)
    requires
        4 * value@.len() <= usize::MAX,
    ensures
        match spec_measure(value@, WidthMode::Narrow) {
            Ok(columns) => r matches Ok(d) && d@ == DocModel::Text(
                TextModel { value: value@, columns },
            ),
            Err(e) => r == Err::<Rc<Doc>, TextError>(e),
        },
{
    try_text_with(value, WidthMode::Narrow)
}

/// Fallible constructor for untrusted text under an explicit width policy.
pub fn try_text_with(value: &str, width_mode: WidthMode) -> (r: Result<Rc<Doc>, TextError>)
    requires
        4 * value@.len() <= usize::MAX,
    ensures
        match spec_measure(value@, width_mode) {
            Ok(columns) => r matches Ok(d) && d@ == DocModel::Text(
                TextModel { value: value@, columns },
            ),
            Err(e) => r == Err::<Rc<Doc>, TextError>(e),
        },
{
    match TextRun::try_new(value, width_mode) {
        Ok(run) => Ok(Rc::new(Doc::Text(run))),
        Err(e) => Err(e),
    }
}

/// Constructor for trusted text; the caller guarantees it measures.
pub fn text(value: &str) -> (r: Rc<Doc>)
    requires
        4 * value@.len() <= usize::MAX,
        measurable(value@, WidthMode::Narrow),
    ensures
        r@ == DocModel::Text(
            TextModel { value: value@, columns: spec_measure(value@, WidthMode::Narrow)->Ok_0 },
        ),
{
    match try_text(value) {
        Ok(d) => d,
        Err(_) => {
            assert(false);
            empty()
        },
    }
}

/// Text whose width is supplied by the caller instead of measured.
pub fn text_with_columns(value: &str, columns: u32) -> (r: Rc<Doc>)
    requires
        4 * value@.len() <= usize::MAX,
    ensures
        r@ == DocModel::Text(TextModel { value: value@, columns }),
{
    Rc::new(Doc::Text(TextRun::with_columns(value, columns)))
}

/// One space.
pub open spec fn space_model() -> TextModel {
    TextModel { value: seq![' '], columns: 1 }
}

/// A break whose flat form is one space.
pub fn line() -> (r: Rc<Doc>)
    ensures
        r@ == DocModel::Line(Some(space_model())),
{
    let s = " ";
    proof {
        reveal_strlit(" ");
    }
    let run = TextRun::trusted_ascii(s);
    assert(run@.value =~= seq![' ']);
    Rc::new(Doc::Line { flat: Some(run) })
}

/// A break whose flat form is nothing.
pub fn softline() -> (r: Rc<Doc>)
    ensures
        r@ == DocModel::Line(Some(TextModel { value: seq![], columns: 0 })),
{
    let s = "";
    proof {
        reveal_strlit("");
    }
    let run = TextRun::trusted_ascii(s);
    assert(run@.value =~= Seq::<char>::empty());
    Rc::new(Doc::Line { flat: Some(run) })
}

/// A break with no flat form.
pub fn hardline() -> (r: Rc<Doc>)
    ensures
        r@ == DocModel::Line(None),
{
    Rc::new(Doc::Line { flat: None })
}

/// `a` followed by `b`.
pub fn concat2(a: Rc<Doc>, b: Rc<Doc>) -> (r: Rc<Doc>)
    ensures
        r@ == DocModel::Concat(Box::new(a@), Box::new(b@)),
{
    Rc::new(Doc::Concat(a, b))
}

/// Left fold of `docs` with concatenation; the empty sequence is `Empty`.
pub open spec fn spec_concat(docs: Seq<DocModel>) -> DocModel
    decreases docs.len(),
{
    if docs.len() == 0 {
        DocModel::Empty
    } else if docs.len() == 1 {
        docs[0]
    } else {
        DocModel::Concat(Box::new(spec_concat(docs.drop_last())), Box::new(docs.last()))
    }
}

/// `docs` one after the other.
pub fn concat(docs: Vec<Rc<Doc>>) -> (r: Rc<Doc>)
    ensures
        r@ == spec_concat(models(docs@)),
{
    let ghost ms = models(docs@);
    if docs.len() == 0 {
        return empty();
    }
    let mut acc = crate::share(&docs[0]);
    let mut i: usize = 1;
    assert(ms.take(1).drop_last() =~= Seq::<DocModel>::empty());
    assert(ms.take(1) =~= seq![ms[0]]);
    while i < docs.len()
        invariant
            ms == models(docs@),
            1 <= i <= docs.len(),
            acc@ == spec_concat(ms.take(i as int)),
        decreases docs.len() - i,
    {
        assert(ms.take(i as int + 1).drop_last() =~= ms.take(i as int));
        acc = concat2(acc, crate::share(&docs[i]));
        i = i + 1;
    }
    assert(ms.take(docs.len() as int) =~= ms);
    acc
}

/// Adds `n` to the indentation after breaks inside `d`.
pub fn nest(n: u16, d: Rc<Doc>) -> (r: Rc<Doc>)
    ensures
        r@ == DocModel::Nest(n, Box::new(d@)),
{
    Rc::new(Doc::Nest(n, d))
}

/// Sets the indentation after breaks inside `d` to the current column.
pub fn align(d: Rc<Doc>) -> (r: Rc<Doc>)
    ensures
        r@ == DocModel::Align(Box::new(d@)),
{
    Rc::new(Doc::Align(d))
}

/// A layout alternative preferring `preferred` on ties.
pub fn choice(preferred: Rc<Doc>, alternative: Rc<Doc>) -> (r: Rc<Doc>)
    ensures
        r@ == DocModel::Choice(Box::new(preferred@), Box::new(alternative@)),
{
    Rc::new(Doc::Choice(preferred, alternative))
}

/// Tags the output of `d` with `t`.
pub fn tag(t: TagId, d: Rc<Doc>) -> (r: Rc<Doc>)
    ensures
        r@ == DocModel::Tag(t, Box::new(d@)),
{
    Rc::new(Doc::Tag(t, d))
}

/// The canonical penalty: a zero amount is the identity.
pub open spec fn spec_penalize(amount: u32, doc: DocModel) -> DocModel {
    if amount == 0 {
        doc
    } else {
        DocModel::Penalty(amount, Box::new(doc))
    }
}

/// Add branch-local burden to `doc` without changing its rendered text.
pub fn penalize(amount: u32, doc: Rc<Doc>) -> (r: Rc<Doc>)
    ensures
        r@ == spec_penalize(amount, doc@),
{
    if amount == 0 {
        doc
    } else {
        Rc::new(Doc::Penalty { amount, doc })
    }
}

/// `docs` separated by `sep`: the left fold `((d0 sep) d1) sep ...`.
pub open spec fn spec_join(sep: DocModel, docs: Seq<DocModel>) -> DocModel
    decreases docs.len(),
{
    if docs.len() == 0 {
        DocModel::Empty
    } else if docs.len() == 1 {
        docs[0]
    } else {
        DocModel::Concat(
            Box::new(DocModel::Concat(Box::new(spec_join(sep, docs.drop_last())), Box::new(sep))),
            Box::new(docs.last()),
        )
    }
}

/// `docs` separated by `sep`.
pub fn join(sep: Rc<Doc>, docs: Vec<Rc<Doc>>) -> (r: Rc<Doc>)
    ensures
        r@ == spec_join(sep@, models(docs@)),
{
    let ghost ms = models(docs@);
    if docs.len() == 0 {
        return empty();
    }
    let mut acc = crate::share(&docs[0]);
    let mut i: usize = 1;
    assert(ms.take(1) =~= seq![ms[0]]);
    while i < docs.len()
        invariant
            ms == models(docs@),
            1 <= i <= docs.len(),
            acc@ == spec_join(sep@, ms.take(i as int)),
        decreases docs.len() - i,
    {
        assert(ms.take(i as int + 1).drop_last() =~= ms.take(i as int));
        acc = concat2(concat2(acc, crate::share(&sep)), crate::share(&docs[i]));
        i = i + 1;
    }
    assert(ms.take(docs.len() as int) =~= ms);
    acc
}

/// The document contains a hard break anywhere, in either branch of a
/// choice too.
pub open spec fn has_hardline(d: DocModel) -> bool
    decreases d,
{
    match d {
        DocModel::Empty | DocModel::Text(_) => false,
        DocModel::Line(flat) => flat is None,
        DocModel::Concat(a, b) => has_hardline(*a) || has_hardline(*b),
        DocModel::Nest(_, x) | DocModel::Align(x) | DocModel::Tag(_, x) | DocModel::Penalty(_, x) => has_hardline(*x),
        DocModel::Choice(a, b) => has_hardline(*a) || has_hardline(*b),
    }
}

/// Whether `d` contains a hard break anywhere.
pub fn contains_hardline(d: &Doc) -> (r: bool)
    ensures
        r == has_hardline(d@),
    decreases *d,
{
    match d {
        Doc::Empty | Doc::Text(_) => false,
        Doc::Line { flat } => flat.is_none(),
        Doc::Concat(a, b) => contains_hardline(a) || contains_hardline(b),
        Doc::Nest(_, x) | Doc::Align(x) | Doc::Tag(_, x) => contains_hardline(x),
        Doc::Penalty { doc, .. } => contains_hardline(doc),
        Doc::Choice(a, b) => contains_hardline(a) || contains_hardline(b),
    }
}

/// The flat projection: every break its flat text, nested indentation
/// dropped, choices resolved to their preferred branch. `None` when the
/// document contains a hard break anywhere, in a choice's alternative too.
pub open spec fn spec_flatten(d: DocModel) -> Option<DocModel>
    decreases d,
{
    match d {
        DocModel::Empty => Some(d),
        DocModel::Text(_) => Some(d),
        DocModel::Line(Some(t)) => Some(DocModel::Text(t)),
        DocModel::Line(None) => None,
        DocModel::Concat(a, b) => match (spec_flatten(*a), spec_flatten(*b)) {
            (Some(fa), Some(fb)) => Some(DocModel::Concat(Box::new(fa), Box::new(fb))),
            _ => None,
        },
        DocModel::Nest(_, inner) => spec_flatten(*inner),
        DocModel::Align(inner) => match spec_flatten(*inner) {
            Some(f) => Some(DocModel::Align(Box::new(f))),
            None => None,
        },
        DocModel::Choice(preferred, alternative) => if has_hardline(*alternative) {
            None
        } else {
            spec_flatten(*preferred)
        },
        DocModel::Tag(t, inner) => match spec_flatten(*inner) {
            Some(f) => Some(DocModel::Tag(t, Box::new(f))),
            None => None,
        },
        DocModel::Penalty(amount, inner) => match spec_flatten(*inner) {
            Some(f) => Some(spec_penalize(amount, f)),
            None => None,
        },
    }
}

/// The document contains no `Choice` node.
pub open spec fn choice_free(d: DocModel) -> bool
    decreases d,
{
    match d {
        DocModel::Empty | DocModel::Text(_) | DocModel::Line(_) => true,
        DocModel::Concat(a, b) => choice_free(*a) && choice_free(*b),
        DocModel::Nest(_, x) | DocModel::Align(x) | DocModel::Tag(_, x) | DocModel::Penalty(_, x) => choice_free(*x),
        DocModel::Choice(..) => false,
    }
}

/// The document contains no break.
pub open spec fn line_free(d: DocModel) -> bool
    decreases d,
{
    match d {
        DocModel::Empty | DocModel::Text(_) => true,
        DocModel::Line(_) => false,
        DocModel::Concat(a, b) => line_free(*a) && line_free(*b),
        DocModel::Nest(_, x) | DocModel::Align(x) | DocModel::Tag(_, x) | DocModel::Penalty(_, x) => line_free(*x),
        DocModel::Choice(a, b) => line_free(*a) && line_free(*b),
    }
}

/// A flat projection has neither breaks nor choices.
pub proof fn lemma_flatten_is_flat(d: DocModel)
    ensures
        spec_flatten(d) matches Some(f) ==> choice_free(f) && line_free(f),
    decreases d,
{
    match d {
        DocModel::Concat(a, b) => {
            lemma_flatten_is_flat(*a);
            lemma_flatten_is_flat(*b);
        },
        DocModel::Nest(_, x) => lemma_flatten_is_flat(*x),
        DocModel::Align(x) => lemma_flatten_is_flat(*x),
        DocModel::Tag(_, x) => lemma_flatten_is_flat(*x),
        DocModel::Penalty(_, x) => lemma_flatten_is_flat(*x),
        DocModel::Choice(p, _) => lemma_flatten_is_flat(*p),
        _ => {},
    }
}

/// A document has no flat projection exactly when it contains a hard
/// break.
pub proof fn lemma_flatten_none_iff_hardline(d: DocModel)
    ensures
        spec_flatten(d) is None <==> has_hardline(d),
    decreases d,
{
    match d {
        DocModel::Concat(a, b) => {
            lemma_flatten_none_iff_hardline(*a);
            lemma_flatten_none_iff_hardline(*b);
        },
        DocModel::Nest(_, x) => lemma_flatten_none_iff_hardline(*x),
        DocModel::Align(x) => lemma_flatten_none_iff_hardline(*x),
        DocModel::Tag(_, x) => lemma_flatten_none_iff_hardline(*x),
        DocModel::Penalty(_, x) => lemma_flatten_none_iff_hardline(*x),
        DocModel::Choice(p, _) => lemma_flatten_none_iff_hardline(*p),
        _ => {},
    }
}

/// Flattening a flat projection changes nothing.
pub proof fn lemma_flatten_idempotent(d: DocModel)
    ensures
        spec_flatten(d) matches Some(f) ==> spec_flatten(f) == Some(f),
    decreases d,
{
    match d {
        DocModel::Concat(a, b) => {
            lemma_flatten_idempotent(*a);
            lemma_flatten_idempotent(*b);
        },
        DocModel::Nest(_, x) => lemma_flatten_idempotent(*x),
        DocModel::Align(x) => lemma_flatten_idempotent(*x),
        DocModel::Tag(_, x) => lemma_flatten_idempotent(*x),
        DocModel::Penalty(_, x) => lemma_flatten_idempotent(*x),
        DocModel::Choice(p, _) => lemma_flatten_idempotent(*p),
        _ => {},
    }
}

/// The flat projection of `d`, or `None` when it contains a hard break.
pub fn flatten(d: &Rc<Doc>) -> (r: Option<Rc<Doc>>)
    ensures
        match r {
            Some(f) => spec_flatten(d@) == Some(f@),
            None => spec_flatten(d@) is None,
        },
        r is None <==> has_hardline(d@),
    decreases **d,
{
    proof {
        lemma_flatten_none_iff_hardline(d@);
    }
    match &**d {
        Doc::Empty => Some(crate::share(d)),
        Doc::Text(_) => Some(crate::share(d)),
        Doc::Line { flat: Some(run) } => Some(Rc::new(Doc::Text(run.duplicate()))),
        Doc::Line { flat: None } => None,
        Doc::Concat(a, b) => {
            let fa = match flatten(a) {
                Some(f) => f,
                None => return None,
            };
            let fb = match flatten(b) {
                Some(f) => f,
                None => return None,
            };
            Some(concat2(fa, fb))
        },
        Doc::Nest(_, inner) => flatten(inner),
        Doc::Align(inner) => match flatten(inner) {
            Some(f) => Some(align(f)),
            None => None,
        },
        Doc::Choice(preferred, alternative) => if contains_hardline(alternative) {
            None
        } else {
            flatten(preferred)
        },
        Doc::Tag(t, inner) => match flatten(inner) {
            Some(f) => Some(tag(*t, f)),
            None => None,
        },
        Doc::Penalty { amount, doc } => match flatten(doc) {
            Some(f) => Some(penalize(*amount, f)),
            None => None,
        },
    }
}

/// `group(d)`: prefer the flat projection of `d`, else `d` broken.
pub open spec fn spec_group(d: DocModel) -> DocModel {
    match spec_flatten(d) {
        Some(f) => DocModel::Choice(Box::new(f), Box::new(d)),
        None => d,
    }
}

/// `group(d)`: prefer the flat projection of `d`, else `d` broken.
/// A document with no flat form is returned unchanged.
pub fn group(d: Rc<Doc>) -> (r: Rc<Doc>)
    ensures
        r@ == spec_group(d@),
{
    match flatten(&d) {
        Some(flat) => choice(flat, d),
        None => d,
    }
}

/// Number of `Choice` nodes in the tree.
pub open spec fn spec_count_choices(d: DocModel) -> nat
    decreases d,
{
    match d {
        DocModel::Empty | DocModel::Text(_) | DocModel::Line(_) => 0,
        DocModel::Concat(a, b) => spec_count_choices(*a) + spec_count_choices(*b),
        DocModel::Nest(_, x) | DocModel::Align(x) | DocModel::Tag(_, x) | DocModel::Penalty(_, x) => spec_count_choices(*x),
        DocModel::Choice(l, r) => 1 + spec_count_choices(*l) + spec_count_choices(*r),
    }
}

/// A document has no choice exactly when it counts none.
pub proof fn lemma_count_choices_zero(d: DocModel)
    ensures
        choice_free(d) <==> spec_count_choices(d) == 0,
    decreases d,
{
    match d {
        DocModel::Concat(a, b) => {
            lemma_count_choices_zero(*a);
            lemma_count_choices_zero(*b);
        },
        DocModel::Nest(_, x) => lemma_count_choices_zero(*x),
        DocModel::Align(x) => lemma_count_choices_zero(*x),
        DocModel::Tag(_, x) => lemma_count_choices_zero(*x),
        DocModel::Penalty(_, x) => lemma_count_choices_zero(*x),
        _ => {},
    }
}

/// Number of `Choice` nodes, saturating at `usize::MAX`.
pub fn count_choices(d: &Doc) -> (r: usize)
    ensures
        r == (if spec_count_choices(d@) <= usize::MAX {
            spec_count_choices(d@)
        } else {
            usize::MAX as nat
        }),
    decreases *d,
{
    match d {
        Doc::Empty | Doc::Text(_) | Doc::Line { .. } => 0,
        Doc::Concat(a, b) => count_choices(a).saturating_add(count_choices(b)),
        Doc::Nest(_, x) | Doc::Align(x) | Doc::Tag(_, x) | Doc::Penalty { doc: x, .. } => count_choices(x),
        Doc::Choice(l, r) => 1usize.saturating_add(count_choices(l)).saturating_add(
            count_choices(r),
        ),
    }
}

} // verus!
