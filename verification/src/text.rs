//! Ingest unstructured text into the document algebra.
//!
//! Each inter-token whitespace run is a choice between preserving the run
//! and breaking the line. Physical newlines remain hard boundaries, and
//! leading indentation is preserved as a classified text run. `align` makes
//! reflowed lines return to the source line's content column.
use crate::doc::{
    align, byte_offset, char_utf8_len, choice, concat, empty, hardline, is_control,
    is_control_char, lemma_byte_offset_step, line, measured_columns, models, space_model,
    spec_concat, spec_measure, spec_width, tag, try_text_with, utf8_len, Doc, DocModel, TagId,
    TextError, TextModel, WidthMode,
};
use crate::research::{push_char, push_spaces, spaces, split_into_lines, split_lines};
use crate::tags;
use std::rc::Rc;
use vstd::prelude::*;

verus! {

/// Policy for normalizing raw text into measured document runs.
#[derive(Clone, Copy, Debug, PartialEq, Eq, Structural)]
pub struct IngestOptions {
    /// Unicode display-width policy for emitted text runs.
    pub width_mode: WidthMode,
    /// Distance between tab stops while normalizing source text; never zero.
    pub tab_width: u8,
}

impl Default for IngestOptions {
    fn default() -> (r: Self)
        ensures
            r.width_mode == WidthMode::Narrow,
            r.tab_width == 8,
    {
        IngestOptions { width_mode: WidthMode::Narrow, tab_width: 8 }
    }
}

/// Semantic class assigned to a run produced by text ingestion.
#[derive(Clone, Copy, Debug, PartialEq, Eq, Structural, Hash)]
pub enum TextKind {
    /// An alphanumeric or identifier-like run.
    Word,
    /// One punctuation character.
    Symbol,
    /// Horizontal space within a source line.
    Whitespace,
    /// Leading horizontal space on a source line.
    Indent,
    /// A reflow opportunity introduced for horizontal whitespace.
    Newline,
}

/// The built-in tag of each class.
pub open spec fn spec_built_in_tag(k: TextKind) -> TagId {
    match k {
        TextKind::Word => tags::WORD,
        TextKind::Symbol => tags::SYMBOL,
        TextKind::Whitespace => tags::WHITESPACE,
        TextKind::Indent => tags::INDENT,
        TextKind::Newline => tags::NEWLINE,
    }
}

impl TextKind {
    /// Map this class to the corresponding built-in numeric tag.
    pub fn built_in_tag(self) -> (r: TagId)
        ensures
            r == spec_built_in_tag(self),
    {
        match self {
            TextKind::Word => tags::WORD,
            TextKind::Symbol => tags::SYMBOL,
            TextKind::Whitespace => tags::WHITESPACE,
            TextKind::Indent => tags::INDENT,
            TextKind::Newline => tags::NEWLINE,
        }
    }
}

/// Whether std classifies `c` as alphanumeric.
pub uninterp spec fn char_alphanumeric(c: char) -> bool;

/// Whether std classifies `c` as alphabetic.
pub uninterp spec fn char_alphabetic(c: char) -> bool;

/// `char::is_alphanumeric`: Unicode `Alphabetic` or `Numeric`. The result
/// is named, not spelled out: it depends on `c` alone.
#[verifier::external_body]
fn is_alphanumeric(c: char) -> (r: bool)
    ensures
        r == char_alphanumeric(c),
{
    c.is_alphanumeric()
}

/// `char::is_alphabetic`: the Unicode `Alphabetic` property. The result is
/// named, not spelled out: it depends on `c` alone.
#[verifier::external_body]
fn is_alphabetic(c: char) -> (r: bool)
    ensures
        r == char_alphabetic(c),
{
    c.is_alphabetic()
}

/// `c` continues or starts a word after `previous`: alphanumerics,
/// underscores, and apostrophes that follow a letter.
pub open spec fn word_char(c: char, previous: Option<char>) -> bool {
    char_alphanumeric(c) || c == '_' || ((c == '\'' || c == '\u{2019}') && (previous matches Some(p)
        && char_alphabetic(p)))
}

fn is_word_char(c: char, previous: Option<char>) -> (r: bool)
    ensures
        r == word_char(c, previous),
{
    if is_alphanumeric(c) || c == '_' {
        return true;
    }
    if c == '\'' || c == '\u{2019}' {
        match previous {
            Some(p) => is_alphabetic(p),
            None => false,
        }
    } else {
        false
    }
}

/// The class of character `c` after `previous`.
pub open spec fn char_kind(c: char, previous: Option<char>) -> TextKind {
    if c == ' ' {
        TextKind::Whitespace
    } else if word_char(c, previous) {
        TextKind::Word
    } else {
        TextKind::Symbol
    }
}

/// Normalization state: output so far, the current source line and its
/// display width.
#[verifier::ext_equal]
pub struct NormState {
    /// Normalized output so far.
    pub out: Seq<char>,
    /// The current source line after tab expansion.
    pub line: Seq<char>,
    /// Display width of the current source line.
    pub columns: u32,
}

/// Normalizes `s` from character `i` on: carriage returns and CRLF become
/// line feeds, tabs expand to the next tab stop of the source line, and a
/// remaining control character or an unrepresentable width is an error at
/// its original byte offset.
pub open spec fn normalize_from(s: Seq<char>, i: int, st: NormState, options: IngestOptions) -> Result<
    Seq<char>,
    TextError,
>
    decreases s.len() - i,
{
    if i < 0 || i >= s.len() {
        Ok(st.out)
    } else {
        let c = s[i];
        let offset = byte_offset(s, i) as usize;
        if c == '\r' {
            let next = if i + 1 < s.len() && s[i + 1] == '\n' {
                i + 2
            } else {
                i + 1
            };
            normalize_from(s, next, NormState { out: st.out.push('\n'), line: seq![], columns: 0 }, options)
        } else if c == '\n' {
            normalize_from(s, i + 1, NormState { out: st.out.push('\n'), line: seq![], columns: 0 }, options)
        } else if c == '\t' {
            let tab = options.tab_width as int;
            let n = tab - (st.columns as int) % tab;
            if st.columns + n > u32::MAX {
                Err(TextError::DisplayWidthOverflow { byte_offset: offset })
            } else {
                normalize_from(
                    s,
                    i + 1,
                    NormState {
                        out: st.out + spaces(n as nat),
                        line: st.line + spaces(n as nat),
                        columns: (st.columns + n) as u32,
                    },
                    options,
                )
            }
        } else if is_control_char(c) {
            Err(TextError::ControlCharacter { character: c, byte_offset: offset })
        } else {
            let line = st.line.push(c);
            if spec_width(line, options.width_mode) <= u32::MAX {
                normalize_from(
                    s,
                    i + 1,
                    NormState {
                        out: st.out.push(c),
                        line,
                        columns: spec_width(line, options.width_mode) as u32,
                    },
                    options,
                )
            } else {
                Err(TextError::DisplayWidthOverflow { byte_offset: offset })
            }
        }
    }
}

/// No control character but line feed is left in `s`.
pub open spec fn only_line_feeds(s: Seq<char>) -> bool {
    forall|j: int| 0 <= j < s.len() ==> s[j] == '\n' || !is_control_char(#[trigger] s[j])
}

proof fn lemma_normalize_from_clean(s: Seq<char>, i: int, st: NormState, options: IngestOptions)
    requires
        only_line_feeds(st.out),
    ensures
        normalize_from(s, i, st, options) matches Ok(out) ==> only_line_feeds(out),
    decreases s.len() - i,
{
    if 0 <= i < s.len() {
        let c = s[i];
        if c == '\r' || c == '\n' {
            let next = if c == '\r' && i + 1 < s.len() && s[i + 1] == '\n' {
                i + 2
            } else {
                i + 1
            };
            let out = st.out.push('\n');
            assert forall|j: int| 0 <= j < out.len() implies out[j] == '\n' || !is_control_char(#[trigger] out[j]) by {
                if j < st.out.len() {
                    assert(out[j] == st.out[j]);
                }
            }
            lemma_normalize_from_clean(s, next, NormState { out, line: seq![], columns: 0 }, options);
        } else if c == '\t' {
            let tab = options.tab_width as int;
            let n = tab - (st.columns as int) % tab;
            if st.columns + n <= u32::MAX {
                let out = st.out + spaces(n as nat);
                assert forall|j: int| 0 <= j < out.len() implies out[j] == '\n' || !is_control_char(#[trigger] out[j]) by {
                    if j < st.out.len() {
                        assert(out[j] == st.out[j]);
                    } else {
                        assert(out[j] == ' ');
                    }
                }
                lemma_normalize_from_clean(
                    s,
                    i + 1,
                    NormState { out, line: st.line + spaces(n as nat), columns: (st.columns + n) as u32 },
                    options,
                );
            }
        } else if !is_control_char(c) {
            let line = st.line.push(c);
            if spec_width(line, options.width_mode) <= u32::MAX {
                let out = st.out.push(c);
                assert forall|j: int| 0 <= j < out.len() implies out[j] == '\n' || !is_control_char(#[trigger] out[j]) by {
                    if j < st.out.len() {
                        assert(out[j] == st.out[j]);
                    }
                }
                lemma_normalize_from_clean(
                    s,
                    i + 1,
                    NormState { out, line, columns: spec_width(line, options.width_mode) as u32 },
                    options,
                );
            }
        }
    }
}

/// Normalized text keeps no carriage return, no tab and no other control
/// character: line feeds are its only line breaks.
pub proof fn lemma_normalized_has_only_line_feeds(s: Seq<char>, options: IngestOptions)
    ensures
        spec_normalize(s, options) matches Ok(out) ==> only_line_feeds(out) && !out.contains('\r')
            && !out.contains('\t'),
{
    lemma_normalize_from_clean(s, 0, NormState { out: seq![], line: seq![], columns: 0 }, options);
    if let Ok(out) = spec_normalize(s, options) {
        assert(is_control_char('\r') && is_control_char('\t'));
        if out.contains('\r') {
            let j = choose|j: int| 0 <= j < out.len() && out[j] == '\r';
            assert(out[j] == '\n' || !is_control_char(out[j]));
        }
        if out.contains('\t') {
            let j = choose|j: int| 0 <= j < out.len() && out[j] == '\t';
            assert(out[j] == '\n' || !is_control_char(out[j]));
        }
    }
}

/// The normalized text of `s`.
pub open spec fn spec_normalize(s: Seq<char>, options: IngestOptions) -> Result<Seq<char>, TextError> {
    normalize_from(s, 0, NormState { out: seq![], line: seq![], columns: 0 }, options)
}

fn normalize(input: &str, options: IngestOptions) -> (r: Result<String, TextError>)
    requires
        options.tab_width > 0,
        4 * input@.len() <= usize::MAX,
    ensures
        match spec_normalize(input@, options) {
            Ok(s) => r matches Ok(out) && out@ == s,
            Err(e) => r == Err::<String, TextError>(e),
        },
{
    let ghost s = input@;
    let n = input.unicode_len();
    let mut out = String::new();
    let mut source_line = String::new();
    let mut columns: u32 = 0;
    let mut offset: usize = 0;
    let mut i: usize = 0;
    while i < n
        invariant
            s == input@,
            n == s.len(),
            4 * n <= usize::MAX,
            options.tab_width > 0,
            i <= n,
            offset == byte_offset(s, i as int),
            offset <= 4 * i,
            spec_normalize(s, options) == normalize_from(
                s,
                i as int,
                NormState { out: out@, line: source_line@, columns },
                options,
            ),
        decreases n - i,
    {
        let c = input.get_char(i);
        proof {
            lemma_byte_offset_step(s, i as int);
        }
        if c == '\r' {
            push_char(&mut out, '\n');
            source_line = String::new();
            columns = 0;
            offset = offset + 1;
            i = i + 1;
            if i < n && input.get_char(i) == '\n' {
                proof {
                    lemma_byte_offset_step(s, i as int);
                }
                offset = offset + 1;
                i = i + 1;
            }
        } else if c == '\n' {
            push_char(&mut out, '\n');
            source_line = String::new();
            columns = 0;
            offset = offset + 1;
            i = i + 1;
        } else if c == '\t' {
            let tab = options.tab_width as u32;
            let extra = tab - columns % tab;
            match columns.checked_add(extra) {
                Some(total) => {
                    columns = total;
                },
                None => {
                    return Err(TextError::DisplayWidthOverflow { byte_offset: offset });
                },
            }
            push_spaces(&mut out, extra);
            push_spaces(&mut source_line, extra);
            offset = offset + 1;
            i = i + 1;
        } else if is_control(c) {
            return Err(TextError::ControlCharacter { character: c, byte_offset: offset });
        } else {
            push_char(&mut out, c);
            push_char(&mut source_line, c);
            columns = measured_columns(source_line.as_str(), options.width_mode, offset)?;
            offset = offset + char_utf8_len(c);
            i = i + 1;
        }
    }
    Ok(out)
}

/// A source of tags for classified runs.
pub trait TagSource {
    /// The tag of class `k`.
    spec fn spec_tag(&self, k: TextKind) -> TagId;

    /// The source may be asked for tags.
    spec fn ready(&self) -> bool;

    /// The tag of class `k`.
    fn tag_for(&self, k: TextKind) -> (r: TagId)
        requires
            self.ready(),
        ensures
            r == self.spec_tag(k),
    ;
}

/// The built-in tags of [`TextKind::built_in_tag`].
pub struct BuiltInTags;

impl TagSource for BuiltInTags {
    open spec fn spec_tag(&self, k: TextKind) -> TagId {
        spec_built_in_tag(k)
    }

    open spec fn ready(&self) -> bool {
        true
    }

    fn tag_for(&self, k: TextKind) -> (r: TagId) {
        k.built_in_tag()
    }
}

/// The tag a deterministic annotation callback gives class `k`.
pub open spec fn tag_of<F: Fn(TextKind) -> TagId>(f: F, k: TextKind) -> TagId {
    choose|t: TagId| call_ensures(f, (k,), t)
}

/// `f` may be called on every class and gives each class one tag.
pub open spec fn annotates<F: Fn(TextKind) -> TagId>(f: F) -> bool {
    &&& forall|k: TextKind| call_requires(f, (k,))
    &&& forall|k: TextKind, t1: TagId, t2: TagId|
        call_ensures(f, (k,), t1) && call_ensures(f, (k,), t2) ==> t1 == t2
}

/// Tags given by an application callback.
pub struct Callback<F> {
    /// The callback.
    pub f: F,
}

impl<F: Fn(TextKind) -> TagId> TagSource for Callback<F> {
    open spec fn spec_tag(&self, k: TextKind) -> TagId {
        tag_of(self.f, k)
    }

    open spec fn ready(&self) -> bool {
        annotates(self.f)
    }

    fn tag_for(&self, k: TextKind) -> (r: TagId) {
        let t = (self.f)(k);
        assert(call_ensures(self.f, (k,), t));
        t
    }
}

/// The document of a finished run of class `k`: measured text under the
/// class's tag, offered as a choice against a tagged break when it is
/// whitespace.
pub open spec fn run_doc<T: TagSource>(
    source: T,
    k: TextKind,
    value: Seq<char>,
    mode: WidthMode,
) -> Result<DocModel, TextError> {
    match spec_measure(value, mode) {
        Err(e) => Err(e),
        Ok(w) => {
            let run = DocModel::Tag(source.spec_tag(k), Box::new(DocModel::Text(TextModel { value, columns: w })));
            if k == TextKind::Whitespace {
                Ok(
                    DocModel::Choice(
                        Box::new(run),
                        Box::new(
                            DocModel::Tag(
                                source.spec_tag(TextKind::Newline),
                                Box::new(DocModel::Line(Some(space_model()))),
                            ),
                        ),
                    ),
                )
            } else {
                Ok(run)
            }
        },
    }
}

/// Lexer state: finished runs, the pending run and its class, and the
/// previous character.
#[verifier::ext_equal]
pub struct LexState {
    /// Documents of finished runs.
    pub docs: Seq<DocModel>,
    /// The pending run.
    pub buffer: Seq<char>,
    /// The pending run's class.
    pub kind: Option<TextKind>,
    /// The previous character.
    pub previous: Option<char>,
}

/// The finished runs after the pending one is finished.
pub open spec fn flush_run<T: TagSource>(
    source: T,
    docs: Seq<DocModel>,
    buffer: Seq<char>,
    kind: Option<TextKind>,
    mode: WidthMode,
) -> Result<Seq<DocModel>, TextError> {
    match kind {
        None => Ok(docs),
        Some(k) => if buffer.len() == 0 {
            Ok(docs)
        } else {
            match run_doc(source, k, buffer, mode) {
                Err(e) => Err(e),
                Ok(d) => Ok(docs.push(d)),
            }
        },
    }
}

/// One lexer step on character `c`: finish the pending run when `c`
/// starts a new one (always for symbols), append `c`, and finish a symbol
/// at once.
pub open spec fn lex_step<T: TagSource>(source: T, c: char, st: LexState, mode: WidthMode) -> Result<
    LexState,
    TextError,
> {
    let k = char_kind(c, st.previous);
    let opened = if st.kind != Some(k) || k == TextKind::Symbol {
        match flush_run(source, st.docs, st.buffer, st.kind, mode) {
            Err(e) => Err(e),
            Ok(docs) => Ok((docs, Seq::<char>::empty())),
        }
    } else {
        Ok((st.docs, st.buffer))
    };
    match opened {
        Err(e) => Err(e),
        Ok((docs, buffer)) => {
            let buffer = buffer.push(c);
            if k == TextKind::Symbol {
                match flush_run(source, docs, buffer, Some(k), mode) {
                    Err(e) => Err(e),
                    Ok(docs) => Ok(LexState { docs, buffer: seq![], kind: None, previous: Some(c) }),
                }
            } else {
                Ok(LexState { docs, buffer, kind: Some(k), previous: Some(c) })
            }
        },
    }
}

/// An apostrophe, straight or typographic, that follows a letter is a
/// word character: it never starts a symbol.
pub proof fn lemma_apostrophe_after_letter_is_word(c: char, p: char)
    requires
        c == '\'' || c == '\u{2019}',
        char_alphabetic(p),
    ensures
        char_kind(c, Some(p)) == TextKind::Word,
{
}

/// Inside a word whose last character is a letter, an apostrophe, straight
/// or typographic, extends the pending word run: no run is finished and
/// the apostrophe joins the word.
pub proof fn lemma_apostrophe_extends_word<T: TagSource>(source: T, c: char, st: LexState, mode: WidthMode)
    requires
        c == '\'' || c == '\u{2019}',
        st.kind == Some(TextKind::Word),
        st.previous matches Some(p) && char_alphabetic(p),
    ensures
        lex_step(source, c, st, mode) == Ok::<LexState, TextError>(
            LexState { docs: st.docs, buffer: st.buffer.push(c), kind: Some(TextKind::Word), previous: Some(c) },
        ),
{
}

/// A run document that, by its tag, is a symbol run holds exactly one
/// character.
pub open spec fn single_symbol<T: TagSource>(source: T, d: DocModel) -> bool {
    match d {
        DocModel::Tag(t, x) => t == source.spec_tag(TextKind::Symbol) ==> (*x matches DocModel::Text(m)
            && m.value.len() == 1),
        _ => true,
    }
}

/// A finished run of a class other than symbol is not a symbol run, when
/// the word tag differs from the symbol tag.
proof fn lemma_flush_keeps_single<T: TagSource>(
    source: T,
    docs: Seq<DocModel>,
    buffer: Seq<char>,
    kind: Option<TextKind>,
    mode: WidthMode,
)
    requires
        source.spec_tag(TextKind::Word) != source.spec_tag(TextKind::Symbol),
        kind == Some(TextKind::Word) || kind == Some(TextKind::Whitespace) || kind is None,
        forall|j: int| 0 <= j < docs.len() ==> single_symbol(source, #[trigger] docs[j]),
    ensures
        flush_run(source, docs, buffer, kind, mode) matches Ok(out) ==> forall|j: int|
            0 <= j < out.len() ==> single_symbol(source, #[trigger] out[j]),
{
    if let Ok(out) = flush_run(source, docs, buffer, kind, mode) {
        assert forall|j: int| 0 <= j < out.len() implies single_symbol(source, #[trigger] out[j]) by {
            if j < docs.len() {
                assert(out[j] == docs[j]);
            }
        }
    }
}

/// Lexing from a state with no pending symbol keeps every symbol run a
/// single character.
proof fn lemma_lex_single_symbols<T: TagSource>(source: T, s: Seq<char>, i: int, st: LexState, mode: WidthMode)
    requires
        source.spec_tag(TextKind::Word) != source.spec_tag(TextKind::Symbol),
        st.kind == Some(TextKind::Word) || st.kind == Some(TextKind::Whitespace) || st.kind is None,
        forall|j: int| 0 <= j < st.docs.len() ==> single_symbol(source, #[trigger] st.docs[j]),
    ensures
        lex_from(source, s, i, st, mode) matches Ok(docs) ==> forall|j: int|
            0 <= j < docs.len() ==> single_symbol(source, #[trigger] docs[j]),
    decreases s.len() - i,
{
    if i < 0 || i >= s.len() {
        lemma_flush_keeps_single(source, st.docs, st.buffer, st.kind, mode);
    } else {
        let c = s[i];
        let k = char_kind(c, st.previous);
        lemma_flush_keeps_single(source, st.docs, st.buffer, st.kind, mode);
        if let Ok(next) = lex_step(source, c, st, mode) {
            let opened_docs = if st.kind != Some(k) || k == TextKind::Symbol {
                flush_run(source, st.docs, st.buffer, st.kind, mode)->Ok_0
            } else {
                st.docs
            };
            assert(forall|j: int| 0 <= j < opened_docs.len() ==> single_symbol(source, #[trigger] opened_docs[j]));
            if k == TextKind::Symbol {
                let buffer = (if st.kind != Some(k) || k == TextKind::Symbol {
                    Seq::<char>::empty()
                } else {
                    st.buffer
                }).push(c);
                assert(buffer.len() == 1);
                assert forall|j: int| 0 <= j < next.docs.len() implies single_symbol(source, #[trigger] next.docs[j]) by {
                    if j < opened_docs.len() {
                        assert(next.docs[j] == opened_docs[j]);
                    }
                }
            }
            lemma_lex_single_symbols(source, s, i + 1, next, mode);
        }
    }
}

/// Every symbol character is a run of its own: in the runs lexed from any
/// line content, each run tagged as a symbol holds exactly one character,
/// whenever symbols and words are tagged apart.
pub proof fn lemma_symbol_runs_are_single<T: TagSource>(source: T, s: Seq<char>, mode: WidthMode)
    requires
        source.spec_tag(TextKind::Word) != source.spec_tag(TextKind::Symbol),
    ensures
        lex_from(source, s, 0, LexState { docs: seq![], buffer: seq![], kind: None, previous: None }, mode) matches Ok(
            docs,
        ) ==> forall|j: int| 0 <= j < docs.len() ==> single_symbol(source, #[trigger] docs[j]),
{
    lemma_lex_single_symbols(source, s, 0, LexState { docs: seq![], buffer: seq![], kind: None, previous: None }, mode);
}

/// The characters of a run document: its text, or for a whitespace run
/// the text it keeps when it does not break.
pub open spec fn run_text(d: DocModel) -> Seq<char> {
    match d {
        DocModel::Tag(_, x) => match *x {
            DocModel::Text(m) => m.value,
            _ => Seq::empty(),
        },
        DocModel::Choice(a, _) => match *a {
            DocModel::Tag(_, x) => match *x {
                DocModel::Text(m) => m.value,
                _ => Seq::empty(),
            },
            _ => Seq::empty(),
        },
        _ => Seq::empty(),
    }
}

/// The characters of a sequence of run documents, in order.
pub open spec fn runs_text(docs: Seq<DocModel>) -> Seq<char>
    decreases docs.len(),
{
    if docs.len() == 0 {
        Seq::empty()
    } else {
        runs_text(docs.drop_last()) + run_text(docs.last())
    }
}

proof fn lemma_flush_text<T: TagSource>(
    source: T,
    docs: Seq<DocModel>,
    buffer: Seq<char>,
    kind: Option<TextKind>,
    mode: WidthMode,
)
    requires
        kind is None ==> buffer.len() == 0,
    ensures
        flush_run(source, docs, buffer, kind, mode) matches Ok(out) ==> runs_text(out) == runs_text(docs) + buffer,
{
    if let Ok(out) = flush_run(source, docs, buffer, kind, mode) {
        if kind is None || buffer.len() == 0 {
            assert(runs_text(docs) + buffer =~= runs_text(docs));
        } else {
            assert(out.drop_last() =~= docs);
        }
    }
}

proof fn lemma_lex_text<T: TagSource>(source: T, s: Seq<char>, i: int, st: LexState, mode: WidthMode)
    requires
        0 <= i <= s.len(),
        runs_text(st.docs) + st.buffer == s.take(i),
        st.kind is None ==> st.buffer.len() == 0,
    ensures
        lex_from(source, s, i, st, mode) matches Ok(docs) ==> runs_text(docs) == s,
    decreases s.len() - i,
{
    if i >= s.len() {
        lemma_flush_text(source, st.docs, st.buffer, st.kind, mode);
        assert(s.take(i) =~= s);
    } else {
        let c = s[i];
        let k = char_kind(c, st.previous);
        lemma_flush_text(source, st.docs, st.buffer, st.kind, mode);
        if let Ok(next) = lex_step(source, c, st, mode) {
            let opens = st.kind != Some(k) || k == TextKind::Symbol;
            let (docs1, buf1) = if opens {
                (flush_run(source, st.docs, st.buffer, st.kind, mode)->Ok_0, Seq::<char>::empty())
            } else {
                (st.docs, st.buffer)
            };
            assert(runs_text(docs1) + buf1 == s.take(i));
            let buffer = buf1.push(c);
            assert(s.take(i + 1) =~= s.take(i).push(c));
            assert(runs_text(docs1) + buffer =~= s.take(i + 1));
            if k == TextKind::Symbol {
                lemma_flush_text(source, docs1, buffer, Some(k), mode);
                assert(runs_text(next.docs) + next.buffer =~= runs_text(next.docs));
            }
            lemma_lex_text(source, s, i + 1, next, mode);
        }
    }
}

/// Lexing loses and adds no character: the runs lexed from any line
/// content, read in order, spell the content exactly.
pub proof fn lemma_runs_spell_the_content<T: TagSource>(source: T, s: Seq<char>, mode: WidthMode)
    ensures
        lex_from(source, s, 0, LexState { docs: seq![], buffer: seq![], kind: None, previous: None }, mode) matches Ok(
            docs,
        ) ==> runs_text(docs) == s,
{
    let st = LexState { docs: seq![], buffer: seq![], kind: None, previous: None };
    assert(runs_text(st.docs) + st.buffer =~= s.take(0));
    lemma_lex_text(source, s, 0, st, mode);
}

/// `d` is a well-formed run: a whitespace run, made of spaces only, is a
/// choice between keeping its spaces and a tagged break; any other run is
/// tagged text with no space in it.
pub open spec fn run_shape<T: TagSource>(source: T, d: DocModel) -> bool {
    match d {
        DocModel::Choice(a, b) => {
            &&& *b == DocModel::Tag(source.spec_tag(TextKind::Newline), Box::new(DocModel::Line(Some(space_model()))))
            &&& match *a {
                DocModel::Tag(t, x) => {
                    &&& t == source.spec_tag(TextKind::Whitespace)
                    &&& match *x {
                        DocModel::Text(m) => m.value.len() > 0 && forall|i: int|
                            0 <= i < m.value.len() ==> m.value[i] == ' ',
                        _ => false,
                    }
                },
                _ => false,
            }
        },
        DocModel::Tag(_, x) => match *x {
            DocModel::Text(m) => m.value.len() > 0 && !m.value.contains(' '),
            _ => false,
        },
        _ => false,
    }
}

/// The pending run holds characters of its class only: spaces for
/// whitespace, no space otherwise.
pub open spec fn buffer_shape(buffer: Seq<char>, kind: Option<TextKind>) -> bool {
    match kind {
        None => buffer.len() == 0,
        Some(k) => if k == TextKind::Whitespace {
            forall|i: int| 0 <= i < buffer.len() ==> buffer[i] == ' '
        } else {
            !buffer.contains(' ')
        },
    }
}

proof fn lemma_flush_shape<T: TagSource>(
    source: T,
    docs: Seq<DocModel>,
    buffer: Seq<char>,
    kind: Option<TextKind>,
    mode: WidthMode,
)
    requires
        buffer_shape(buffer, kind),
        forall|j: int| 0 <= j < docs.len() ==> run_shape(source, #[trigger] docs[j]),
    ensures
        flush_run(source, docs, buffer, kind, mode) matches Ok(out) ==> forall|j: int|
            0 <= j < out.len() ==> run_shape(source, #[trigger] out[j]),
{
    if let Ok(out) = flush_run(source, docs, buffer, kind, mode) {
        assert forall|j: int| 0 <= j < out.len() implies run_shape(source, #[trigger] out[j]) by {
            if j < docs.len() {
                assert(out[j] == docs[j]);
            }
        }
    }
}

proof fn lemma_lex_shape<T: TagSource>(source: T, s: Seq<char>, i: int, st: LexState, mode: WidthMode)
    requires
        buffer_shape(st.buffer, st.kind),
        forall|j: int| 0 <= j < st.docs.len() ==> run_shape(source, #[trigger] st.docs[j]),
    ensures
        lex_from(source, s, i, st, mode) matches Ok(docs) ==> forall|j: int|
            0 <= j < docs.len() ==> run_shape(source, #[trigger] docs[j]),
    decreases s.len() - i,
{
    if i < 0 || i >= s.len() {
        lemma_flush_shape(source, st.docs, st.buffer, st.kind, mode);
    } else {
        let c = s[i];
        let k = char_kind(c, st.previous);
        lemma_flush_shape(source, st.docs, st.buffer, st.kind, mode);
        if let Ok(next) = lex_step(source, c, st, mode) {
            let opens = st.kind != Some(k) || k == TextKind::Symbol;
            let (docs1, buf1) = if opens {
                (flush_run(source, st.docs, st.buffer, st.kind, mode)->Ok_0, Seq::<char>::empty())
            } else {
                (st.docs, st.buffer)
            };
            let buffer = buf1.push(c);
            assert(buffer_shape(buffer, Some(k))) by {
                if k == TextKind::Whitespace {
                    assert(c == ' ');
                    assert forall|q: int| 0 <= q < buffer.len() implies buffer[q] == ' ' by {
                        if q < buf1.len() {
                            assert(buffer[q] == buf1[q]);
                        }
                    }
                } else {
                    assert(c != ' ');
                    if buffer.contains(' ') {
                        let q = choose|q: int| 0 <= q < buffer.len() && buffer[q] == ' ';
                        if q < buf1.len() {
                            assert(buf1[q] == ' ');
                        }
                    }
                }
            }
            if k == TextKind::Symbol {
                lemma_flush_shape(source, docs1, buffer, Some(k), mode);
            }
            lemma_lex_shape(source, s, i + 1, next, mode);
        }
    }
}

/// Every run lexed from line content is well formed: whitespace runs,
/// spaces only, become a choice between keeping them and a tagged break,
/// and every other run is tagged text without a space, so whitespace is
/// the only place a reflowed line may break.
pub proof fn lemma_runs_are_shaped<T: TagSource>(source: T, s: Seq<char>, mode: WidthMode)
    ensures
        lex_from(source, s, 0, LexState { docs: seq![], buffer: seq![], kind: None, previous: None }, mode) matches Ok(
            docs,
        ) ==> forall|j: int| 0 <= j < docs.len() ==> run_shape(source, #[trigger] docs[j]),
{
    lemma_lex_shape(source, s, 0, LexState { docs: seq![], buffer: seq![], kind: None, previous: None }, mode);
}

/// `d` is a word run: text under the word tag.
pub open spec fn is_word_run<T: TagSource>(source: T, d: DocModel) -> bool {
    d matches DocModel::Tag(t, _) && t == source.spec_tag(TextKind::Word)
}

/// No two neighbouring runs are both word runs or both whitespace runs.
pub open spec fn runs_maximal<T: TagSource>(source: T, docs: Seq<DocModel>) -> bool {
    forall|j: int|
        0 <= j < docs.len() - 1 ==> !(is_word_run(source, #[trigger] docs[j]) && is_word_run(source, docs[j + 1]))
            && !(docs[j] is Choice && docs[j + 1] is Choice)
}

/// `d` is a whitespace run or text under the word or the symbol tag.
spec fn classed<T: TagSource>(source: T, d: DocModel) -> bool {
    match d {
        DocModel::Choice(..) => true,
        DocModel::Tag(t, _) => t == source.spec_tag(TextKind::Word) || t == source.spec_tag(TextKind::Symbol),
        _ => false,
    }
}

/// What the lexer state promises of the next run it finishes.
spec fn pending_ok<T: TagSource>(source: T, st: LexState) -> bool {
    &&& runs_maximal(source, st.docs)
    &&& forall|j: int| 0 <= j < st.docs.len() ==> classed(source, #[trigger] st.docs[j])
    &&& st.kind == Some(TextKind::Word) || st.kind == Some(TextKind::Whitespace) || st.kind is None
    &&& st.kind is Some ==> st.buffer.len() > 0
    &&& st.kind is None ==> st.buffer.len() == 0 && (st.docs.len() == 0 || !is_word_run(source, st.docs.last())
        && !(st.docs.last() is Choice))
    &&& st.kind == Some(TextKind::Word) ==> st.docs.len() == 0 || !is_word_run(source, st.docs.last())
    &&& st.kind == Some(TextKind::Whitespace) ==> st.docs.len() == 0 || !(st.docs.last() is Choice)
}

proof fn lemma_flush_maximal<T: TagSource>(source: T, st: LexState, mode: WidthMode)
    requires
        source.spec_tag(TextKind::Word) != source.spec_tag(TextKind::Symbol),
        pending_ok(source, st),
    ensures
        flush_run(source, st.docs, st.buffer, st.kind, mode) matches Ok(out) ==> {
            &&& runs_maximal(source, out)
            &&& forall|j: int| 0 <= j < out.len() ==> classed(source, #[trigger] out[j])
            &&& st.kind is Some && st.buffer.len() > 0 ==> out.len() == st.docs.len() + 1
            &&& (out.len() == st.docs.len() && out == st.docs) || (out.len() == st.docs.len() + 1 && out.drop_last()
                == st.docs && (st.kind == Some(TextKind::Word) ==> is_word_run(source, out.last())) && (st.kind
                == Some(TextKind::Whitespace) ==> out.last() is Choice))
        },
{
    if let Ok(out) = flush_run(source, st.docs, st.buffer, st.kind, mode) {
        if st.kind is Some && st.buffer.len() > 0 {
            assert(out.drop_last() =~= st.docs);
            assert forall|j: int| 0 <= j < out.len() - 1 implies !(is_word_run(source, #[trigger] out[j])
                && is_word_run(source, out[j + 1])) && !(out[j] is Choice && out[j + 1] is Choice) by {
                if j + 1 < st.docs.len() {
                    assert(out[j] == st.docs[j] && out[j + 1] == st.docs[j + 1]);
                } else {
                    assert(out[j] == st.docs.last());
                }
            }
            assert forall|j: int| 0 <= j < out.len() implies classed(source, #[trigger] out[j]) by {
                if j < st.docs.len() {
                    assert(out[j] == st.docs[j]);
                }
            }
        }
    }
}

proof fn lemma_lex_maximal<T: TagSource>(source: T, s: Seq<char>, i: int, st: LexState, mode: WidthMode)
    requires
        source.spec_tag(TextKind::Word) != source.spec_tag(TextKind::Symbol),
        pending_ok(source, st),
    ensures
        lex_from(source, s, i, st, mode) matches Ok(docs) ==> runs_maximal(source, docs),
    decreases s.len() - i,
{
    lemma_flush_maximal(source, st, mode);
    if 0 <= i < s.len() {
        let c = s[i];
        let k = char_kind(c, st.previous);
        if let Ok(next) = lex_step(source, c, st, mode) {
            let opens = st.kind != Some(k) || k == TextKind::Symbol;
            let docs1 = if opens {
                flush_run(source, st.docs, st.buffer, st.kind, mode)->Ok_0
            } else {
                st.docs
            };
            let buf1 = if opens {
                Seq::<char>::empty()
            } else {
                st.buffer
            };
            let mid = LexState { docs: docs1, buffer: buf1.push(c), kind: Some(k), previous: Some(c) };
            if k == TextKind::Symbol {
                let sym = LexState { docs: docs1, buffer: buf1.push(c), kind: Some(k), previous: Some(c) };
                assert(next.docs.drop_last() =~= docs1);
                assert(next.docs.last() is Tag && next.docs.last()->Tag_0 == source.spec_tag(TextKind::Symbol));
                assert(!is_word_run(source, next.docs.last()));
                assert forall|j: int| 0 <= j < next.docs.len() - 1 implies !(is_word_run(source, #[trigger] next.docs[j])
                    && is_word_run(source, next.docs[j + 1])) && !(next.docs[j] is Choice && next.docs[j + 1] is Choice) by {
                    if j + 1 < docs1.len() {
                        assert(next.docs[j] == docs1[j] && next.docs[j + 1] == docs1[j + 1]);
                    }
                }
                assert forall|j: int| 0 <= j < next.docs.len() implies classed(source, #[trigger] next.docs[j]) by {
                    if j < docs1.len() {
                        assert(next.docs[j] == docs1[j]);
                    }
                }
            } else {
                assert(next == mid);
            }
            lemma_lex_maximal(source, s, i + 1, next, mode);
        }
    }
}

/// Runs are maximal: consecutive characters of one class stay in one run,
/// so no two neighbouring runs lexed from line content are both words or
/// both whitespace, whenever words and symbols are tagged apart.
pub proof fn lemma_runs_are_maximal<T: TagSource>(source: T, s: Seq<char>, mode: WidthMode)
    requires
        source.spec_tag(TextKind::Word) != source.spec_tag(TextKind::Symbol),
    ensures
        lex_from(source, s, 0, LexState { docs: seq![], buffer: seq![], kind: None, previous: None }, mode) matches Ok(
            docs,
        ) ==> runs_maximal(source, docs),
{
    lemma_lex_maximal(source, s, 0, LexState { docs: seq![], buffer: seq![], kind: None, previous: None }, mode);
}

/// Lexes `s` from character `i` on: consecutive characters of one class
/// form a run, except that every symbol is a run of its own.
pub open spec fn lex_from<T: TagSource>(
    source: T,
    s: Seq<char>,
    i: int,
    st: LexState,
    mode: WidthMode,
) -> Result<Seq<DocModel>, TextError>
    decreases s.len() - i,
{
    if i < 0 || i >= s.len() {
        flush_run(source, st.docs, st.buffer, st.kind, mode)
    } else {
        match lex_step(source, s[i], st, mode) {
            Err(e) => Err(e),
            Ok(next) => lex_from(source, s, i + 1, next, mode),
        }
    }
}

/// The document of the content of a source line.
pub open spec fn content_model<T: TagSource>(source: T, s: Seq<char>, mode: WidthMode) -> Result<
    DocModel,
    TextError,
> {
    match lex_from(source, s, 0, LexState { docs: seq![], buffer: seq![], kind: None, previous: None }, mode) {
        Err(e) => Err(e),
        Ok(docs) => Ok(spec_concat(docs)),
    }
}

/// The number of leading spaces of `s`.
pub open spec fn indent_end(s: Seq<char>) -> nat
    decreases s.len(),
{
    if s.len() == 0 || s[0] != ' ' {
        0
    } else {
        1 + indent_end(s.drop_first())
    }
}

/// The document of one source line: its tagged indentation, if any, then
/// its aligned content.
pub open spec fn line_model<T: TagSource>(source: T, s: Seq<char>, mode: WidthMode) -> Result<
    DocModel,
    TextError,
> {
    let n = indent_end(s);
    let leading = s.take(n as int);
    let content = s.skip(n as int);
    if n == 0 {
        match content_model(source, content, mode) {
            Err(e) => Err(e),
            Ok(d) => Ok(DocModel::Align(Box::new(d))),
        }
    } else {
        match spec_measure(leading, mode) {
            Err(e) => Err(e),
            Ok(w) => match content_model(source, content, mode) {
                Err(e) => Err(e),
                Ok(d) => Ok(
                    spec_concat(
                        seq![
                            DocModel::Tag(
                                source.spec_tag(TextKind::Indent),
                                Box::new(DocModel::Text(TextModel { value: leading, columns: w })),
                            ),
                            DocModel::Align(Box::new(d)),
                        ],
                    ),
                ),
            },
        }
    }
}

/// The documents of lines `i..` of `lines`, each after a hard break but the
/// first, appended to `docs`.
pub open spec fn lines_from<T: TagSource>(
    source: T,
    lines: Seq<Seq<char>>,
    i: int,
    docs: Seq<DocModel>,
    mode: WidthMode,
) -> Result<Seq<DocModel>, TextError>
    decreases lines.len() - i,
{
    if i < 0 || i >= lines.len() {
        Ok(docs)
    } else {
        let docs = if i > 0 {
            docs.push(DocModel::Line(None))
        } else {
            docs
        };
        match line_model(source, lines[i], mode) {
            Err(e) => Err(e),
            Ok(d) => lines_from(source, lines, i + 1, docs.push(d), mode),
        }
    }
}

/// The document ingested from `input`.
pub open spec fn spec_from_text<T: TagSource>(
    source: T,
    input: Seq<char>,
    options: IngestOptions,
) -> Result<DocModel, TextError> {
    if input.len() == 0 {
        Ok(DocModel::Empty)
    } else {
        match spec_normalize(input, options) {
            Err(e) => Err(e),
            Ok(n) => match lines_from(source, split_lines(n), 0, seq![], options.width_mode) {
                Err(e) => Err(e),
                Ok(docs) => Ok(spec_concat(docs)),
            },
        }
    }
}


/// No line of a split is longer than the text.
proof fn lemma_split_lines_len(s: Seq<char>)
    ensures
        forall|i: int| 0 <= i < split_lines(s).len() ==> (#[trigger] split_lines(s)[i]).len() <= s.len(),
    decreases s.len(),
{
    if s.len() > 0 {
        lemma_split_lines_len(s.drop_first());
        let rest = split_lines(s.drop_first());
        crate::research::lemma_split_join(s.drop_first());
        if s[0] != '\n' {
            assert forall|i: int| 0 <= i < split_lines(s).len() implies (#[trigger] split_lines(s)[i]).len() <= s.len() by {
                if i == 0 {
                    assert(split_lines(s)[0] == seq![s[0]] + rest[0]);
                } else {
                    assert(split_lines(s)[i] == rest[i]);
                }
            }
        } else {
            assert forall|i: int| 0 <= i < split_lines(s).len() implies (#[trigger] split_lines(s)[i]).len() <= s.len() by {
                if i > 0 {
                    assert(split_lines(s)[i] == rest[i - 1]);
                }
            }
        }
    }
}

/// Finishes the pending run of class `kind` held in `buffer`.
fn flush<T: TagSource>(
    source: &T,
    docs: &mut Vec<Rc<Doc>>,
    buffer: &mut String,
    kind: Option<TextKind>,
    mode: WidthMode,
) -> (r: Result<(), TextError>)
    requires
        source.ready(),
        4 * old(buffer)@.len() <= usize::MAX,
    ensures
        match flush_run(*source, models(old(docs)@), old(buffer)@, kind, mode) {
            Ok(ds) => r is Ok && models(final(docs)@) == ds && final(buffer)@ == (if kind is Some
                && old(buffer)@.len() > 0 {
                Seq::<char>::empty()
            } else {
                old(buffer)@
            }),
            Err(e) => r == Err::<(), TextError>(e),
        },
{
    let k = match kind {
        None => {
            return Ok(());
        },
        Some(k) => k,
    };
    if buffer.as_str().unicode_len() == 0 {
        return Ok(());
    }
    let value = buffer.clone();
    *buffer = String::new();
    let t = source.tag_for(k);
    let text = match try_text_with(value.as_str(), mode) {
        Ok(d) => d,
        Err(e) => {
            return Err(e);
        },
    };
    let run = tag(t, text);
    let ghost before = docs@;
    if k == TextKind::Whitespace {
        let tn = source.tag_for(TextKind::Newline);
        docs.push(choice(run, tag(tn, line())));
    } else {
        docs.push(run);
    }
    assert(models(docs@) =~= models(before).push(docs@.last()@));
    Ok(())
}

/// One lexer step on character `c`.
fn lex_char<T: TagSource>(
    source: &T,
    c: char,
    docs: &mut Vec<Rc<Doc>>,
    buffer: &mut String,
    kind: &mut Option<TextKind>,
    previous: &mut Option<char>,
    mode: WidthMode,
) -> (r: Result<(), TextError>)
    requires
        source.ready(),
        4 * (old(buffer)@.len() + 1) <= usize::MAX,
        (*old(kind) is None) == (old(buffer)@.len() == 0),
    ensures
        match lex_step(
            *source,
            c,
            LexState { docs: models(old(docs)@), buffer: old(buffer)@, kind: *old(kind), previous: *old(previous) },
            mode,
        ) {
            Ok(st) => r is Ok && st == (LexState {
                docs: models(final(docs)@),
                buffer: final(buffer)@,
                kind: *final(kind),
                previous: *final(previous),
            }) && (*final(kind) is None) == (final(buffer)@.len() == 0) && final(buffer)@.len()
                <= old(buffer)@.len() + 1,
            Err(e) => r == Err::<(), TextError>(e),
        },
{
    let ghost st = LexState { docs: models(docs@), buffer: buffer@, kind: *kind, previous: *previous };
    let k = kind_of(c, *previous);
    let same = match *kind {
        Some(current) => current == k,
        None => false,
    };
    assert(same == (st.kind == Some(k)));
    let ghost opens = st.kind != Some(k) || k == TextKind::Symbol;
    if !same || k == TextKind::Symbol {
        flush(source, docs, buffer, *kind, mode)?;
        *kind = Some(k);
        assert(buffer@ =~= Seq::<char>::empty());
        assert(flush_run(*source, st.docs, st.buffer, st.kind, mode) == Ok::<Seq<DocModel>, TextError>(models(docs@)));
    }
    let ghost opened_docs = models(docs@);
    let ghost opened_buffer = buffer@;
    assert(opens ==> flush_run(*source, st.docs, st.buffer, st.kind, mode) == Ok::<Seq<DocModel>, TextError>(opened_docs) && opened_buffer == Seq::<char>::empty());
    assert(!opens ==> opened_docs == st.docs && opened_buffer == st.buffer);
    push_char(buffer, c);
    if k == TextKind::Symbol {
        flush(source, docs, buffer, *kind, mode)?;
        *kind = None;
        assert(buffer@ =~= Seq::<char>::empty());
        assert(flush_run(*source, opened_docs, opened_buffer.push(c), Some(k), mode) == Ok::<Seq<DocModel>, TextError>(models(docs@)));
    }
    *previous = Some(c);
    Ok(())
}

fn kind_of(c: char, previous: Option<char>) -> (r: TextKind)
    ensures
        r == char_kind(c, previous),
{
    if c == ' ' {
        TextKind::Whitespace
    } else if is_word_char(c, previous) {
        TextKind::Word
    } else {
        TextKind::Symbol
    }
}

/// The document of the content of a source line.
fn content_doc<T: TagSource>(content: &str, mode: WidthMode, source: &T) -> (r: Result<Rc<Doc>, TextError>)
    requires
        source.ready(),
        4 * content@.len() <= usize::MAX,
    ensures
        match content_model(*source, content@, mode) {
            Ok(d) => r matches Ok(doc) && doc@ == d,
            Err(e) => r == Err::<Rc<Doc>, TextError>(e),
        },
{
    let ghost s = content@;
    let n = content.unicode_len();
    let mut docs: Vec<Rc<Doc>> = Vec::new();
    let mut buffer = String::new();
    let mut kind: Option<TextKind> = None;
    let mut previous: Option<char> = None;
    let mut i: usize = 0;
    assert(models(docs@) =~= Seq::<DocModel>::empty());
    while i < n
        invariant
            s == content@,
            n == s.len(),
            4 * n <= usize::MAX,
            source.ready(),
            i <= n,
            buffer@.len() <= i,
            (kind is None) == (buffer@.len() == 0),
            content_model(*source, s, mode) == (match lex_from(
                *source,
                s,
                i as int,
                LexState { docs: models(docs@), buffer: buffer@, kind, previous },
                mode,
            ) {
                Err(e) => Err(e),
                Ok(docs) => Ok(spec_concat(docs)),
            }),
        decreases n - i,
    {
        let c = content.get_char(i);
        lex_char(source, c, &mut docs, &mut buffer, &mut kind, &mut previous, mode)?;
        i = i + 1;
    }
    flush(source, &mut docs, &mut buffer, kind, mode)?;
    Ok(concat(docs))
}

/// The number of leading spaces of `s` and the lines split at them.
fn split_indent(source: &str) -> (r: (String, String))
    ensures
        indent_end(source@) <= source@.len(),
        r.0@ == source@.take(indent_end(source@) as int),
        r.1@ == source@.skip(indent_end(source@) as int),
{
    let ghost s = source@;
    let n = source.unicode_len();
    let mut j: usize = 0;
    assert(s.skip(0) =~= s);
    while j < n && source.get_char(j) == ' '
        invariant
            s == source@,
            n == s.len(),
            j <= n,
            indent_end(s) == j + indent_end(s.skip(j as int)),
            forall|k: int| 0 <= k < j ==> s[k] == ' ',
        decreases n - j,
    {
        assert(s.skip(j as int)[0] == s[j as int]);
        assert(s.skip(j as int).drop_first() =~= s.skip(j as int + 1));
        j = j + 1;
    }
    proof {
        if j < n {
            assert(s.skip(j as int)[0] == s[j as int]);
        } else {
            assert(s.skip(j as int).len() == 0);
        }
    }
    let mut leading = String::new();
    let mut k: usize = 0;
    while k < j
        invariant
            k <= j,
            j <= n,
            n == s.len(),
            forall|t: int| 0 <= t < j ==> s[t] == ' ',
            leading@ == s.take(k as int),
        decreases j - k,
    {
        push_char(&mut leading, ' ');
        assert(leading@ =~= s.take(k as int + 1));
        k = k + 1;
    }
    let mut rest = String::new();
    let mut i: usize = j;
    while i < n
        invariant
            s == source@,
            n == s.len(),
            j <= i <= n,
            rest@ == s.subrange(j as int, i as int),
        decreases n - i,
    {
        push_char(&mut rest, source.get_char(i));
        assert(rest@ =~= s.subrange(j as int, i as int + 1));
        i = i + 1;
    }
    assert(rest@ =~= s.skip(j as int));
    (leading, rest)
}

/// The document of one source line.
fn line_doc<T: TagSource>(text: &str, mode: WidthMode, source: &T) -> (r: Result<Rc<Doc>, TextError>)
    requires
        source.ready(),
        4 * text@.len() <= usize::MAX,
    ensures
        match line_model(*source, text@, mode) {
            Ok(d) => r matches Ok(doc) && doc@ == d,
            Err(e) => r == Err::<Rc<Doc>, TextError>(e),
        },
{
    let (leading, content) = split_indent(text);
    if leading.as_str().unicode_len() == 0 {
        let body = content_doc(content.as_str(), mode, source)?;
        return Ok(align(body));
    }
    let t = source.tag_for(TextKind::Indent);
    let lead = try_text_with(leading.as_str(), mode)?;
    let body = content_doc(content.as_str(), mode, source)?;
    let parts = vec![tag(t, lead), align(body)];
    assert(models(parts@) =~= seq![parts@[0]@, parts@[1]@]);
    Ok(concat(parts))
}

/// Normalized text is at most the tab width times longer than its source.
proof fn lemma_normalize_len(s: Seq<char>, i: int, st: NormState, options: IngestOptions)
    requires
        0 <= i <= s.len(),
        st.out.len() <= 255 * i,
        st.line.len() <= st.out.len(),
        options.tab_width > 0,
    ensures
        normalize_from(s, i, st, options) matches Ok(out) ==> out.len() <= 255 * s.len(),
    decreases s.len() - i,
{
    if i < s.len() {
        let c = s[i];
        if c == '\r' {
            let next = if i + 1 < s.len() && s[i + 1] == '\n' {
                i + 2
            } else {
                i + 1
            };
            lemma_normalize_len(s, next, NormState { out: st.out.push('\n'), line: seq![], columns: 0 }, options);
        } else if c == '\n' {
            lemma_normalize_len(s, i + 1, NormState { out: st.out.push('\n'), line: seq![], columns: 0 }, options);
        } else if c == '\t' {
            let tab = options.tab_width as int;
            let n = tab - (st.columns as int) % tab;
            if st.columns + n <= u32::MAX {
                lemma_normalize_len(
                    s,
                    i + 1,
                    NormState {
                        out: st.out + spaces(n as nat),
                        line: st.line + spaces(n as nat),
                        columns: (st.columns + n) as u32,
                    },
                    options,
                );
            }
        } else if !is_control_char(c) {
            let line = st.line.push(c);
            if spec_width(line, options.width_mode) <= u32::MAX {
                lemma_normalize_len(
                    s,
                    i + 1,
                    NormState {
                        out: st.out.push(c),
                        line,
                        columns: spec_width(line, options.width_mode) as u32,
                    },
                    options,
                );
            }
        }
    }
}

/// The document ingested from `input` with tags from `source`.
fn ingest<T: TagSource>(input: &str, options: IngestOptions, source: &T) -> (r: Result<Rc<Doc>, TextError>)
    requires
        source.ready(),
        options.tab_width > 0,
        1020 * input@.len() <= usize::MAX,
    ensures
        match spec_from_text(*source, input@, options) {
            Ok(d) => r matches Ok(doc) && doc@ == d,
            Err(e) => r == Err::<Rc<Doc>, TextError>(e),
        },
{
    if input.unicode_len() == 0 {
        return Ok(empty());
    }
    let normalized = normalize(input, options)?;
    proof {
        lemma_normalize_len(input@, 0, NormState { out: seq![], line: seq![], columns: 0 }, options);
        lemma_split_lines_len(normalized@);
    }
    let lines = split_into_lines(normalized.as_str());
    let ghost ls = split_lines(normalized@);
    let mut docs: Vec<Rc<Doc>> = Vec::new();
    let mut i: usize = 0;
    assert(models(docs@) =~= Seq::<DocModel>::empty());
    while i < lines.len()
        invariant
            source.ready(),
            ls == split_lines(normalized@),
            spec_normalize(input@, options) == Ok::<Seq<char>, TextError>(normalized@),
            input@.len() > 0,
            normalized@.len() <= 255 * input@.len(),
            1020 * input@.len() <= usize::MAX,
            lines@.len() == ls.len(),
            forall|j: int| 0 <= j < lines@.len() ==> (#[trigger] lines@[j])@ == ls[j],
            forall|j: int| 0 <= j < ls.len() ==> (#[trigger] ls[j]).len() <= normalized@.len(),
            i <= lines@.len(),
            lines_from(*source, ls, 0, seq![], options.width_mode) == lines_from(
                *source,
                ls,
                i as int,
                models(docs@),
                options.width_mode,
            ),
        decreases lines@.len() - i,
    {
        let ghost before = docs@;
        if i > 0 {
            docs.push(hardline());
            assert(models(docs@) =~= models(before).push(DocModel::Line(None)));
        }
        let ghost middle = docs@;
        assert(lines@[i as int]@ == ls[i as int]);
        let d = match line_doc(lines[i].as_str(), options.width_mode, source) {
            Ok(d) => d,
            Err(e) => {
                return Err(e);
            },
        };
        docs.push(d);
        assert(models(docs@) =~= models(middle).push(d@));
        i = i + 1;
    }
    Ok(concat(docs))
}

/// Convert arbitrary text while choosing the tag of every classified run.
///
/// The callback is invoked for every emitted semantic run and must give
/// each class one tag.
pub fn from_text_with_annotations<F: Fn(TextKind) -> TagId>(
    input: &str,
    options: IngestOptions,
    annotation: F,
) -> (r: Result<Rc<Doc>, TextError>)
    requires
        annotates(annotation),
        options.tab_width > 0,
        1020 * input@.len() <= usize::MAX,
    ensures
        match spec_from_text(Callback { f: annotation }, input@, options) {
            Ok(d) => r matches Ok(doc) && doc@ == d,
            Err(e) => r == Err::<Rc<Doc>, TextError>(e),
        },
{
    let source = Callback { f: annotation };
    ingest(input, options, &source)
}

/// Convert arbitrary text under an explicit width and tab-stop policy,
/// tagging runs with the built-in tags.
pub fn from_text_with(input: &str, options: IngestOptions) -> (r: Result<Rc<Doc>, TextError>)
    requires
        options.tab_width > 0,
        1020 * input@.len() <= usize::MAX,
    ensures
        match spec_from_text(BuiltInTags, input@, options) {
            Ok(d) => r matches Ok(doc) && doc@ == d,
            Err(e) => r == Err::<Rc<Doc>, TextError>(e),
        },
{
    ingest(input, options, &BuiltInTags)
}

/// Convert arbitrary text into a reflowable document.
///
/// Wide layouts reproduce normalized input: carriage returns become line
/// feeds and tabs expand to eight-column source-line tab stops. Narrow
/// layouts replace horizontal whitespace with a break when the selected
/// layout wraps.
pub fn from_text(input: &str) -> (r: Result<Rc<Doc>, TextError>)
    requires
        1020 * input@.len() <= usize::MAX,
    ensures
        match spec_from_text(BuiltInTags, input@, IngestOptions { width_mode: WidthMode::Narrow, tab_width: 8 }) {
            Ok(d) => r matches Ok(doc) && doc@ == d,
            Err(e) => r == Err::<Rc<Doc>, TextError>(e),
        },
{
    from_text_with(input, IngestOptions::default())
}

} // verus!
