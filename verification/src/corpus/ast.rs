//! Go-like abstract syntax tree formatter.
//!
//! Function signatures hold nested, asymmetric choices: parameters and
//! results break independently while the declaration and body keep their
//! own alternatives.
use crate::corpus::quote::{quote, quoted};
use crate::doc::{
    concat, empty, group, hardline, join, line, measurable, models, nest, softline, space_model,
    spec_concat, spec_group, spec_join, Doc, DocModel, TagId, TextModel, WidthMode,
};
use crate::tags;
use crate::tokens::{annotated, ascii_token, tagged_measured, tagged_text};
use crate::research::push_char;
use std::rc::Rc;
use vstd::prelude::*;

verus! {

/// Tag of keywords.
pub const TAG_KEYWORD: TagId = tags::CUSTOM_START + 8;

/// Tag of identifiers.
pub const TAG_IDENT: TagId = tags::CUSTOM_START + 9;

/// Tag of type names.
pub const TAG_TYPE: TagId = tags::CUSTOM_START + 10;

/// Tag of string literals.
pub const TAG_STRING: TagId = tags::CUSTOM_START + 11;

/// Tag of statements.
pub const TAG_STATEMENT: TagId = tags::CUSTOM_START + 12;

/// A source file: its package, imports and function declarations.
#[derive(Clone, Debug, PartialEq, Eq)]
pub struct File {
    /// Package name.
    pub package: String,
    /// Imports in source order.
    pub imports: Vec<Import>,
    /// Function declarations in source order.
    pub declarations: Vec<FuncDecl>,
}

/// An import, optionally renamed.
#[derive(Clone, Debug, PartialEq, Eq)]
pub struct Import {
    /// Local name, when renamed.
    pub name: Option<String>,
    /// Import path.
    pub path: String,
}

/// A parameter, result or receiver: a name, possibly empty, and a type.
#[derive(Clone, Debug, PartialEq, Eq)]
pub struct Field {
    /// Name; empty for an unnamed field.
    pub name: String,
    /// Type.
    pub ty: String,
}

/// A function declaration.
#[derive(Clone, Debug, PartialEq, Eq)]
pub struct FuncDecl {
    /// Function name.
    pub name: String,
    /// Method receiver.
    pub receiver: Option<Field>,
    /// Parameters.
    pub params: Vec<Field>,
    /// Results.
    pub results: Vec<Field>,
    /// Preformatted statement lines.
    pub body: Vec<String>,
}

/// The formatter and its indentation width.
#[derive(Clone, Copy, Debug, PartialEq, Eq)]
pub struct Formatter {
    /// Indentation of nested blocks.
    pub indent: u16,
}

impl Default for Formatter {
    fn default() -> (r: Self)
        ensures
            r.indent == 4,
    {
        Formatter { indent: 4 }
    }
}

/// The characters of an optional string.
pub open spec fn opt_chars(s: Option<String>) -> Option<Seq<char>> {
    match s {
        Some(v) => Some(v@),
        None => None,
    }
}

/// An import as characters.
pub struct ImportModel {
    /// Local name.
    pub name: Option<Seq<char>>,
    /// Path.
    pub path: Seq<char>,
}

/// A field as characters.
pub struct FieldModel {
    /// Name.
    pub name: Seq<char>,
    /// Type.
    pub ty: Seq<char>,
}

/// A declaration as characters.
pub struct FuncModel {
    /// Name.
    pub name: Seq<char>,
    /// Receiver.
    pub receiver: Option<FieldModel>,
    /// Parameters.
    pub params: Seq<FieldModel>,
    /// Results.
    pub results: Seq<FieldModel>,
    /// Statements.
    pub body: Seq<Seq<char>>,
}

/// A file as characters.
pub struct FileModel {
    /// Package.
    pub package: Seq<char>,
    /// Imports.
    pub imports: Seq<ImportModel>,
    /// Declarations.
    pub declarations: Seq<FuncModel>,
}

impl View for Import {
    type V = ImportModel;

    open spec fn view(&self) -> ImportModel {
        ImportModel { name: opt_chars(self.name), path: self.path@ }
    }
}

impl View for Field {
    type V = FieldModel;

    open spec fn view(&self) -> FieldModel {
        FieldModel { name: self.name@, ty: self.ty@ }
    }
}

/// The models of fields.
pub open spec fn field_models(fs: Seq<Field>) -> Seq<FieldModel> {
    fs.map_values(|f: Field| f@)
}

impl View for FuncDecl {
    type V = FuncModel;

    open spec fn view(&self) -> FuncModel {
        FuncModel {
            name: self.name@,
            receiver: match self.receiver {
                Some(f) => Some(f@),
                None => None,
            },
            params: field_models(self.params@),
            results: field_models(self.results@),
            body: self.body@.map_values(|s: String| s@),
        }
    }
}

impl View for File {
    type V = FileModel;

    open spec fn view(&self) -> FileModel {
        FileModel {
            package: self.package@,
            imports: self.imports@.map_values(|i: Import| i@),
            declarations: self.declarations@.map_values(|d: FuncDecl| d@),
        }
    }
}

/// `s` can be a text run.
pub open spec fn text_ok(s: Seq<char>) -> bool {
    4 * s.len() <= usize::MAX && measurable(s, WidthMode::Narrow)
}

/// `s` can be a string literal run.
pub open spec fn literal_ok(s: Seq<char>) -> bool {
    10 * s.len() + 2 <= u32::MAX
}

/// Every string of a field can be a text run.
pub open spec fn field_ok(f: FieldModel) -> bool {
    text_ok(f.name) && text_ok(f.ty)
}

/// Every string of a declaration can be a text run.
pub open spec fn func_ok(d: FuncModel) -> bool {
    &&& text_ok(d.name)
    &&& d.receiver matches Some(r) ==> field_ok(r)
    &&& forall|i: int| 0 <= i < d.params.len() ==> field_ok(#[trigger] d.params[i])
    &&& forall|i: int| 0 <= i < d.results.len() ==> field_ok(#[trigger] d.results[i])
    &&& forall|i: int| 0 <= i < d.body.len() ==> text_ok(#[trigger] d.body[i])
}

/// Every string of an import can be a run.
pub open spec fn import_ok(i: ImportModel) -> bool {
    &&& i.name matches Some(n) ==> text_ok(n)
    &&& literal_ok(i.path)
}

/// Every string of a file can be a run.
pub open spec fn file_ok(f: FileModel) -> bool {
    &&& text_ok(f.package)
    &&& forall|i: int| 0 <= i < f.imports.len() ==> import_ok(#[trigger] f.imports[i])
    &&& forall|i: int| 0 <= i < f.declarations.len() ==> func_ok(#[trigger] f.declarations[i])
}

/// A one-character symbol.
pub open spec fn sym(c: char) -> DocModel {
    tagged_text(tags::SYMBOL, seq![c], 1)
}

/// One space.
pub open spec fn space_doc() -> DocModel {
    tagged_text(tags::WHITESPACE, seq![' '], 1)
}

/// A keyword.
pub open spec fn keyword_doc(s: Seq<char>) -> DocModel {
    tagged_text(TAG_KEYWORD, s, s.len() as u32)
}

/// A string literal.
pub open spec fn literal_doc(s: Seq<char>) -> DocModel {
    tagged_text(TAG_STRING, quoted(s), quoted(s).len() as u32)
}

/// Two hard breaks.
pub open spec fn double_break() -> DocModel {
    spec_concat(seq![DocModel::Line(None), DocModel::Line(None)])
}

/// A break whose flat form is a space.
pub open spec fn line_doc() -> DocModel {
    DocModel::Line(Some(space_model()))
}

/// A break whose flat form is nothing.
pub open spec fn softline_doc() -> DocModel {
    DocModel::Line(Some(TextModel { value: seq![], columns: 0 }))
}

/// The directory part of an import path: what precedes its last slash.
pub open spec fn last_slash(s: Seq<char>) -> Option<int>
    decreases s.len(),
{
    if s.len() == 0 {
        None
    } else if s.last() == '/' {
        Some(s.len() - 1)
    } else {
        last_slash(s.drop_last())
    }
}

/// A last slash is a slash of the sequence.
pub proof fn lemma_last_slash(s: Seq<char>)
    ensures
        last_slash(s) matches Some(k) ==> 0 <= k < s.len() && s[k] == '/',
    decreases s.len(),
{
    if s.len() > 0 && s.last() != '/' {
        lemma_last_slash(s.drop_last());
    }
}

/// The directory part of an import path, if it has one.
pub open spec fn parent(s: Seq<char>) -> Option<Seq<char>> {
    match last_slash(s) {
        Some(i) => Some(s.subrange(0, i)),
        None => None,
    }
}

/// The end of the run of imports from `k` whose directory is `p`.
pub open spec fn group_end(imps: Seq<ImportModel>, k: int, p: Option<Seq<char>>) -> int
    decreases imps.len() - k,
{
    if 0 <= k < imps.len() && parent(imps[k].path) == p {
        group_end(imps, k + 1, p)
    } else {
        k
    }
}

/// A run of imports ends no earlier than it starts.
pub proof fn lemma_group_end(imps: Seq<ImportModel>, k: int, p: Option<Seq<char>>)
    ensures
        group_end(imps, k, p) >= k,
        0 <= k ==> group_end(imps, k, p) <= imps.len() || group_end(imps, k, p) == k,
    decreases imps.len() - k,
{
    if 0 <= k < imps.len() && parent(imps[k].path) == p {
        lemma_group_end(imps, k + 1, p);
    }
}

/// The indexes `from..to`.
pub open spec fn index_range(from: int, to: int) -> Seq<int> {
    Seq::new((to - from) as nat, |t: int| from + t)
}

/// The import sections from index `i`: a run of two or more consecutive
/// imports sharing a directory forms a section of its own; every other
/// import joins the section of single imports, which comes first.
pub open spec fn sections_from(
    imps: Seq<ImportModel>,
    i: int,
    singles: Seq<int>,
    groups: Seq<Seq<int>>,
) -> Seq<Seq<int>>
    decreases imps.len() - i,
{
    if i < 0 || i >= imps.len() {
        (if singles.len() > 0 {
            seq![singles]
        } else {
            seq![]
        }) + groups
    } else {
        let p = parent(imps[i].path);
        if p is Some && i + 1 < imps.len() && parent(imps[i + 1].path) == p {
            let j = group_end(imps, i + 1, p);
            proof {
                lemma_group_end(imps, i + 1, p);
            }
            sections_from(imps, j, singles, groups.push(index_range(i, j)))
        } else {
            sections_from(imps, i + 1, singles.push(i), groups)
        }
    }
}

/// The import sections of a list of imports.
pub open spec fn import_sections(imps: Seq<ImportModel>) -> Seq<Seq<int>> {
    sections_from(imps, 0, seq![], seq![])
}

/// One import: its name, if renamed, then its quoted path.
pub open spec fn import_doc(i: ImportModel) -> DocModel {
    spec_concat(
        match i.name {
            Some(n) => seq![tagged_measured(TAG_IDENT, n), space_doc()],
            None => seq![],
        } + seq![literal_doc(i.path)],
    )
}

/// Indentation of `n` spaces.
pub open spec fn indent_doc(n: u16) -> DocModel {
    tagged_text(tags::INDENT, Seq::new(n as nat, |i: int| ' '), n as u32)
}

/// One section of a multi-import block.
pub open spec fn section_doc(indent: u16, imps: Seq<ImportModel>, section: Seq<int>) -> DocModel {
    spec_join(
        DocModel::Line(None),
        section.map_values(|k: int| spec_concat(seq![indent_doc(indent), import_doc(imps[k])])),
    )
}

/// The imports of a file.
pub open spec fn imports_doc(indent: u16, imps: Seq<ImportModel>) -> DocModel {
    if imps.len() == 0 {
        DocModel::Empty
    } else if imps.len() == 1 {
        spec_concat(seq![keyword_doc("import"@), space_doc(), import_doc(imps[0])])
    } else {
        let body = spec_join(
            double_break(),
            import_sections(imps).map_values(|s: Seq<int>| section_doc(indent, imps, s)),
        );
        spec_concat(
            seq![
                keyword_doc("import"@),
                space_doc(),
                sym('('),
                DocModel::Line(None),
                body,
                DocModel::Line(None),
                sym(')'),
            ],
        )
    }
}

/// A field: its type, preceded by its name and a space when named.
pub open spec fn field_doc(f: FieldModel) -> DocModel {
    if f.name.len() == 0 {
        tagged_measured(TAG_TYPE, f.ty)
    } else {
        spec_concat(seq![tagged_measured(TAG_IDENT, f.name), space_doc(), tagged_measured(TAG_TYPE, f.ty)])
    }
}

/// A parenthesized field list that breaks after the opening parenthesis,
/// between fields and before the closing one when it does not fit.
pub open spec fn field_list_doc(indent: u16, fs: Seq<FieldModel>) -> DocModel {
    spec_group(
        spec_concat(
            seq![
                sym('('),
                DocModel::Nest(
                    indent,
                    Box::new(
                        spec_concat(
                            seq![
                                softline_doc(),
                                spec_join(
                                    spec_concat(seq![sym(','), line_doc()]),
                                    fs.map_values(|f: FieldModel| field_doc(f)),
                                ),
                            ],
                        ),
                    ),
                ),
                softline_doc(),
                sym(')'),
            ],
        ),
    )
}

/// The results of a signature: nothing, one unnamed type, or a list.
pub open spec fn results_doc(indent: u16, rs: Seq<FieldModel>) -> DocModel {
    if rs.len() == 0 {
        DocModel::Empty
    } else if rs.len() == 1 && rs[0].name.len() == 0 {
        spec_concat(seq![space_doc(), tagged_measured(TAG_TYPE, rs[0].ty)])
    } else {
        spec_concat(seq![space_doc(), field_list_doc(indent, rs)])
    }
}

/// The signature of a declaration.
pub open spec fn signature_doc(indent: u16, d: FuncModel) -> DocModel {
    let receiver = match d.receiver {
        Some(r) => spec_concat(seq![sym('('), field_doc(r), sym(')'), space_doc()]),
        None => DocModel::Empty,
    };
    spec_group(
        spec_concat(
            seq![
                keyword_doc("func"@),
                space_doc(),
                receiver,
                tagged_measured(TAG_IDENT, d.name),
                field_list_doc(indent, d.params),
                results_doc(indent, d.results),
            ],
        ),
    )
}

/// A declaration: its signature and its body, which breaks onto indented
/// lines when it does not fit.
pub open spec fn func_doc(indent: u16, d: FuncModel) -> DocModel {
    let signature = signature_doc(indent, d);
    if d.body.len() == 0 {
        spec_concat(seq![signature, space_doc(), sym('{'), sym('}')])
    } else {
        let body = spec_join(
            DocModel::Line(None),
            d.body.map_values(|s: Seq<char>| tagged_measured(TAG_STATEMENT, s)),
        );
        spec_group(
            spec_concat(
                seq![
                    signature,
                    space_doc(),
                    sym('{'),
                    DocModel::Nest(indent, Box::new(spec_concat(seq![line_doc(), body]))),
                    line_doc(),
                    sym('}'),
                ],
            ),
        )
    }
}

/// A file: its package clause, its imports and its declarations, separated
/// by blank lines.
pub open spec fn file_doc(indent: u16, f: FileModel) -> DocModel {
    let package = spec_concat(seq![keyword_doc("package"@), space_doc(), tagged_measured(TAG_IDENT, f.package)]);
    let declarations = spec_join(
        double_break(),
        f.declarations.map_values(|d: FuncModel| func_doc(indent, d)),
    );
    spec_join(
        double_break(),
        seq![package] + (if f.imports.len() > 0 {
            seq![imports_doc(indent, f.imports)]
        } else {
            seq![]
        }) + (if f.declarations.len() > 0 {
            seq![declarations]
        } else {
            seq![]
        }),
    )
}

/// Indexes as integers.
pub open spec fn index_model(v: Seq<usize>) -> Seq<int> {
    v.map_values(|k: usize| k as int)
}

/// Sections of indexes as integers.
pub open spec fn sections_model(v: Seq<Vec<usize>>) -> Seq<Seq<int>> {
    v.map_values(|s: Vec<usize>| index_model(s@))
}

/// The models of imports.
pub open spec fn import_models(v: Seq<Import>) -> Seq<ImportModel> {
    v.map_values(|i: Import| i@)
}

/// Printable ASCII text under `t`.
fn ascii_tagged(t: TagId, value: &str) -> (r: Rc<Doc>)
    requires
        crate::doc::is_printable_ascii(value@),
        value@.len() <= u32::MAX,
    ensures
        r@ == tagged_text(t, value@, value@.len() as u32),
{
    ascii_token(t, value)
}

fn keyword_package() -> (r: Rc<Doc>)
    ensures
        r@ == keyword_doc("package"@),
{
    let s = "package";
    proof {
        reveal_strlit("package");
        assert(s@ =~= seq!['p', 'a', 'c', 'k', 'a', 'g', 'e']);
    }
    ascii_tagged(TAG_KEYWORD, s)
}

fn keyword_import() -> (r: Rc<Doc>)
    ensures
        r@ == keyword_doc("import"@),
{
    let s = "import";
    proof {
        reveal_strlit("import");
        assert(s@ =~= seq!['i', 'm', 'p', 'o', 'r', 't']);
    }
    ascii_tagged(TAG_KEYWORD, s)
}

fn keyword_func() -> (r: Rc<Doc>)
    ensures
        r@ == keyword_doc("func"@),
{
    let s = "func";
    proof {
        reveal_strlit("func");
        assert(s@ =~= seq!['f', 'u', 'n', 'c']);
    }
    ascii_tagged(TAG_KEYWORD, s)
}

/// A quoted, escaped string literal.
fn string_literal(value: &str) -> (r: Rc<Doc>)
    requires
        literal_ok(value@),
    ensures
        r@ == literal_doc(value@),
{
    let q = quote(value);
    ascii_tagged(TAG_STRING, q.as_str())
}

fn double_hardline() -> (r: Rc<Doc>)
    ensures
        r@ == double_break(),
{
    let parts = vec![hardline(), hardline()];
    assert(models(parts@) =~= seq![DocModel::Line(None), DocModel::Line(None)]);
    concat(parts)
}

/// The index of the last slash among the first `i` characters of `s`.
fn last_slash_before(s: &str, i: usize) -> (r: Option<usize>)
    requires
        i <= s@.len(),
    ensures
        r matches Some(k) ==> last_slash(s@.take(i as int)) == Some(k as int),
        r is None ==> last_slash(s@.take(i as int)) is None,
    decreases i,
{
    if i == 0 {
        return None;
    }
    let ghost t = s@.take(i as int);
    proof {
        assert(t.drop_last() =~= s@.take(i as int - 1));
        assert(t.last() == s@[i as int - 1]);
    }
    if s.get_char(i - 1) == '/' {
        Some(i - 1)
    } else {
        last_slash_before(s, i - 1)
    }
}

/// The directory part of an import path.
fn parent_of(s: &str) -> (r: Option<String>)
    ensures
        opt_chars(r) == parent(s@),
{
    let n = s.unicode_len();
    assert(s@.take(n as int) =~= s@);
    proof {
        lemma_last_slash(s@);
    }
    match last_slash_before(s, n) {
        None => None,
        Some(k) => {
            let mut out = String::new();
            let mut j: usize = 0;
            while j < k
                invariant
                    k < s@.len(),
                    j <= k,
                    out@ == s@.take(j as int),
                decreases k - j,
            {
                push_char(&mut out, s.get_char(j));
                assert(out@ =~= s@.take(j as int + 1));
                j = j + 1;
            }
            assert(out@ =~= s@.subrange(0, k as int));
            Some(out)
        },
    }
}

/// Two optional directories are equal.
fn same_dir(a: &Option<String>, b: &Option<String>) -> (r: bool)
    ensures
        r == (opt_chars(*a) == opt_chars(*b)),
{
    match (a, b) {
        (Some(x), Some(y)) => x.eq(y),
        (None, None) => true,
        _ => false,
    }
}

/// The import sections of `imports`, as [`import_sections`] gives them.
fn sections(imports: &Vec<Import>) -> (r: Vec<Vec<usize>>)
    ensures
        sections_model(r@) == import_sections(import_models(imports@)),
        forall|i: int, j: int|
            0 <= i < r@.len() && 0 <= j < r@[i]@.len() ==> (#[trigger] r@[i]@[j]) < imports@.len(),
{
    let ghost imps = import_models(imports@);
    let n = imports.len();
    let mut singles: Vec<usize> = Vec::new();
    let mut groups: Vec<Vec<usize>> = Vec::new();
    let mut i: usize = 0;
    assert(index_model(singles@) =~= Seq::<int>::empty());
    assert(sections_model(groups@) =~= Seq::<Seq<int>>::empty());
    while i < n
        invariant
            n == imports@.len(),
            imps == import_models(imports@),
            i <= n,
            sections_from(imps, i as int, index_model(singles@), sections_model(groups@)) == import_sections(imps),
            forall|j: int| 0 <= j < singles@.len() ==> (#[trigger] singles@[j]) < n,
            forall|a: int, b: int|
                0 <= a < groups@.len() && 0 <= b < groups@[a]@.len() ==> (#[trigger] groups@[a]@[b]) < n,
        decreases n - i,
    {
        let p = parent_of(imports[i].path.as_str());
        let grouped = match &p {
            Some(_) => i + 1 < n && same_dir(&p, &parent_of(imports[i + 1].path.as_str())),
            None => false,
        };
        let ghost pm = parent(imps[i as int].path);
        assert(imps[i as int] == imports@[i as int]@);
        if !grouped {
            proof {
                assert(index_model(singles@.push(i)) =~= index_model(singles@).push(i as int));
            }
            singles.push(i);
            i = i + 1;
        } else {
            let start = i;
            let ghost end = group_end(imps, start as int + 1, pm);
            let mut group: Vec<usize> = Vec::new();
            group.push(i);
            i = i + 1;
            proof {
                assert(index_model(group@) =~= index_range(start as int, i as int));
                assert(group_end(imps, i as int, pm) == end);
            }
            while i < n && same_dir(&parent_of(imports[i].path.as_str()), &p)
                invariant
                    n == imports@.len(),
                    imps == import_models(imports@),
                    start < i <= n,
                    opt_chars(p) == pm,
                    index_model(group@) == index_range(start as int, i as int),
                    group_end(imps, i as int, pm) == end,
                    forall|j: int| 0 <= j < group@.len() ==> (#[trigger] group@[j]) < i,
                decreases n - i,
            {
                assert(imps[i as int] == imports@[i as int]@);
                proof {
                    assert(index_model(group@.push(i)) =~= index_model(group@).push(i as int));
                    assert(index_range(start as int, i as int + 1) =~= index_range(start as int, i as int).push(i as int));
                }
                group.push(i);
                i = i + 1;
            }
            proof {
                if i < n {
                    assert(imps[i as int] == imports@[i as int]@);
                }
                assert(end == i);
                assert(sections_model(groups@.push(group)) =~= sections_model(groups@).push(
                    index_range(start as int, i as int),
                ));
            }
            groups.push(group);
        }
    }
    let mut out: Vec<Vec<usize>> = Vec::new();
    if singles.len() > 0 {
        out.push(singles);
    }
    let ghost before = out@;
    let ghost moved = groups@;
    out.append(&mut groups);
    proof {
        assert(out@ == before + moved);
        assert(sections_model(out@) =~= sections_model(before) + sections_model(moved));
    }
    out
}

/// Appends a document.
fn push_doc(docs: &mut Vec<Rc<Doc>>, d: Rc<Doc>)
    ensures
        models(final(docs)@) == models(old(docs)@).push(d@),
{
    let ghost before = docs@;
    docs.push(d);
    assert(models(docs@) =~= models(before).push(docs@.last()@));
}

/// One space.
fn space() -> (r: Rc<Doc>)
    ensures
        r@ == space_doc(),
{
    crate::tokens::space()
}

/// `n` spaces of indentation.
fn indentation(n: u16) -> (r: Rc<Doc>)
    ensures
        r@ == indent_doc(n),
{
    let mut spaces = String::new();
    let mut i: u16 = 0;
    while i < n
        invariant
            i <= n,
            spaces@ == Seq::new(i as nat, |k: int| ' '),
        decreases n - i,
    {
        push_char(&mut spaces, ' ');
        assert(spaces@ =~= Seq::new((i + 1) as nat, |k: int| ' '));
        i = i + 1;
    }
    ascii_tagged(tags::INDENT, spaces.as_str())
}

impl Import {
    /// An import of `path` under its own name.
    pub fn new(path: &str) -> (r: Self)
        ensures
            r@ == (ImportModel { name: None, path: path@ }),
    {
        Import { name: None, path: path.to_owned() }
    }

    /// An import of `path` under the local `name`.
    pub fn named(name: &str, path: &str) -> (r: Self)
        ensures
            r@ == (ImportModel { name: Some(name@), path: path@ }),
    {
        Import { name: Some(name.to_owned()), path: path.to_owned() }
    }
}

impl Field {
    /// A field with a name and a type.
    pub fn named(name: &str, ty: &str) -> (r: Self)
        ensures
            r@ == (FieldModel { name: name@, ty: ty@ }),
    {
        Field { name: name.to_owned(), ty: ty.to_owned() }
    }

    /// A field of a type only.
    pub fn unnamed(ty: &str) -> (r: Self)
        ensures
            r@ == (FieldModel { name: Seq::<char>::empty(), ty: ty@ }),
    {
        Field { name: String::new(), ty: ty.to_owned() }
    }
}

impl Formatter {
    fn format_import(&self, import: &Import) -> (r: Rc<Doc>)
        requires
            import_ok(import@),
        ensures
            r@ == import_doc(import@),
    {
        let mut docs: Vec<Rc<Doc>> = Vec::new();
        match &import.name {
            Some(name) => {
                docs.push(annotated(TAG_IDENT, name.as_str()));
                docs.push(space());
            },
            None => {},
        }
        docs.push(string_literal(import.path.as_str()));
        proof {
            match import@.name {
                Some(n) => {
                    assert(models(docs@) =~= seq![tagged_measured(TAG_IDENT, n), space_doc()] + seq![
                        literal_doc(import@.path),
                    ]);
                },
                None => {
                    assert(models(docs@) =~= Seq::<DocModel>::empty() + seq![literal_doc(import@.path)]);
                },
            }
        }
        concat(docs)
    }

    fn format_section(&self, imports: &Vec<Import>, section: &Vec<usize>) -> (r: Rc<Doc>)
        requires
            forall|i: int| 0 <= i < imports@.len() ==> import_ok(#[trigger] imports@[i]@),
            forall|j: int| 0 <= j < section@.len() ==> (#[trigger] section@[j]) < imports@.len(),
        ensures
            r@ == section_doc(self.indent, import_models(imports@), index_model(section@)),
    {
        let ghost imps = import_models(imports@);
        let ghost target = index_model(section@).map_values(
            |k: int| spec_concat(seq![indent_doc(self.indent), import_doc(imps[k])]),
        );
        let mut docs: Vec<Rc<Doc>> = Vec::new();
        let mut j: usize = 0;
        while j < section.len()
            invariant
                j <= section@.len(),
                imps == import_models(imports@),
                forall|i: int| 0 <= i < imports@.len() ==> import_ok(#[trigger] imports@[i]@),
                forall|t: int| 0 <= t < section@.len() ==> (#[trigger] section@[t]) < imports@.len(),
                target == index_model(section@).map_values(
                    |k: int| spec_concat(seq![indent_doc(self.indent), import_doc(imps[k])]),
                ),
                models(docs@) == target.take(j as int),
            decreases section@.len() - j,
        {
            let k = section[j];
            let parts = vec![indentation(self.indent), self.format_import(&imports[k])];
            assert(models(parts@) =~= seq![indent_doc(self.indent), import_doc(imps[k as int])]);
            let d = concat(parts);
            push_doc(&mut docs, d);
            assert(target.take(j as int + 1) =~= target.take(j as int).push(target[j as int]));
            j = j + 1;
        }
        assert(target.take(section@.len() as int) =~= target);
        join(hardline(), docs)
    }

    fn format_imports(&self, imports: &Vec<Import>) -> (r: Rc<Doc>)
        requires
            forall|i: int| 0 <= i < imports@.len() ==> import_ok(#[trigger] imports@[i]@),
        ensures
            r@ == imports_doc(self.indent, import_models(imports@)),
    {
        let ghost imps = import_models(imports@);
        if imports.len() == 0 {
            return empty();
        }
        if imports.len() == 1 {
            let parts = vec![keyword_import(), space(), self.format_import(&imports[0])];
            assert(models(parts@) =~= seq![keyword_doc("import"@), space_doc(), import_doc(imps[0])]);
            return concat(parts);
        }
        let sections = sections(imports);
        let ghost ss = import_sections(imps);
        let ghost target = ss.map_values(|sec: Seq<int>| section_doc(self.indent, imps, sec));
        let mut docs: Vec<Rc<Doc>> = Vec::new();
        let mut j: usize = 0;
        while j < sections.len()
            invariant
                j <= sections@.len(),
                imps == import_models(imports@),
                ss == import_sections(imps),
                sections_model(sections@) == ss,
                forall|i: int| 0 <= i < imports@.len() ==> import_ok(#[trigger] imports@[i]@),
                forall|a: int, b: int|
                    0 <= a < sections@.len() && 0 <= b < sections@[a]@.len() ==> (#[trigger] sections@[a]@[b])
                        < imports@.len(),
                target == ss.map_values(|sec: Seq<int>| section_doc(self.indent, imps, sec)),
                models(docs@) == target.take(j as int),
            decreases sections@.len() - j,
        {
            assert(ss[j as int] == index_model(sections@[j as int]@));
            let d = self.format_section(imports, &sections[j]);
            push_doc(&mut docs, d);
            assert(target.take(j as int + 1) =~= target.take(j as int).push(target[j as int]));
            j = j + 1;
        }
        assert(target.take(sections@.len() as int) =~= target);
        let body = join(double_hardline(), docs);
        let parts = vec![keyword_import(), space(), crate::tokens::lparen(), hardline(), body, hardline(), crate::tokens::rparen()];
        assert(models(parts@) =~= seq![
            keyword_doc("import"@),
            space_doc(),
            sym('('),
            DocModel::Line(None),
            spec_join(double_break(), target),
            DocModel::Line(None),
            sym(')'),
        ]);
        concat(parts)
    }

    fn format_field(&self, field: &Field) -> (r: Rc<Doc>)
        requires
            field_ok(field@),
        ensures
            r@ == field_doc(field@),
    {
        if field.name.unicode_len() == 0 {
            annotated(TAG_TYPE, field.ty.as_str())
        } else {
            let parts = vec![annotated(TAG_IDENT, field.name.as_str()), space(), annotated(TAG_TYPE, field.ty.as_str())];
            assert(models(parts@) =~= seq![
                tagged_measured(TAG_IDENT, field@.name),
                space_doc(),
                tagged_measured(TAG_TYPE, field@.ty),
            ]);
            concat(parts)
        }
    }

    fn field_list(&self, fields: &Vec<Field>) -> (r: Rc<Doc>)
        requires
            forall|i: int| 0 <= i < fields@.len() ==> field_ok(#[trigger] fields@[i]@),
        ensures
            r@ == field_list_doc(self.indent, field_models(fields@)),
    {
        let ghost fs = field_models(fields@);
        let ghost target = fs.map_values(|f: FieldModel| field_doc(f));
        let mut docs: Vec<Rc<Doc>> = Vec::new();
        let mut j: usize = 0;
        while j < fields.len()
            invariant
                j <= fields@.len(),
                fs == field_models(fields@),
                forall|i: int| 0 <= i < fields@.len() ==> field_ok(#[trigger] fields@[i]@),
                target == fs.map_values(|f: FieldModel| field_doc(f)),
                models(docs@) == target.take(j as int),
            decreases fields@.len() - j,
        {
            let d = self.format_field(&fields[j]);
            push_doc(&mut docs, d);
            assert(target.take(j as int + 1) =~= target.take(j as int).push(target[j as int]));
            j = j + 1;
        }
        assert(target.take(fields@.len() as int) =~= target);
        let sep_parts = vec![crate::tokens::comma(), line()];
        assert(models(sep_parts@) =~= seq![sym(','), line_doc()]);
        let separator = concat(sep_parts);
        let inner_parts = vec![softline(), join(separator, docs)];
        assert(models(inner_parts@) =~= seq![
            softline_doc(),
            spec_join(spec_concat(seq![sym(','), line_doc()]), target),
        ]);
        let inner = concat(inner_parts);
        let parts = vec![crate::tokens::lparen(), nest(self.indent, inner), softline(), crate::tokens::rparen()];
        assert(models(parts@) =~= seq![
            sym('('),
            DocModel::Nest(
                self.indent,
                Box::new(spec_concat(seq![softline_doc(), spec_join(spec_concat(seq![sym(','), line_doc()]), target)])),
            ),
            softline_doc(),
            sym(')'),
        ]);
        group(concat(parts))
    }

    fn format_results(&self, results: &Vec<Field>) -> (r: Rc<Doc>)
        requires
            forall|i: int| 0 <= i < results@.len() ==> field_ok(#[trigger] results@[i]@),
        ensures
            r@ == results_doc(self.indent, field_models(results@)),
    {
        if results.len() == 0 {
            empty()
        } else if results.len() == 1 && results[0].name.unicode_len() == 0 {
            let parts = vec![space(), annotated(TAG_TYPE, results[0].ty.as_str())];
            assert(models(parts@) =~= seq![space_doc(), tagged_measured(TAG_TYPE, results@[0]@.ty)]);
            concat(parts)
        } else {
            let parts = vec![space(), self.field_list(results)];
            assert(models(parts@) =~= seq![space_doc(), field_list_doc(self.indent, field_models(results@))]);
            concat(parts)
        }
    }
}

impl Formatter {
    fn format_receiver(&self, receiver: &Option<Field>) -> (r: Rc<Doc>)
        requires
            receiver matches Some(f) ==> field_ok(f@),
        ensures
            r@ == (match *receiver {
                Some(f) => spec_concat(seq![sym('('), field_doc(f@), sym(')'), space_doc()]),
                None => DocModel::Empty,
            }),
    {
        match receiver {
            Some(field) => {
                let parts = vec![crate::tokens::lparen(), self.format_field(field), crate::tokens::rparen(), space()];
                assert(models(parts@) =~= seq![sym('('), field_doc(field@), sym(')'), space_doc()]);
                concat(parts)
            },
            None => empty(),
        }
    }

    fn format_signature(&self, decl: &FuncDecl) -> (r: Rc<Doc>)
        requires
            func_ok(decl@),
        ensures
            r@ == signature_doc(self.indent, decl@),
    {
        let ghost d = decl@;
        assert(forall|i: int| 0 <= i < decl.params@.len() ==> #[trigger] decl.params@[i]@ == d.params[i]);
        assert(forall|i: int| 0 <= i < decl.results@.len() ==> #[trigger] decl.results@[i]@ == d.results[i]);
        let receiver = self.format_receiver(&decl.receiver);
        let parts = vec![
            keyword_func(),
            space(),
            receiver,
            annotated(TAG_IDENT, decl.name.as_str()),
            self.field_list(&decl.params),
            self.format_results(&decl.results),
        ];
        assert(models(parts@) =~= seq![
            keyword_doc("func"@),
            space_doc(),
            match d.receiver {
                Some(r) => spec_concat(seq![sym('('), field_doc(r), sym(')'), space_doc()]),
                None => DocModel::Empty,
            },
            tagged_measured(TAG_IDENT, d.name),
            field_list_doc(self.indent, d.params),
            results_doc(self.indent, d.results),
        ]);
        let ghost rcv = match d.receiver {
            Some(r) => spec_concat(seq![sym('('), field_doc(r), sym(')'), space_doc()]),
            None => DocModel::Empty,
        };
        let ghost expected = seq![
            keyword_doc("func"@),
            space_doc(),
            rcv,
            tagged_measured(TAG_IDENT, d.name),
            field_list_doc(self.indent, d.params),
            results_doc(self.indent, d.results),
        ];
        assert(models(parts@) == expected);
        assert(signature_doc(self.indent, d) == spec_group(spec_concat(expected)));
        group(concat(parts))
    }

    fn format_body(&self, body: &Vec<String>) -> (r: Rc<Doc>)
        requires
            forall|i: int| 0 <= i < body@.len() ==> text_ok(#[trigger] body@[i]@),
        ensures
            r@ == spec_join(
                DocModel::Line(None),
                body@.map_values(|s: String| s@).map_values(|s: Seq<char>| tagged_measured(TAG_STATEMENT, s)),
            ),
    {
        let ghost target = body@.map_values(|s: String| s@).map_values(
            |s: Seq<char>| tagged_measured(TAG_STATEMENT, s),
        );
        let mut docs: Vec<Rc<Doc>> = Vec::new();
        let mut j: usize = 0;
        while j < body.len()
            invariant
                j <= body@.len(),
                forall|i: int| 0 <= i < body@.len() ==> text_ok(#[trigger] body@[i]@),
                target == body@.map_values(|s: String| s@).map_values(
                    |s: Seq<char>| tagged_measured(TAG_STATEMENT, s),
                ),
                models(docs@) == target.take(j as int),
            decreases body@.len() - j,
        {
            let d = annotated(TAG_STATEMENT, body[j].as_str());
            push_doc(&mut docs, d);
            assert(target.take(j as int + 1) =~= target.take(j as int).push(target[j as int]));
            j = j + 1;
        }
        assert(target.take(body@.len() as int) =~= target);
        join(hardline(), docs)
    }

    /// Formats one function declaration: its signature grouped on one
    /// line when it fits, and its body on indented lines.
    pub fn format_func(&self, decl: &FuncDecl) -> (r: Rc<Doc>)
        requires
            func_ok(decl@),
        ensures
            r@ == func_doc(self.indent, decl@),
    {
        let ghost d = decl@;
        let signature = self.format_signature(decl);
        if decl.body.len() == 0 {
            let parts = vec![signature, space(), crate::tokens::lbrace(), crate::tokens::rbrace()];
            assert(models(parts@) =~= seq![signature_doc(self.indent, d), space_doc(), sym('{'), sym('}')]);
            return concat(parts);
        }
        assert(forall|i: int| 0 <= i < decl.body@.len() ==> #[trigger] decl.body@[i]@ == d.body[i]);
        let body = self.format_body(&decl.body);
        let ghost body_doc = spec_join(
            DocModel::Line(None),
            d.body.map_values(|s: Seq<char>| tagged_measured(TAG_STATEMENT, s)),
        );
        assert(body@ == body_doc);
        let inner_parts = vec![line(), body];
        assert(models(inner_parts@) =~= seq![line_doc(), body_doc]);
        let inner = concat(inner_parts);
        let parts = vec![
            signature,
            space(),
            crate::tokens::lbrace(),
            nest(self.indent, inner),
            line(),
            crate::tokens::rbrace(),
        ];
        assert(models(parts@) =~= seq![
            signature_doc(self.indent, d),
            space_doc(),
            sym('{'),
            DocModel::Nest(self.indent, Box::new(spec_concat(seq![line_doc(), body_doc]))),
            line_doc(),
            sym('}'),
        ]);
        group(concat(parts))
    }

    /// Formats a file: the package clause, the imports and the
    /// declarations, separated by blank lines.
    pub fn format_file(&self, file: &File) -> (r: Rc<Doc>)
        requires
            file_ok(file@),
        ensures
            r@ == file_doc(self.indent, file@),
    {
        let ghost f = file@;
        let package_parts = vec![keyword_package(), space(), annotated(TAG_IDENT, file.package.as_str())];
        assert(models(package_parts@) =~= seq![
            keyword_doc("package"@),
            space_doc(),
            tagged_measured(TAG_IDENT, f.package),
        ]);
        let package = concat(package_parts);
        assert(forall|i: int| 0 <= i < file.imports@.len() ==> #[trigger] file.imports@[i]@ == f.imports[i]);
        let imports = self.format_imports(&file.imports);
        assert(import_models(file.imports@) == f.imports);
        let ghost target = f.declarations.map_values(|d: FuncModel| func_doc(self.indent, d));
        let mut docs: Vec<Rc<Doc>> = Vec::new();
        let mut j: usize = 0;
        while j < file.declarations.len()
            invariant
                j <= file.declarations@.len(),
                f == file@,
                file_ok(f),
                target == f.declarations.map_values(|d: FuncModel| func_doc(self.indent, d)),
                models(docs@) == target.take(j as int),
            decreases file.declarations@.len() - j,
        {
            assert(file.declarations@[j as int]@ == f.declarations[j as int]);
            let d = self.format_func(&file.declarations[j]);
            push_doc(&mut docs, d);
            assert(target.take(j as int + 1) =~= target.take(j as int).push(target[j as int]));
            j = j + 1;
        }
        assert(target.take(file.declarations@.len() as int) =~= target);
        let declarations = join(double_hardline(), docs);
        let mut sections: Vec<Rc<Doc>> = Vec::new();
        push_doc(&mut sections, package);
        let ghost with_imports = if f.imports.len() > 0 {
            seq![imports_doc(self.indent, f.imports)]
        } else {
            Seq::<DocModel>::empty()
        };
        if file.imports.len() > 0 {
            push_doc(&mut sections, imports);
        }
        assert(models(sections@) =~= seq![spec_concat(seq![keyword_doc("package"@), space_doc(), tagged_measured(TAG_IDENT, f.package)])] + with_imports);
        let ghost decl_part = spec_join(double_break(), target);
        if file.declarations.len() > 0 {
            push_doc(&mut sections, declarations);
        }
        assert(models(sections@) =~= seq![spec_concat(seq![keyword_doc("package"@), space_doc(), tagged_measured(TAG_IDENT, f.package)])] + with_imports + (if f.declarations.len() > 0 {
            seq![decl_part]
        } else {
            Seq::<DocModel>::empty()
        }));
        join(double_hardline(), sections)
    }
}

/// The model of [`sample_file`].
pub open spec fn sample_file_model() -> FileModel {
    FileModel {
        package: "main"@,
        imports: seq![
            ImportModel { name: None, path: "fmt"@ },
            ImportModel { name: None, path: "strings"@ },
            ImportModel { name: Some("json"@), path: "encoding/json"@ },
            ImportModel { name: None, path: "encoding/xml"@ },
        ],
        declarations: seq![
            FuncModel {
                name: "processData"@,
                receiver: Some(FieldModel { name: "p"@, ty: "Processor"@ }),
                params: seq![
                    FieldModel { name: "data"@, ty: "[]byte"@ },
                    FieldModel { name: "options"@, ty: "*Options"@ },
                ],
                results: seq![
                    FieldModel { name: "result"@, ty: "ProcessResult"@ },
                    FieldModel { name: "err"@, ty: "error"@ },
                ],
                body: seq!["// ... formatted statements"@],
            },
        ],
    }
}

/// A sample file with grouped imports and a method with named results.
pub fn sample_file() -> (r: File)
    ensures
        r@ == sample_file_model(),
{
    let receiver = Field::named("p", "Processor");
    let params = vec![Field::named("data", "[]byte"), Field::named("options", "*Options")];
    let results = vec![Field::named("result", "ProcessResult"), Field::named("err", "error")];
    let body = vec!["// ... formatted statements".to_owned()];
    let decl = FuncDecl { name: "processData".to_owned(), receiver: Some(receiver), params, results, body };
    let imports = vec![
        Import::new("fmt"),
        Import::new("strings"),
        Import::named("json", "encoding/json"),
        Import::new("encoding/xml"),
    ];
    let declarations = vec![decl];
    let file = File { package: "main".to_owned(), imports, declarations };
    assert(file@.imports =~= sample_file_model().imports);
    assert(file@.declarations[0].params =~= sample_file_model().declarations[0].params);
    assert(file@.declarations[0].results =~= sample_file_model().declarations[0].results);
    assert(file@.declarations[0].body =~= sample_file_model().declarations[0].body);
    assert(file@.declarations =~= sample_file_model().declarations);
    file
}

/// The model of [`asymmetric_file`].
pub open spec fn asymmetric_file_model() -> FileModel {
    FileModel {
        package: "p"@,
        imports: seq![],
        declarations: seq![
            FuncModel {
                name: "f"@,
                receiver: None,
                params: seq![FieldModel { name: "a"@, ty: "A"@ }, FieldModel { name: "b"@, ty: "B"@ }],
                results: seq![FieldModel { name: "x"@, ty: "XXXX"@ }, FieldModel { name: "y"@, ty: "YYYY"@ }],
                body: seq!["work()"@],
            },
        ],
    }
}

/// A small file whose signature fits with its parameters flat and its
/// results broken, which first-fit layout does not find.
pub fn asymmetric_file() -> (r: File)
    ensures
        r@ == asymmetric_file_model(),
{
    let params = vec![Field::named("a", "A"), Field::named("b", "B")];
    let results = vec![Field::named("x", "XXXX"), Field::named("y", "YYYY")];
    let body = vec!["work()".to_owned()];
    let decl = FuncDecl { name: "f".to_owned(), receiver: None, params, results, body };
    let declarations = vec![decl];
    let file = File { package: "p".to_owned(), imports: Vec::new(), declarations };
    assert(file@.imports =~= asymmetric_file_model().imports);
    assert(file@.declarations[0].params =~= asymmetric_file_model().declarations[0].params);
    assert(file@.declarations[0].results =~= asymmetric_file_model().declarations[0].results);
    assert(file@.declarations[0].body =~= asymmetric_file_model().declarations[0].body);
    assert(file@.declarations =~= asymmetric_file_model().declarations);
    file
}

} // verus!
