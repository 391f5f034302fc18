//! SQL formatter: a query's clauses each start on a line of their own, with
//! selections, grouping columns and join conditions indented beneath them.
use crate::corpus::ast::text_ok;
use crate::corpus::json::{digits, lemma_digits, pow10, push_digits};
use crate::doc::{
    concat, empty, group, hardline, is_printable_ascii, join, models, nest, spec_concat, spec_group,
    spec_join, tag, Doc, DocModel, TagId, TextRun,
};
use crate::research::push_char;
use crate::tags;
use crate::tokens::{annotated, comma, lparen, rparen, space, tagged_measured, tagged_text};
use std::rc::Rc;
use vstd::prelude::*;
use vstd::string::StrSliceExecFns;

verus! {

/// Tag of keywords.
pub const TAG_KEYWORD: TagId = tags::CUSTOM_START + 16;

/// Tag of expressions.
pub const TAG_EXPRESSION: TagId = tags::CUSTOM_START + 17;

/// Tag of identifiers.
pub const TAG_IDENT: TagId = tags::CUSTOM_START + 18;

/// Tag of numbers.
pub const TAG_NUMBER: TagId = tags::CUSTOM_START + 19;

/// A query: its common table expressions, selections, source table, joins
/// and the remaining clauses; an empty string stands for an absent clause.
#[derive(Debug)]
pub struct Query {
    /// Selected expressions.
    pub select: Vec<SelectItem>,
    /// Source table.
    pub from: TableRef,
    /// Joined tables.
    pub joins: Vec<JoinClause>,
    /// Filter, its conjuncts separated by ` AND `.
    pub where_clause: String,
    /// Grouping columns.
    pub group_by: Vec<String>,
    /// Group filter.
    pub having: String,
    /// Ordering items.
    pub order_by: Vec<OrderByItem>,
    /// Row limit.
    pub limit: Option<u64>,
    /// Row offset.
    pub offset: Option<u64>,
    /// Common table expressions.
    pub with: Vec<CteClause>,
}

/// A selected expression, optionally aliased.
#[derive(Clone, Debug, PartialEq, Eq)]
pub struct SelectItem {
    /// The expression.
    pub expression: String,
    /// Its alias.
    pub alias: Option<String>,
}

/// A table, optionally aliased.
#[derive(Clone, Debug, PartialEq, Eq)]
pub struct TableRef {
    /// Table name.
    pub name: String,
    /// Its alias.
    pub alias: Option<String>,
}

/// A join: its kind, such as `LEFT`, the joined table and its condition.
#[derive(Clone, Debug, PartialEq, Eq)]
pub struct JoinClause {
    /// Join kind.
    pub kind: String,
    /// Joined table.
    pub table: TableRef,
    /// Join condition.
    pub condition: String,
}

/// An ordering expression and its direction.
#[derive(Clone, Debug, PartialEq, Eq)]
pub struct OrderByItem {
    /// The expression.
    pub expression: String,
    /// Its direction, such as `DESC`.
    pub direction: String,
}

/// A common table expression: its name, its query and its column names.
#[derive(Debug)]
pub struct CteClause {
    /// Name.
    pub name: String,
    /// Defining query.
    pub query: Query,
    /// Column names.
    pub columns: Vec<String>,
}

/// The formatter and its indentation width.
#[derive(Clone, Copy, Debug, PartialEq, Eq)]
pub struct Formatter {
    /// Indentation of nested lines.
    pub indent: u16,
}

impl Default for Formatter {
    fn default() -> (r: Self)
        ensures
            r.indent == 4,
    {
        Formatter { indent: 4 }
    }
}

/// The characters of an optional string.
pub open spec fn opt_chars(s: Option<String>) -> Option<Seq<char>> {
    match s {
        Some(v) => Some(v@),
        None => None,
    }
}

/// A selected expression as characters.
pub struct SelectModel {
    /// Expression.
    pub expression: Seq<char>,
    /// Alias.
    pub alias: Option<Seq<char>>,
}

/// A table as characters.
pub struct TableModel {
    /// Name.
    pub name: Seq<char>,
    /// Alias.
    pub alias: Option<Seq<char>>,
}

/// A join as characters.
pub struct JoinModel {
    /// Kind.
    pub kind: Seq<char>,
    /// Table.
    pub table: TableModel,
    /// Condition.
    pub condition: Seq<char>,
}

/// An ordering item as characters.
pub struct OrderModel {
    /// Expression.
    pub expression: Seq<char>,
    /// Direction.
    pub direction: Seq<char>,
}

/// A query as characters.
pub struct QueryModel {
    /// Selections.
    pub select: Seq<SelectModel>,
    /// Source table.
    pub from: TableModel,
    /// Joins.
    pub joins: Seq<JoinModel>,
    /// Filter.
    pub where_clause: Seq<char>,
    /// Grouping columns.
    pub group_by: Seq<Seq<char>>,
    /// Group filter.
    pub having: Seq<char>,
    /// Ordering items.
    pub order_by: Seq<OrderModel>,
    /// Row limit.
    pub limit: Option<u64>,
    /// Row offset.
    pub offset: Option<u64>,
    /// Common table expressions.
    pub with: Seq<CteModel>,
}

/// A common table expression as characters.
pub struct CteModel {
    /// Name.
    pub name: Seq<char>,
    /// Query.
    pub query: QueryModel,
    /// Columns.
    pub columns: Seq<Seq<char>>,
}

impl View for SelectItem {
    type V = SelectModel;

    open spec fn view(&self) -> SelectModel {
        SelectModel { expression: self.expression@, alias: opt_chars(self.alias) }
    }
}

impl View for TableRef {
    type V = TableModel;

    open spec fn view(&self) -> TableModel {
        TableModel { name: self.name@, alias: opt_chars(self.alias) }
    }
}

impl View for JoinClause {
    type V = JoinModel;

    open spec fn view(&self) -> JoinModel {
        JoinModel { kind: self.kind@, table: self.table@, condition: self.condition@ }
    }
}

impl View for OrderByItem {
    type V = OrderModel;

    open spec fn view(&self) -> OrderModel {
        OrderModel { expression: self.expression@, direction: self.direction@ }
    }
}

/// The characters of each string.
pub open spec fn strings(s: Seq<String>) -> Seq<Seq<char>> {
    s.map_values(|v: String| v@)
}

/// The model of a query.
pub open spec fn query_model(q: Query) -> QueryModel
    decreases q,
{
    proof {
        assert(decreases_to!(q => q.with));
        assert(decreases_to!(q.with => q.with@));
    }
    QueryModel {
        select: q.select@.map_values(|i: SelectItem| i@),
        from: q.from@,
        joins: q.joins@.map_values(|j: JoinClause| j@),
        where_clause: q.where_clause@,
        group_by: strings(q.group_by@),
        having: q.having@,
        order_by: q.order_by@.map_values(|o: OrderByItem| o@),
        limit: q.limit,
        offset: q.offset,
        with: cte_models(q.with@),
    }
}

/// The models of common table expressions.
pub open spec fn cte_models(cs: Seq<CteClause>) -> Seq<CteModel>
    decreases cs,
{
    if cs.len() == 0 {
        seq![]
    } else {
        let front = cs.subrange(0, cs.len() - 1);
        let last = cs[cs.len() - 1];
        proof {
            assert(decreases_to!(cs => front));
            assert(decreases_to!(cs => last));
            assert(decreases_to!(last => last.query));
        }
        cte_models(front).push(CteModel { name: last.name@, query: query_model(last.query), columns: strings(last.columns@) })
    }
}

impl View for Query {
    type V = QueryModel;

    open spec fn view(&self) -> QueryModel {
        query_model(*self)
    }
}

impl View for CteClause {
    type V = CteModel;

    open spec fn view(&self) -> CteModel {
        CteModel { name: self.name@, query: self.query@, columns: strings(self.columns@) }
    }
}

proof fn lemma_cte_models(cs: Seq<CteClause>)
    ensures
        cte_models(cs).len() == cs.len(),
        forall|i: int| 0 <= i < cs.len() ==> #[trigger] cte_models(cs)[i] == cs[i]@,
    decreases cs.len(),
{
    if cs.len() > 0 {
        let front = cs.subrange(0, cs.len() - 1);
        lemma_cte_models(front);
        assert forall|i: int| 0 <= i < cs.len() implies #[trigger] cte_models(cs)[i] == cs[i]@ by {
            if i < cs.len() - 1 {
                assert(front[i] == cs[i]);
            }
        }
    }
}

// ---------------------------------------------------------------------------
// Words: upper-casing, white space, trimming and splitting at ` AND `.
/// The upper-case form of a string under Unicode case mapping.
pub uninterp spec fn unicode_uppercase(s: Seq<char>) -> Seq<char>;

/// Whether `c` has the Unicode `White_Space` property: the controls from
/// tab to carriage return, space, next line, no-break space, ogham space
/// mark, the spaces from en quad to hair space, the line and paragraph
/// separators, narrow no-break space, medium mathematical space and
/// ideographic space.
pub open spec fn unicode_white_space(c: char) -> bool {
    let v = c as u32;
    ||| 0x09 <= v <= 0x0d
    ||| v == 0x20
    ||| v == 0x85
    ||| v == 0xa0
    ||| v == 0x1680
    ||| 0x2000 <= v <= 0x200a
    ||| v == 0x2028
    ||| v == 0x2029
    ||| v == 0x202f
    ||| v == 0x205f
    ||| v == 0x3000
}

/// `str::to_uppercase`: the upper-case form of `value`, a function of the
/// string alone, named by `unicode_uppercase`; nothing else is claimed of
/// it.
#[verifier::external_body]
fn to_uppercase(value: &str) -> (r: String)
    ensures
        r@ == unicode_uppercase(value@),
{
    value.to_uppercase()
}

/// `char::is_whitespace`: whether `c` has the Unicode `White_Space`
/// property, as `unicode_white_space` lists it.
#[verifier::external_body]
fn is_white_space(c: char) -> (r: bool)
    ensures
        r == unicode_white_space(c),
{
    c.is_whitespace()
}

/// `s` without its leading white space.
pub open spec fn trim_start(s: Seq<char>) -> Seq<char>
    decreases s.len(),
{
    if s.len() > 0 && unicode_white_space(s[0]) {
        trim_start(s.drop_first())
    } else {
        s
    }
}

/// `s` without its trailing white space.
pub open spec fn trim_end(s: Seq<char>) -> Seq<char>
    decreases s.len(),
{
    if s.len() > 0 && unicode_white_space(s.last()) {
        trim_end(s.drop_last())
    } else {
        s
    }
}

/// `s` without its leading and trailing white space.
pub open spec fn trimmed(s: Seq<char>) -> Seq<char> {
    trim_end(trim_start(s))
}

/// The separator of conjuncts.
pub open spec fn and_sep() -> Seq<char> {
    seq![' ', 'A', 'N', 'D', ' ']
}

/// The first position at or after `i` where ` AND ` occurs in `s`.
pub open spec fn find_and(s: Seq<char>, i: int) -> Option<int>
    decreases s.len() - i,
{
    if i < 0 || i + 5 > s.len() {
        None
    } else if s.subrange(i, i + 5) == and_sep() {
        Some(i)
    } else {
        find_and(s, i + 1)
    }
}

/// An occurrence found from `i` lies at or after `i`, within `s`.
proof fn lemma_find_and(s: Seq<char>, i: int)
    requires
        0 <= i,
    ensures
        find_and(s, i) matches Some(k) ==> i <= k && k + 5 <= s.len() && s.subrange(k, k + 5)
            == and_sep(),
        find_and(s, i) is None ==> forall|k: int|
            i <= k && k + 5 <= s.len() ==> #[trigger] s.subrange(k, k + 5) != and_sep(),
    decreases s.len() - i,
{
    if 0 <= i && i + 5 <= s.len() && s.subrange(i, i + 5) != and_sep() {
        lemma_find_and(s, i + 1);
        assert forall|k: int| i <= k && k + 5 <= s.len() && find_and(s, i) is None implies #[trigger] s.subrange(
            k,
            k + 5,
        ) != and_sep() by {
            if k > i {
                assert(find_and(s, i + 1) is None);
            }
        }
    }
}

/// The pieces of `s` from `start` on, split at every ` AND `, leftmost
/// first.
pub open spec fn split_and_from(s: Seq<char>, start: int) -> Seq<Seq<char>>
    decreases s.len() - start,
{
    if start < 0 || start > s.len() {
        seq![]
    } else {
        match find_and(s, start) {
            Some(k) => if k >= start && k + 5 <= s.len() {
                seq![s.subrange(start, k)] + split_and_from(s, k + 5)
            } else {
                seq![]
            },
            None => seq![s.subrange(start, s.len() as int)],
        }
    }
}

/// The conjuncts of a filter: its pieces between occurrences of ` AND `,
/// each without surrounding white space.
pub open spec fn conjuncts(s: Seq<char>) -> Seq<Seq<char>> {
    split_and_from(s, 0).map_values(|p: Seq<char>| trimmed(p))
}

/// Whether ` AND ` occurs at position `i` of `value`.
fn and_at(value: &str, n: usize, i: usize) -> (r: bool)
    requires
        n == value@.len(),
        i + 5 <= n,
    ensures
        r == (value@.subrange(i as int, i + 5) == and_sep()),
{
    let r = value.get_char(i) == ' ' && value.get_char(i + 1) == 'A' && value.get_char(i + 2) == 'N'
        && value.get_char(i + 3) == 'D' && value.get_char(i + 4) == ' ';
    proof {
        let sub = value@.subrange(i as int, i + 5);
        if r {
            assert(sub =~= and_sep());
        } else {
            if sub == and_sep() {
                assert(sub[0] == ' ' && sub[1] == 'A' && sub[2] == 'N' && sub[3] == 'D' && sub[4] == ' ');
            }
        }
    }
    r
}

/// The first position at or after `start` where ` AND ` occurs.
fn find_and_exec(value: &str, n: usize, start: usize) -> (r: Option<usize>)
    requires
        n == value@.len(),
        start <= n,
    ensures
        r matches Some(k) ==> find_and(value@, start as int) == Some(k as int),
        r is None ==> find_and(value@, start as int) is None,
{
    let mut i = start;
    while n >= 5 && i <= n - 5
        invariant
            n == value@.len(),
            start <= i <= n,
            find_and(value@, start as int) == find_and(value@, i as int),
        decreases n - i,
    {
        if and_at(value, n, i) {
            return Some(i);
        }
        i = i + 1;
    }
    None
}

/// `value` without its leading and trailing white space.
fn trim(value: &str) -> (r: &str)
    ensures
        r@ == trimmed(value@),
{
    let n = value.unicode_len();
    let mut a: usize = 0;
    assert(value@.subrange(0, n as int) =~= value@);
    while a < n && is_white_space(value.get_char(a))
        invariant
            n == value@.len(),
            a <= n,
            trim_start(value@) == trim_start(value@.subrange(a as int, n as int)),
        decreases n - a,
    {
        proof {
            let rest = value@.subrange(a as int, n as int);
            assert(rest.drop_first() =~= value@.subrange(a + 1, n as int));
        }
        a = a + 1;
    }
    let ghost front = value@.subrange(a as int, n as int);
    assert(trim_start(front) == front);
    let mut b: usize = n;
    while b > a && is_white_space(value.get_char(b - 1))
        invariant
            n == value@.len(),
            a <= b <= n,
            front == value@.subrange(a as int, n as int),
            trim_end(front) == trim_end(value@.subrange(a as int, b as int)),
        decreases b - a,
    {
        proof {
            let rest = value@.subrange(a as int, b as int);
            assert(rest.drop_last() =~= value@.subrange(a as int, b - 1));
        }
        b = b - 1;
    }
    let r = value.substring_char(a, b);
    assert(trim_end(value@.subrange(a as int, b as int)) == value@.subrange(a as int, b as int));
    r
}

/// The conjuncts of `value`, each trimmed.
fn split_conjuncts(value: &str) -> (r: Vec<&str>)
    ensures
        r@.len() == conjuncts(value@).len(),
        forall|i: int| 0 <= i < r@.len() ==> (#[trigger] r@[i])@ == conjuncts(value@)[i],
{
    let n = value.unicode_len();
    let mut out: Vec<&str> = Vec::new();
    let mut start: usize = 0;
    let ghost s = value@;
    let ghost mut raw: Seq<Seq<char>> = seq![];
    let mut done = false;
    while !done
        invariant
            n == s.len(),
            s == value@,
            start <= n,
            !done ==> split_and_from(s, 0) == raw + split_and_from(s, start as int),
            done ==> split_and_from(s, 0) == raw,
            out@.len() == raw.len(),
            forall|i: int| 0 <= i < out@.len() ==> (#[trigger] out@[i])@ == trimmed(raw[i]),
        decreases n - start + (if done {
            0int
        } else {
            1int
        }),
    {
        let found = find_and_exec(value, n, start);
        proof {
            lemma_find_and(s, start as int);
        }
        let ghost old_raw = raw;
        match found {
            Some(k) => {
                let piece = value.substring_char(start, k);
                out.push(trim(piece));
                proof {
                    raw = raw.push(s.subrange(start as int, k as int));
                    assert(split_and_from(s, start as int) == seq![s.subrange(start as int, k as int)]
                        + split_and_from(s, k + 5));
                    assert(raw + split_and_from(s, k + 5) =~= old_raw + (seq![s.subrange(start as int, k as int)]
                        + split_and_from(s, k + 5)));
                }
                start = k + 5;
            },
            None => {
                let piece = value.substring_char(start, n);
                out.push(trim(piece));
                proof {
                    raw = raw.push(s.subrange(start as int, n as int));
                    assert(split_and_from(s, start as int) == seq![s.subrange(start as int, n as int)]);
                    assert(raw =~= old_raw + seq![s.subrange(start as int, n as int)]);
                }
                done = true;
            },
        }
        proof {
            assert forall|i: int| 0 <= i < out@.len() implies (#[trigger] out@[i])@ == trimmed(raw[i]) by {
                if i < old_raw.len() {
                    assert(raw[i] == old_raw[i]);
                }
            }
        }
    }
    assert(conjuncts(value@) =~= raw.map_values(|p: Seq<char>| trimmed(p)));
    out
}

// ---------------------------------------------------------------------------
// Documents.
/// One space.
pub open spec fn space_doc() -> DocModel {
    tagged_text(tags::WHITESPACE, seq![' '], 1)
}

/// A one-character symbol.
pub open spec fn sym(c: char) -> DocModel {
    tagged_text(tags::SYMBOL, seq![c], 1)
}

/// A keyword written in capitals.
pub open spec fn keyword_doc(s: Seq<char>) -> DocModel {
    tagged_text(TAG_KEYWORD, s, s.len() as u32)
}

/// A keyword given in any case, written in upper case.
pub open spec fn upper_keyword_doc(s: Seq<char>) -> DocModel {
    tagged_measured(TAG_KEYWORD, unicode_uppercase(s))
}

/// An expression.
pub open spec fn expression_doc(s: Seq<char>) -> DocModel {
    tagged_measured(TAG_EXPRESSION, s)
}

/// An identifier.
pub open spec fn ident_doc(s: Seq<char>) -> DocModel {
    tagged_measured(TAG_IDENT, s)
}

/// A number in decimal.
pub open spec fn number_doc(n: u64) -> DocModel {
    tagged_text(TAG_NUMBER, digits(n as nat), digits(n as nat).len() as u32)
}

/// A hard break.
pub open spec fn brk() -> DocModel {
    DocModel::Line(None)
}

/// A comma and a hard break.
pub open spec fn comma_break() -> DocModel {
    spec_concat(seq![sym(','), brk()])
}

/// A comma and a space.
pub open spec fn comma_space() -> DocModel {
    spec_concat(seq![sym(','), space_doc()])
}

/// A table, its alias grouped with its name.
pub open spec fn table_doc(t: TableModel) -> DocModel {
    match t.alias {
        Some(a) => spec_group(spec_concat(seq![ident_doc(t.name), space_doc(), ident_doc(a)])),
        None => ident_doc(t.name),
    }
}

/// A selection, its alias grouped with it.
pub open spec fn select_item_doc(i: SelectModel) -> DocModel {
    match i.alias {
        Some(a) => spec_group(
            spec_concat(seq![expression_doc(i.expression), space_doc(), keyword_doc("AS"@), space_doc(), ident_doc(a)]),
        ),
        None => expression_doc(i.expression),
    }
}

/// The `SELECT` clause: one selection per indented line.
pub open spec fn select_doc(indent: u16, items: Seq<SelectModel>) -> DocModel {
    spec_concat(
        seq![
            keyword_doc("SELECT"@),
            DocModel::Nest(
                indent,
                Box::new(
                    spec_concat(
                        seq![brk(), spec_join(comma_break(), items.map_values(|i: SelectModel| select_item_doc(i)))],
                    ),
                ),
            ),
        ],
    )
}

/// The `FROM` clause.
pub open spec fn from_doc(t: TableModel) -> DocModel {
    spec_concat(seq![brk(), keyword_doc("FROM"@), space_doc(), table_doc(t)])
}

/// One join: its kind and table, then its condition on an indented line.
pub open spec fn join_doc(indent: u16, j: JoinModel) -> DocModel {
    spec_concat(
        seq![
            brk(),
            upper_keyword_doc(j.kind + " join"@),
            space_doc(),
            table_doc(j.table),
            DocModel::Nest(
                indent,
                Box::new(spec_concat(seq![brk(), keyword_doc("ON"@), space_doc(), expression_doc(j.condition)])),
            ),
        ],
    )
}

/// The joins, one after the other.
pub open spec fn joins_doc(indent: u16, js: Seq<JoinModel>) -> DocModel {
    spec_concat(js.map_values(|j: JoinModel| join_doc(indent, j)))
}

/// A filter: its conjuncts, each after the first on a line of its own
/// starting with `AND`.
pub open spec fn condition_doc(c: Seq<char>) -> DocModel {
    spec_join(
        spec_concat(seq![brk(), keyword_doc("AND"@), space_doc()]),
        conjuncts(c).map_values(|p: Seq<char>| expression_doc(p)),
    )
}

/// The `WHERE` clause, absent for an empty filter.
pub open spec fn where_doc(indent: u16, c: Seq<char>) -> DocModel {
    if c.len() == 0 {
        DocModel::Empty
    } else {
        spec_concat(
            seq![brk(), keyword_doc("WHERE"@), space_doc(), DocModel::Nest(indent, Box::new(condition_doc(c)))],
        )
    }
}

/// The `GROUP BY` clause: a single column on its line, several columns one
/// per indented line.
pub open spec fn group_by_doc(indent: u16, cols: Seq<Seq<char>>) -> DocModel {
    if cols.len() == 0 {
        DocModel::Empty
    } else if cols.len() == 1 {
        spec_concat(seq![brk(), keyword_doc("GROUP BY"@), space_doc(), expression_doc(cols[0])])
    } else {
        spec_concat(
            seq![
                brk(),
                keyword_doc("GROUP BY"@),
                DocModel::Nest(
                    indent,
                    Box::new(
                        spec_concat(
                            seq![brk(), spec_join(comma_break(), cols.map_values(|c: Seq<char>| expression_doc(c)))],
                        ),
                    ),
                ),
            ],
        )
    }
}

/// The `HAVING` clause, absent for an empty condition.
pub open spec fn having_doc(c: Seq<char>) -> DocModel {
    if c.len() == 0 {
        DocModel::Empty
    } else {
        spec_concat(seq![brk(), keyword_doc("HAVING"@), space_doc(), expression_doc(c)])
    }
}

/// One ordering item, grouped.
pub open spec fn order_item_doc(o: OrderModel) -> DocModel {
    spec_group(spec_concat(seq![expression_doc(o.expression), space_doc(), upper_keyword_doc(o.direction)]))
}

/// The `ORDER BY` clause, absent without items.
pub open spec fn order_by_doc(items: Seq<OrderModel>) -> DocModel {
    if items.len() == 0 {
        DocModel::Empty
    } else {
        spec_concat(
            seq![
                brk(),
                keyword_doc("ORDER BY"@),
                space_doc(),
                spec_join(comma_space(), items.map_values(|o: OrderModel| order_item_doc(o))),
            ],
        )
    }
}

/// A `LIMIT` or `OFFSET` clause, absent without a value.
pub open spec fn bound_doc(word: Seq<char>, v: Option<u64>) -> DocModel {
    match v {
        Some(n) => spec_concat(seq![brk(), keyword_doc(word), space_doc(), number_doc(n)]),
        None => DocModel::Empty,
    }
}

/// The column list of a common table expression, absent without columns.
pub open spec fn columns_doc(cols: Seq<Seq<char>>) -> DocModel {
    if cols.len() == 0 {
        DocModel::Empty
    } else {
        spec_concat(
            seq![
                space_doc(),
                sym('('),
                spec_join(comma_space(), cols.map_values(|c: Seq<char>| ident_doc(c))),
                sym(')'),
            ],
        )
    }
}

/// A query: its clauses in order.
pub open spec fn query_doc(indent: u16, q: QueryModel) -> DocModel
    decreases q, 0nat,
{
    proof {
        assert(decreases_to!(q => q.with));
    }
    spec_concat(
        seq![
            with_doc(indent, q.with),
            select_doc(indent, q.select),
            from_doc(q.from),
            joins_doc(indent, q.joins),
            where_doc(indent, q.where_clause),
            group_by_doc(indent, q.group_by),
            having_doc(q.having),
            order_by_doc(q.order_by),
            spec_concat(seq![bound_doc("LIMIT"@, q.limit), bound_doc("OFFSET"@, q.offset)]),
        ],
    )
}

/// The `WITH` clause, absent without common table expressions.
pub open spec fn with_doc(indent: u16, cs: Seq<CteModel>) -> DocModel
    decreases cs, 1nat,
{
    if cs.len() == 0 {
        DocModel::Empty
    } else {
        spec_concat(seq![keyword_doc("WITH"@), space_doc(), spec_join(comma_break(), cte_docs(indent, cs)), brk()])
    }
}

/// The documents of common table expressions: each its name and columns,
/// then its query indented between parentheses.
pub open spec fn cte_docs(indent: u16, cs: Seq<CteModel>) -> Seq<DocModel>
    decreases cs, 0nat,
{
    if cs.len() == 0 {
        seq![]
    } else {
        let front = cs.subrange(0, cs.len() - 1);
        let c = cs[cs.len() - 1];
        proof {
            assert(decreases_to!(cs => front));
            assert(decreases_to!(cs => c));
        }
        cte_docs(indent, front).push(cte_doc(indent, c))
    }
}

/// A common table expression: its name and columns, then its query
/// indented between parentheses.
pub open spec fn cte_doc(indent: u16, c: CteModel) -> DocModel
    decreases c, 0nat,
{
    proof {
        assert(decreases_to!(c => c.query));
    }
    spec_concat(
        seq![
            ident_doc(c.name),
            columns_doc(c.columns),
            space_doc(),
            keyword_doc("AS"@),
            space_doc(),
            sym('('),
            DocModel::Nest(indent, Box::new(spec_concat(seq![brk(), query_doc(indent, c.query)]))),
            brk(),
            sym(')'),
        ],
    )
}

// ---------------------------------------------------------------------------
// What formatting asks of a query's strings.
/// A table's strings can be text runs.
pub open spec fn table_ok(t: TableModel) -> bool {
    text_ok(t.name) && (t.alias matches Some(a) ==> text_ok(a))
}

/// Every string that formatting `q` makes into a text run can be one:
/// names, expressions and conditions, the trimmed conjuncts of a non-empty
/// filter, and the upper-case forms of join kinds and directions.
pub open spec fn query_ok(q: QueryModel) -> bool
    decreases q,
{
    proof {
        assert(decreases_to!(q => q.with));
    }
    &&& forall|i: int|
        0 <= i < q.select.len() ==> text_ok((#[trigger] q.select[i]).expression) && (q.select[i].alias matches Some(
            a,
        ) ==> text_ok(a))
    &&& table_ok(q.from)
    &&& forall|i: int|
        0 <= i < q.joins.len() ==> text_ok(unicode_uppercase((#[trigger] q.joins[i]).kind + " join"@)) && table_ok(
            q.joins[i].table,
        ) && text_ok(q.joins[i].condition)
    &&& q.where_clause.len() > 0 ==> forall|i: int|
        0 <= i < conjuncts(q.where_clause).len() ==> text_ok(#[trigger] conjuncts(q.where_clause)[i])
    &&& forall|i: int| 0 <= i < q.group_by.len() ==> text_ok(#[trigger] q.group_by[i])
    &&& q.having.len() > 0 ==> text_ok(q.having)
    &&& forall|i: int|
        0 <= i < q.order_by.len() ==> text_ok((#[trigger] q.order_by[i]).expression) && text_ok(
            unicode_uppercase(q.order_by[i].direction),
        )
    &&& ctes_ok(q.with)
}

/// Every common table expression's strings can be text runs.
pub open spec fn ctes_ok(cs: Seq<CteModel>) -> bool
    decreases cs,
{
    if cs.len() == 0 {
        true
    } else {
        let front = cs.subrange(0, cs.len() - 1);
        let c = cs[cs.len() - 1];
        proof {
            assert(decreases_to!(cs => front));
            assert(decreases_to!(cs => c));
        }
        ctes_ok(front) && cte_ok(c)
    }
}

/// A common table expression's strings can be text runs.
pub open spec fn cte_ok(c: CteModel) -> bool
    decreases c,
{
    proof {
        assert(decreases_to!(c => c.query));
    }
    &&& text_ok(c.name)
    &&& forall|i: int| 0 <= i < c.columns.len() ==> text_ok(#[trigger] c.columns[i])
    &&& query_ok(c.query)
}

/// What a query whose strings can be text runs gives each clause.
proof fn lemma_query_ok(q: Query)
    requires
        query_ok(q@),
    ensures
        forall|i: int|
            0 <= i < q.select@.len() ==> text_ok((#[trigger] q.select@[i])@.expression) && (q.select@[i]@.alias matches Some(
                a,
            ) ==> text_ok(a)),
        table_ok(q.from@),
        forall|i: int|
            0 <= i < q.joins@.len() ==> text_ok(unicode_uppercase((#[trigger] q.joins@[i])@.kind + " join"@))
                && table_ok(q.joins@[i]@.table) && text_ok(q.joins@[i]@.condition),
        q.where_clause@.len() > 0 ==> forall|i: int|
            0 <= i < conjuncts(q.where_clause@).len() ==> text_ok(#[trigger] conjuncts(q.where_clause@)[i]),
        forall|i: int| 0 <= i < q.group_by@.len() ==> text_ok((#[trigger] q.group_by@[i])@),
        q.having@.len() > 0 ==> text_ok(q.having@),
        forall|i: int|
            0 <= i < q.order_by@.len() ==> text_ok((#[trigger] q.order_by@[i])@.expression) && text_ok(
                unicode_uppercase(q.order_by@[i]@.direction),
            ),
        ctes_ok(cte_models(q.with@)),
{
    let m = q@;
    assert forall|i: int| 0 <= i < q.select@.len() implies text_ok((#[trigger] q.select@[i])@.expression) && (
    q.select@[i]@.alias matches Some(a) ==> text_ok(a)) by {
        assert(m.select[i] == q.select@[i]@);
    }
    assert forall|i: int| 0 <= i < q.joins@.len() implies text_ok(
        unicode_uppercase((#[trigger] q.joins@[i])@.kind + " join"@),
    ) && table_ok(q.joins@[i]@.table) && text_ok(q.joins@[i]@.condition) by {
        assert(m.joins[i] == q.joins@[i]@);
    }
    assert forall|i: int| 0 <= i < q.group_by@.len() implies text_ok((#[trigger] q.group_by@[i])@) by {
        assert(m.group_by[i] == q.group_by@[i]@);
    }
    assert forall|i: int| 0 <= i < q.order_by@.len() implies text_ok((#[trigger] q.order_by@[i])@.expression)
        && text_ok(unicode_uppercase(q.order_by@[i]@.direction)) by {
        assert(m.order_by[i] == q.order_by@[i]@);
    }
}

/// What a common table expression whose strings can be text runs gives.
proof fn lemma_cte_ok(c: CteModel)
    requires
        cte_ok(c),
    ensures
        text_ok(c.name),
        forall|i: int| 0 <= i < c.columns.len() ==> text_ok(#[trigger] c.columns[i]),
        query_ok(c.query),
{
}

proof fn lemma_cte_docs(indent: u16, cs: Seq<CteModel>)
    ensures
        cte_docs(indent, cs).len() == cs.len(),
        forall|i: int| 0 <= i < cs.len() ==> #[trigger] cte_docs(indent, cs)[i] == cte_doc(indent, cs[i]),
        ctes_ok(cs) ==> forall|i: int| 0 <= i < cs.len() ==> cte_ok(#[trigger] cs[i]),
    decreases cs.len(),
{
    if cs.len() > 0 {
        let front = cs.subrange(0, cs.len() - 1);
        lemma_cte_docs(indent, front);
        assert forall|i: int| 0 <= i < cs.len() implies #[trigger] cte_docs(indent, cs)[i] == cte_doc(indent, cs[i]) by {
            if i < cs.len() - 1 {
                assert(front[i] == cs[i]);
            }
        }
        if ctes_ok(cs) {
            assert forall|i: int| 0 <= i < cs.len() implies cte_ok(#[trigger] cs[i]) by {
                if i < cs.len() - 1 {
                    assert(front[i] == cs[i]);
                }
            }
        }
    }
}

// ---------------------------------------------------------------------------
// Building blocks.
/// A keyword already written in capitals.
fn keyword(value: &str) -> (r: Rc<Doc>)
    requires
        is_printable_ascii(value@),
        value@.len() <= 16,
    ensures
        r@ == keyword_doc(value@),
{
    tag(TAG_KEYWORD, Rc::new(Doc::Text(TextRun::trusted_ascii(value))))
}

fn keyword_with() -> (r: Rc<Doc>)
    ensures
        r@ == keyword_doc("WITH"@),
{
    let s = "WITH";
    proof {
        reveal_strlit("WITH");
        assert(s@ =~= seq!['W', 'I', 'T', 'H']);
    }
    keyword(s)
}

fn keyword_as() -> (r: Rc<Doc>)
    ensures
        r@ == keyword_doc("AS"@),
{
    let s = "AS";
    proof {
        reveal_strlit("AS");
        assert(s@ =~= seq!['A', 'S']);
    }
    keyword(s)
}

fn keyword_select() -> (r: Rc<Doc>)
    ensures
        r@ == keyword_doc("SELECT"@),
{
    let s = "SELECT";
    proof {
        reveal_strlit("SELECT");
        assert(s@ =~= seq!['S', 'E', 'L', 'E', 'C', 'T']);
    }
    keyword(s)
}

fn keyword_from() -> (r: Rc<Doc>)
    ensures
        r@ == keyword_doc("FROM"@),
{
    let s = "FROM";
    proof {
        reveal_strlit("FROM");
        assert(s@ =~= seq!['F', 'R', 'O', 'M']);
    }
    keyword(s)
}

fn keyword_on() -> (r: Rc<Doc>)
    ensures
        r@ == keyword_doc("ON"@),
{
    let s = "ON";
    proof {
        reveal_strlit("ON");
        assert(s@ =~= seq!['O', 'N']);
    }
    keyword(s)
}

fn keyword_and() -> (r: Rc<Doc>)
    ensures
        r@ == keyword_doc("AND"@),
{
    let s = "AND";
    proof {
        reveal_strlit("AND");
        assert(s@ =~= seq!['A', 'N', 'D']);
    }
    keyword(s)
}

fn keyword_where() -> (r: Rc<Doc>)
    ensures
        r@ == keyword_doc("WHERE"@),
{
    let s = "WHERE";
    proof {
        reveal_strlit("WHERE");
        assert(s@ =~= seq!['W', 'H', 'E', 'R', 'E']);
    }
    keyword(s)
}

fn keyword_group_by() -> (r: Rc<Doc>)
    ensures
        r@ == keyword_doc("GROUP BY"@),
{
    let s = "GROUP BY";
    proof {
        reveal_strlit("GROUP BY");
        assert(s@ =~= seq!['G', 'R', 'O', 'U', 'P', ' ', 'B', 'Y']);
    }
    keyword(s)
}

fn keyword_having() -> (r: Rc<Doc>)
    ensures
        r@ == keyword_doc("HAVING"@),
{
    let s = "HAVING";
    proof {
        reveal_strlit("HAVING");
        assert(s@ =~= seq!['H', 'A', 'V', 'I', 'N', 'G']);
    }
    keyword(s)
}

fn keyword_order_by() -> (r: Rc<Doc>)
    ensures
        r@ == keyword_doc("ORDER BY"@),
{
    let s = "ORDER BY";
    proof {
        reveal_strlit("ORDER BY");
        assert(s@ =~= seq!['O', 'R', 'D', 'E', 'R', ' ', 'B', 'Y']);
    }
    keyword(s)
}

fn keyword_limit() -> (r: Rc<Doc>)
    ensures
        r@ == keyword_doc("LIMIT"@),
{
    let s = "LIMIT";
    proof {
        reveal_strlit("LIMIT");
        assert(s@ =~= seq!['L', 'I', 'M', 'I', 'T']);
    }
    keyword(s)
}

fn keyword_offset() -> (r: Rc<Doc>)
    ensures
        r@ == keyword_doc("OFFSET"@),
{
    let s = "OFFSET";
    proof {
        reveal_strlit("OFFSET");
        assert(s@ =~= seq!['O', 'F', 'F', 'S', 'E', 'T']);
    }
    keyword(s)
}

/// A keyword given in any case, written in upper case.
fn upper_keyword(value: &str) -> (r: Rc<Doc>)
    requires
        text_ok(unicode_uppercase(value@)),
    ensures
        r@ == upper_keyword_doc(value@),
{
    let upper = to_uppercase(value);
    annotated(TAG_KEYWORD, upper.as_str())
}

/// An expression.
fn expression(value: &str) -> (r: Rc<Doc>)
    requires
        text_ok(value@),
    ensures
        r@ == expression_doc(value@),
{
    annotated(TAG_EXPRESSION, value)
}

/// An identifier.
fn ident(value: &str) -> (r: Rc<Doc>)
    requires
        text_ok(value@),
    ensures
        r@ == ident_doc(value@),
{
    annotated(TAG_IDENT, value)
}

/// A number in decimal.
fn number(n: u64) -> (r: Rc<Doc>)
    ensures
        r@ == number_doc(n),
{
    let mut out = String::new();
    push_digits(&mut out, n);
    proof {
        reveal_with_fuel(pow10, 21);
        assert(n < pow10(20));
        lemma_digits(n as nat, 20);
        assert(out@ =~= digits(n as nat));
    }
    tag(TAG_NUMBER, Rc::new(Doc::Text(TextRun::trusted_ascii(out.as_str()))))
}

/// A comma and a hard break.
fn comma_break_exec() -> (r: Rc<Doc>)
    ensures
        r@ == comma_break(),
{
    let parts = vec![comma(), hardline()];
    assert(models(parts@) =~= seq![sym(','), brk()]);
    concat(parts)
}

/// A comma and a space.
fn comma_space_exec() -> (r: Rc<Doc>)
    ensures
        r@ == comma_space(),
{
    let parts = vec![comma(), space()];
    assert(models(parts@) =~= seq![sym(','), space_doc()]);
    concat(parts)
}

/// A table, its alias grouped with its name.
fn table_ref(t: &TableRef) -> (r: Rc<Doc>)
    requires
        table_ok(t@),
    ensures
        r@ == table_doc(t@),
{
    match &t.alias {
        Some(alias) => {
            let parts = vec![ident(t.name.as_str()), space(), ident(alias.as_str())];
            assert(models(parts@) =~= seq![ident_doc(t.name@), space_doc(), ident_doc(alias@)]);
            group(concat(parts))
        },
        None => ident(t.name.as_str()),
    }
}

/// A selection, its alias grouped with it.
fn select_item(i: &SelectItem) -> (r: Rc<Doc>)
    requires
        text_ok(i.expression@),
        i@.alias matches Some(a) ==> text_ok(a),
    ensures
        r@ == select_item_doc(i@),
{
    match &i.alias {
        Some(alias) => {
            let parts = vec![expression(i.expression.as_str()), space(), keyword_as(), space(), ident(alias.as_str())];
            assert(models(parts@) =~= seq![
                expression_doc(i.expression@),
                space_doc(),
                keyword_doc("AS"@),
                space_doc(),
                ident_doc(alias@),
            ]);
            group(concat(parts))
        },
        None => expression(i.expression.as_str()),
    }
}


impl Formatter {
    fn format_select(&self, items: &Vec<SelectItem>) -> (r: Rc<Doc>)
        requires
            forall|i: int|
                0 <= i < items@.len() ==> text_ok((#[trigger] items@[i])@.expression) && (items@[i]@.alias matches Some(
                    a,
                ) ==> text_ok(a)),
        ensures
            r@ == select_doc(self.indent, items@.map_values(|i: SelectItem| i@)),
    {
        let ghost ms = items@.map_values(|i: SelectItem| i@);
        let ghost target = ms.map_values(|i: SelectModel| select_item_doc(i));
        let mut docs: Vec<Rc<Doc>> = Vec::new();
        let mut j: usize = 0;
        while j < items.len()
            invariant
                j <= items@.len(),
                ms == items@.map_values(|i: SelectItem| i@),
                target == ms.map_values(|i: SelectModel| select_item_doc(i)),
                forall|i: int|
                    0 <= i < items@.len() ==> text_ok((#[trigger] items@[i])@.expression) && (items@[i]@.alias matches Some(
                        a,
                    ) ==> text_ok(a)),
                models(docs@) == target.take(j as int),
            decreases items@.len() - j,
        {
            let d = select_item(&items[j]);
            let ghost before = docs@;
            docs.push(d);
            assert(models(docs@) =~= models(before).push(target[j as int]));
            assert(target.take(j as int + 1) =~= target.take(j as int).push(target[j as int]));
            j = j + 1;
        }
        assert(target.take(items@.len() as int) =~= target);
        let body = vec![hardline(), join(comma_break_exec(), docs)];
        assert(models(body@) =~= seq![brk(), spec_join(comma_break(), target)]);
        let parts = vec![keyword_select(), nest(self.indent, concat(body))];
        assert(models(parts@) =~= seq![
            keyword_doc("SELECT"@),
            DocModel::Nest(self.indent, Box::new(spec_concat(seq![brk(), spec_join(comma_break(), target)]))),
        ]);
        concat(parts)
    }

    fn format_from(&self, table: &TableRef) -> (r: Rc<Doc>)
        requires
            table_ok(table@),
        ensures
            r@ == from_doc(table@),
    {
        let parts = vec![hardline(), keyword_from(), space(), table_ref(table)];
        assert(models(parts@) =~= seq![brk(), keyword_doc("FROM"@), space_doc(), table_doc(table@)]);
        concat(parts)
    }

    fn format_join(&self, j: &JoinClause) -> (r: Rc<Doc>)
        requires
            text_ok(unicode_uppercase(j@.kind + " join"@)),
            table_ok(j@.table),
            text_ok(j@.condition),
        ensures
            r@ == join_doc(self.indent, j@),
    {
        let mut kind = j.kind.clone();
        let ghost k0 = j.kind@;
        push_char(&mut kind, ' ');
        push_char(&mut kind, 'j');
        push_char(&mut kind, 'o');
        push_char(&mut kind, 'i');
        push_char(&mut kind, 'n');
        proof {
            reveal_strlit(" join");
            assert(kind@ =~= k0 + " join"@);
        }
        let on = vec![hardline(), keyword_on(), space(), expression(j.condition.as_str())];
        assert(models(on@) =~= seq![brk(), keyword_doc("ON"@), space_doc(), expression_doc(j@.condition)]);
        let parts = vec![
            hardline(),
            upper_keyword(kind.as_str()),
            space(),
            table_ref(&j.table),
            nest(self.indent, concat(on)),
        ];
        assert(models(parts@) =~= seq![
            brk(),
            upper_keyword_doc(j@.kind + " join"@),
            space_doc(),
            table_doc(j@.table),
            DocModel::Nest(
                self.indent,
                Box::new(spec_concat(seq![brk(), keyword_doc("ON"@), space_doc(), expression_doc(j@.condition)])),
            ),
        ]);
        concat(parts)
    }

    fn format_joins(&self, joins: &Vec<JoinClause>) -> (r: Rc<Doc>)
        requires
            forall|i: int|
                0 <= i < joins@.len() ==> text_ok(unicode_uppercase((#[trigger] joins@[i])@.kind + " join"@))
                    && table_ok(joins@[i]@.table) && text_ok(joins@[i]@.condition),
        ensures
            r@ == joins_doc(self.indent, joins@.map_values(|j: JoinClause| j@)),
    {
        let ghost ms = joins@.map_values(|j: JoinClause| j@);
        let ghost target = ms.map_values(|j: JoinModel| join_doc(self.indent, j));
        let mut docs: Vec<Rc<Doc>> = Vec::new();
        let mut k: usize = 0;
        while k < joins.len()
            invariant
                k <= joins@.len(),
                ms == joins@.map_values(|j: JoinClause| j@),
                target == ms.map_values(|j: JoinModel| join_doc(self.indent, j)),
                forall|i: int|
                    0 <= i < joins@.len() ==> text_ok(unicode_uppercase((#[trigger] joins@[i])@.kind + " join"@))
                        && table_ok(joins@[i]@.table) && text_ok(joins@[i]@.condition),
                models(docs@) == target.take(k as int),
            decreases joins@.len() - k,
        {
            let d = self.format_join(&joins[k]);
            let ghost before = docs@;
            docs.push(d);
            assert(models(docs@) =~= models(before).push(target[k as int]));
            assert(target.take(k as int + 1) =~= target.take(k as int).push(target[k as int]));
            k = k + 1;
        }
        assert(target.take(joins@.len() as int) =~= target);
        concat(docs)
    }

    fn format_condition(&self, condition: &str) -> (r: Rc<Doc>)
        requires
            forall|i: int| 0 <= i < conjuncts(condition@).len() ==> text_ok(#[trigger] conjuncts(condition@)[i]),
        ensures
            r@ == condition_doc(condition@),
    {
        let pieces = split_conjuncts(condition);
        let ghost cs = conjuncts(condition@);
        let ghost target = cs.map_values(|p: Seq<char>| expression_doc(p));
        let mut docs: Vec<Rc<Doc>> = Vec::new();
        let mut k: usize = 0;
        while k < pieces.len()
            invariant
                k <= pieces@.len(),
                cs == conjuncts(condition@),
                pieces@.len() == cs.len(),
                forall|i: int| 0 <= i < pieces@.len() ==> (#[trigger] pieces@[i])@ == cs[i],
                forall|i: int| 0 <= i < cs.len() ==> text_ok(#[trigger] cs[i]),
                target == cs.map_values(|p: Seq<char>| expression_doc(p)),
                models(docs@) == target.take(k as int),
            decreases pieces@.len() - k,
        {
            assert(pieces@[k as int]@ == cs[k as int]);
            let d = expression(pieces[k]);
            let ghost before = docs@;
            docs.push(d);
            assert(models(docs@) =~= models(before).push(target[k as int]));
            assert(target.take(k as int + 1) =~= target.take(k as int).push(target[k as int]));
            k = k + 1;
        }
        assert(target.take(pieces@.len() as int) =~= target);
        let sep = vec![hardline(), keyword_and(), space()];
        assert(models(sep@) =~= seq![brk(), keyword_doc("AND"@), space_doc()]);
        join(concat(sep), docs)
    }

    fn format_where(&self, condition: &str) -> (r: Rc<Doc>)
        requires
            condition@.len() > 0 ==> forall|i: int|
                0 <= i < conjuncts(condition@).len() ==> text_ok(#[trigger] conjuncts(condition@)[i]),
        ensures
            r@ == where_doc(self.indent, condition@),
    {
        if condition.unicode_len() == 0 {
            return empty();
        }
        let parts = vec![hardline(), keyword_where(), space(), nest(self.indent, self.format_condition(condition))];
        assert(models(parts@) =~= seq![
            brk(),
            keyword_doc("WHERE"@),
            space_doc(),
            DocModel::Nest(self.indent, Box::new(condition_doc(condition@))),
        ]);
        concat(parts)
    }

    fn format_group_by(&self, columns: &Vec<String>) -> (r: Rc<Doc>)
        requires
            forall|i: int| 0 <= i < columns@.len() ==> text_ok((#[trigger] columns@[i])@),
        ensures
            r@ == group_by_doc(self.indent, strings(columns@)),
    {
        let ghost cs = strings(columns@);
        if columns.len() == 0 {
            return empty();
        }
        if columns.len() == 1 {
            let parts = vec![hardline(), keyword_group_by(), space(), expression(columns[0].as_str())];
            assert(models(parts@) =~= seq![brk(), keyword_doc("GROUP BY"@), space_doc(), expression_doc(cs[0])]);
            return concat(parts);
        }
        let ghost target = cs.map_values(|c: Seq<char>| expression_doc(c));
        let mut docs: Vec<Rc<Doc>> = Vec::new();
        let mut k: usize = 0;
        while k < columns.len()
            invariant
                k <= columns@.len(),
                cs == strings(columns@),
                forall|i: int| 0 <= i < columns@.len() ==> text_ok((#[trigger] columns@[i])@),
                target == cs.map_values(|c: Seq<char>| expression_doc(c)),
                models(docs@) == target.take(k as int),
            decreases columns@.len() - k,
        {
            let d = expression(columns[k].as_str());
            let ghost before = docs@;
            docs.push(d);
            assert(models(docs@) =~= models(before).push(target[k as int]));
            assert(target.take(k as int + 1) =~= target.take(k as int).push(target[k as int]));
            k = k + 1;
        }
        assert(target.take(columns@.len() as int) =~= target);
        let body = vec![hardline(), join(comma_break_exec(), docs)];
        assert(models(body@) =~= seq![brk(), spec_join(comma_break(), target)]);
        let parts = vec![hardline(), keyword_group_by(), nest(self.indent, concat(body))];
        assert(models(parts@) =~= seq![
            brk(),
            keyword_doc("GROUP BY"@),
            DocModel::Nest(self.indent, Box::new(spec_concat(seq![brk(), spec_join(comma_break(), target)]))),
        ]);
        concat(parts)
    }

    fn format_having(&self, condition: &str) -> (r: Rc<Doc>)
        requires
            condition@.len() > 0 ==> text_ok(condition@),
        ensures
            r@ == having_doc(condition@),
    {
        if condition.unicode_len() == 0 {
            empty()
        } else {
            let parts = vec![hardline(), keyword_having(), space(), expression(condition)];
            assert(models(parts@) =~= seq![brk(), keyword_doc("HAVING"@), space_doc(), expression_doc(condition@)]);
            concat(parts)
        }
    }

    fn format_order_by(&self, items: &Vec<OrderByItem>) -> (r: Rc<Doc>)
        requires
            forall|i: int|
                0 <= i < items@.len() ==> text_ok((#[trigger] items@[i])@.expression) && text_ok(
                    unicode_uppercase(items@[i]@.direction),
                ),
        ensures
            r@ == order_by_doc(items@.map_values(|o: OrderByItem| o@)),
    {
        let ghost ms = items@.map_values(|o: OrderByItem| o@);
        if items.len() == 0 {
            return empty();
        }
        let ghost target = ms.map_values(|o: OrderModel| order_item_doc(o));
        let mut docs: Vec<Rc<Doc>> = Vec::new();
        let mut k: usize = 0;
        while k < items.len()
            invariant
                k <= items@.len(),
                ms == items@.map_values(|o: OrderByItem| o@),
                forall|i: int|
                    0 <= i < items@.len() ==> text_ok((#[trigger] items@[i])@.expression) && text_ok(
                        unicode_uppercase(items@[i]@.direction),
                    ),
                target == ms.map_values(|o: OrderModel| order_item_doc(o)),
                models(docs@) == target.take(k as int),
            decreases items@.len() - k,
        {
            let item = &items[k];
            let parts = vec![expression(item.expression.as_str()), space(), upper_keyword(item.direction.as_str())];
            assert(models(parts@) =~= seq![
                expression_doc(item@.expression),
                space_doc(),
                upper_keyword_doc(item@.direction),
            ]);
            let d = group(concat(parts));
            let ghost before = docs@;
            docs.push(d);
            assert(models(docs@) =~= models(before).push(target[k as int]));
            assert(target.take(k as int + 1) =~= target.take(k as int).push(target[k as int]));
            k = k + 1;
        }
        assert(target.take(items@.len() as int) =~= target);
        let parts = vec![hardline(), keyword_order_by(), space(), join(comma_space_exec(), docs)];
        assert(models(parts@) =~= seq![brk(), keyword_doc("ORDER BY"@), space_doc(), spec_join(comma_space(), target)]);
        concat(parts)
    }

    fn format_limit_offset(&self, limit: Option<u64>, offset: Option<u64>) -> (r: Rc<Doc>)
        ensures
            r@ == spec_concat(seq![bound_doc("LIMIT"@, limit), bound_doc("OFFSET"@, offset)]),
    {
        let l = match limit {
            Some(n) => {
                let parts = vec![hardline(), keyword_limit(), space(), number(n)];
                assert(models(parts@) =~= seq![brk(), keyword_doc("LIMIT"@), space_doc(), number_doc(n)]);
                concat(parts)
            },
            None => empty(),
        };
        let o = match offset {
            Some(n) => {
                let parts = vec![hardline(), keyword_offset(), space(), number(n)];
                assert(models(parts@) =~= seq![brk(), keyword_doc("OFFSET"@), space_doc(), number_doc(n)]);
                concat(parts)
            },
            None => empty(),
        };
        let parts = vec![l, o];
        assert(models(parts@) =~= seq![bound_doc("LIMIT"@, limit), bound_doc("OFFSET"@, offset)]);
        concat(parts)
    }
}


impl Formatter {
    fn format_columns(&self, columns: &Vec<String>) -> (r: Rc<Doc>)
        requires
            forall|i: int| 0 <= i < columns@.len() ==> text_ok((#[trigger] columns@[i])@),
        ensures
            r@ == columns_doc(strings(columns@)),
    {
        let ghost cs = strings(columns@);
        if columns.len() == 0 {
            return empty();
        }
        let ghost target = cs.map_values(|c: Seq<char>| ident_doc(c));
        let mut docs: Vec<Rc<Doc>> = Vec::new();
        let mut k: usize = 0;
        while k < columns.len()
            invariant
                k <= columns@.len(),
                cs == strings(columns@),
                forall|i: int| 0 <= i < columns@.len() ==> text_ok((#[trigger] columns@[i])@),
                target == cs.map_values(|c: Seq<char>| ident_doc(c)),
                models(docs@) == target.take(k as int),
            decreases columns@.len() - k,
        {
            let d = ident(columns[k].as_str());
            let ghost before = docs@;
            docs.push(d);
            assert(models(docs@) =~= models(before).push(target[k as int]));
            assert(target.take(k as int + 1) =~= target.take(k as int).push(target[k as int]));
            k = k + 1;
        }
        assert(target.take(columns@.len() as int) =~= target);
        let parts = vec![space(), lparen(), join(comma_space_exec(), docs), rparen()];
        assert(models(parts@) =~= seq![space_doc(), sym('('), spec_join(comma_space(), target), sym(')')]);
        concat(parts)
    }

    #[verifier::rlimit(60)]
    fn format_cte(&self, cte: &CteClause) -> (r: Rc<Doc>)
        requires
            cte_ok(cte@),
        ensures
            r@ == cte_doc(self.indent, cte@),
        decreases cte, 0nat,
    {
        proof {
            assert(decreases_to!(cte => cte.query));
            assert forall|i: int| 0 <= i < cte.columns@.len() implies text_ok((#[trigger] cte.columns@[i])@) by {
                assert(cte@.columns[i] == cte.columns@[i]@);
            }
            lemma_cte_ok(cte@);
            assert(query_ok(cte.query@));
        }
        let query = self.format_query(&cte.query);
        let body = vec![hardline(), query];
        assert(models(body@) =~= seq![brk(), query_doc(self.indent, cte@.query)]);
        let parts = vec![
            ident(cte.name.as_str()),
            self.format_columns(&cte.columns),
            space(),
            keyword_as(),
            space(),
            lparen(),
            nest(self.indent, concat(body)),
            hardline(),
            rparen(),
        ];
        assert(models(parts@) =~= seq![
            ident_doc(cte@.name),
            columns_doc(cte@.columns),
            space_doc(),
            keyword_doc("AS"@),
            space_doc(),
            sym('('),
            DocModel::Nest(self.indent, Box::new(spec_concat(seq![brk(), query_doc(self.indent, cte@.query)]))),
            brk(),
            sym(')'),
        ]);
        concat(parts)
    }

    fn format_with(&self, ctes: &Vec<CteClause>) -> (r: Rc<Doc>)
        requires
            ctes_ok(cte_models(ctes@)),
        ensures
            r@ == with_doc(self.indent, cte_models(ctes@)),
        decreases ctes, 1nat,
    {
        let ghost cs = cte_models(ctes@);
        proof {
            lemma_cte_models(ctes@);
            lemma_cte_docs(self.indent, cs);
        }
        if ctes.len() == 0 {
            return empty();
        }
        let ghost target = cte_docs(self.indent, cs);
        let mut docs: Vec<Rc<Doc>> = Vec::new();
        let mut k: usize = 0;
        while k < ctes.len()
            invariant
                k <= ctes@.len(),
                cs == cte_models(ctes@),
                cs.len() == ctes@.len(),
                target == cte_docs(self.indent, cs),
                target.len() == cs.len(),
                forall|i: int| 0 <= i < cs.len() ==> #[trigger] cs[i] == ctes@[i]@,
                forall|i: int| 0 <= i < cs.len() ==> #[trigger] target[i] == cte_doc(self.indent, cs[i]),
                forall|i: int| 0 <= i < cs.len() ==> cte_ok(#[trigger] cs[i]),
                models(docs@) == target.take(k as int),
            decreases ctes@.len() - k,
        {
            proof {
                assert(decreases_to!(ctes => ctes@));
                assert(decreases_to!(ctes@ => ctes@[k as int]));
                assert(cs[k as int] == ctes@[k as int]@);
            }
            let d = self.format_cte(&ctes[k]);
            let ghost before = docs@;
            docs.push(d);
            assert(models(docs@) =~= models(before).push(target[k as int]));
            assert(target.take(k as int + 1) =~= target.take(k as int).push(target[k as int]));
            k = k + 1;
        }
        assert(target.take(ctes@.len() as int) =~= target);
        let parts = vec![keyword_with(), space(), join(comma_break_exec(), docs), hardline()];
        assert(models(parts@) =~= seq![keyword_doc("WITH"@), space_doc(), spec_join(comma_break(), target), brk()]);
        concat(parts)
    }

    /// The document of a query: each clause from a line of its own, in the
    /// order common table expressions, selections, source, joins, filter,
    /// grouping, group filter, ordering, limit and offset.
    #[verifier::rlimit(60)]
    pub fn format_query(&self, query: &Query) -> (r: Rc<Doc>)
        requires
            query_ok(query@),
        ensures
            r@ == query_doc(self.indent, query@),
        decreases query, 2nat,
    {
        let q = query;
        proof {
            assert(decreases_to!(q => q.with));
            lemma_query_ok(*q);
        }
        let parts = vec![
            self.format_with(&q.with),
            self.format_select(&q.select),
            self.format_from(&q.from),
            self.format_joins(&q.joins),
            self.format_where(q.where_clause.as_str()),
            self.format_group_by(&q.group_by),
            self.format_having(q.having.as_str()),
            self.format_order_by(&q.order_by),
            self.format_limit_offset(q.limit, q.offset),
        ];
        assert(models(parts@) =~= seq![
            with_doc(self.indent, q@.with),
            select_doc(self.indent, q@.select),
            from_doc(q@.from),
            joins_doc(self.indent, q@.joins),
            where_doc(self.indent, q@.where_clause),
            group_by_doc(self.indent, q@.group_by),
            having_doc(q@.having),
            order_by_doc(q@.order_by),
            spec_concat(seq![bound_doc("LIMIT"@, q@.limit), bound_doc("OFFSET"@, q@.offset)]),
        ]);
        concat(parts)
    }
}


/// The model of the grouping query of the sample.
pub open spec fn base_query_model() -> QueryModel {
    QueryModel {
        select: seq![
            SelectModel { expression: "user_id"@, alias: None },
            SelectModel { expression: "COUNT(*)"@, alias: Some("total_orders"@) },
        ],
        from: TableModel { name: "orders"@, alias: None },
        joins: seq![],
        where_clause: seq![],
        group_by: seq!["user_id"@],
        having: seq![],
        order_by: seq![],
        limit: None,
        offset: None,
        with: seq![],
    }
}

/// The model of the sample query.
pub open spec fn complex_query_model() -> QueryModel {
    QueryModel {
        with: seq![
            CteModel {
                name: "order_stats"@,
                columns: seq!["user_id"@, "total_orders"@],
                query: base_query_model(),
            },
        ],
        select: seq![
            SelectModel { expression: "u.name"@, alias: None },
            SelectModel { expression: "os.total_orders"@, alias: None },
            SelectModel { expression: "COALESCE(SUM(o.amount), 0)"@, alias: Some("total_spent"@) },
        ],
        from: TableModel { name: "users"@, alias: Some("u"@) },
        joins: seq![
            JoinModel {
                kind: "LEFT"@,
                table: TableModel { name: "order_stats"@, alias: Some("os"@) },
                condition: "os.user_id = u.id"@,
            },
            JoinModel {
                kind: "LEFT"@,
                table: TableModel { name: "orders"@, alias: Some("o"@) },
                condition: "o.user_id = u.id"@,
            },
        ],
        where_clause: "u.status = 'active' AND o.created_at >= CURRENT_DATE - INTERVAL '1 year'"@,
        group_by: seq!["u.name"@, "os.total_orders"@],
        having: "COUNT(*) > 5"@,
        order_by: seq![OrderModel { expression: "total_spent"@, direction: "DESC"@ }],
        limit: Some(10),
        offset: None,
    }
}

/// A string of `value`.
fn owned(value: &str) -> (r: String)
    ensures
        r@ == value@,
{
    value.to_owned()
}

/// A selection without an alias.
fn plain_select(expression: &str) -> (r: SelectItem)
    ensures
        r@ == (SelectModel { expression: expression@, alias: None }),
{
    SelectItem { expression: owned(expression), alias: None }
}

/// A selection with an alias.
fn aliased_select(expression: &str, alias: &str) -> (r: SelectItem)
    ensures
        r@ == (SelectModel { expression: expression@, alias: Some(alias@) }),
{
    SelectItem { expression: owned(expression), alias: Some(owned(alias)) }
}

/// The grouping query of the sample: orders counted per user.
fn base_query() -> (r: Query)
    ensures
        r@ == base_query_model(),
{
    let select = vec![plain_select("user_id"), aliased_select("COUNT(*)", "total_orders")];
    let group_by = vec![owned("user_id")];
    let with: Vec<CteClause> = Vec::new();
    let q = Query {
        select,
        from: TableRef { name: owned("orders"), alias: None },
        joins: Vec::new(),
        where_clause: String::new(),
        group_by,
        having: String::new(),
        order_by: Vec::new(),
        limit: None,
        offset: None,
        with,
    };
    proof {
        assert(q.select@.map_values(|i: SelectItem| i@) =~= base_query_model().select);
        assert(strings(q.group_by@) =~= base_query_model().group_by);
        assert(q.joins@.map_values(|j: JoinClause| j@) =~= Seq::<JoinModel>::empty());
        assert(q.order_by@.map_values(|o: OrderByItem| o@) =~= Seq::<OrderModel>::empty());
        assert(q.where_clause@ =~= Seq::<char>::empty());
        assert(q.having@ =~= Seq::<char>::empty());
        assert(cte_models(q.with@) =~= Seq::<CteModel>::empty());
    }
    q
}

/// The sample query: a common table expression, two joins, a filter,
/// grouping, a group filter, ordering and a limit.
pub fn complex_query() -> (r: Query)
    ensures
        r@ == complex_query_model(),
{
    let cte = CteClause {
        name: owned("order_stats"),
        query: base_query(),
        columns: vec![owned("user_id"), owned("total_orders")],
    };
    let select = vec![
        plain_select("u.name"),
        plain_select("os.total_orders"),
        aliased_select("COALESCE(SUM(o.amount), 0)", "total_spent"),
    ];
    let joins = vec![
        JoinClause {
            kind: owned("LEFT"),
            table: TableRef { name: owned("order_stats"), alias: Some(owned("os")) },
            condition: owned("os.user_id = u.id"),
        },
        JoinClause {
            kind: owned("LEFT"),
            table: TableRef { name: owned("orders"), alias: Some(owned("o")) },
            condition: owned("o.user_id = u.id"),
        },
    ];
    let group_by = vec![owned("u.name"), owned("os.total_orders")];
    let order_by = vec![OrderByItem { expression: owned("total_spent"), direction: owned("DESC") }];
    let ghost cm = CteModel { name: "order_stats"@, columns: seq!["user_id"@, "total_orders"@], query: base_query_model() };
    assert(cte@ == cm) by {
        assert(strings(cte.columns@) =~= seq!["user_id"@, "total_orders"@]);
    }
    let with = vec![cte];
    let q = Query {
        select,
        from: TableRef { name: owned("users"), alias: Some(owned("u")) },
        joins,
        where_clause: owned("u.status = 'active' AND o.created_at >= CURRENT_DATE - INTERVAL '1 year'"),
        group_by,
        having: owned("COUNT(*) > 5"),
        order_by,
        limit: Some(10),
        offset: None,
        with,
    };
    proof {
        let m = complex_query_model();
        assert(q.select@.map_values(|i: SelectItem| i@) =~= m.select);
        assert(q.joins@.map_values(|j: JoinClause| j@) =~= m.joins);
        assert(strings(q.group_by@) =~= m.group_by);
        assert(q.order_by@.map_values(|o: OrderByItem| o@) =~= m.order_by);
        lemma_cte_models(q.with@);
        assert(cte_models(q.with@) =~= m.with);
    }
    q
}

/// Whether `value` can be a text run.
fn fits_text(value: &str) -> (r: bool)
    ensures
        r == text_ok(value@),
{
    let n = value.unicode_len();
    if n > usize::MAX / 4 {
        return false;
    }
    match crate::doc::try_text(value) {
        Ok(_) => true,
        Err(_) => false,
    }
}

/// Whether a table's strings can be text runs.
fn table_fits(t: &TableRef) -> (r: bool)
    ensures
        r == table_ok(t@),
{
    fits_text(t.name.as_str()) && match &t.alias {
        Some(a) => fits_text(a.as_str()),
        None => true,
    }
}

/// Whether every string of `cols` can be a text run.
fn all_fit(cols: &Vec<String>) -> (r: bool)
    ensures
        r == forall|i: int| 0 <= i < cols@.len() ==> text_ok((#[trigger] cols@[i])@),
{
    let mut k: usize = 0;
    while k < cols.len()
        invariant
            k <= cols@.len(),
            forall|i: int| 0 <= i < k ==> text_ok((#[trigger] cols@[i])@),
        decreases cols@.len() - k,
    {
        if !fits_text(cols[k].as_str()) {
            return false;
        }
        k = k + 1;
    }
    true
}

/// Whether every string of a query that formatting makes into a text run
/// can be one.
fn query_fits(q: &Query) -> (r: bool)
    ensures
        r == query_ok(q@),
    decreases q, 1nat,
{
    let mut k: usize = 0;
    while k < q.select.len()
        invariant
            k <= q.select@.len(),
            forall|i: int|
                0 <= i < k ==> text_ok((#[trigger] q.select@[i])@.expression) && (q.select@[i]@.alias matches Some(
                    a,
                ) ==> text_ok(a)),
        decreases q.select@.len() - k,
    {
        let item = &q.select[k];
        let ok = fits_text(item.expression.as_str()) && match &item.alias {
            Some(a) => fits_text(a.as_str()),
            None => true,
        };
        if !ok {
            proof {
                assert(q@.select[k as int] == q.select@[k as int]@);
            }
            return false;
        }
        k = k + 1;
    }
    assert forall|i: int| 0 <= i < q@.select.len() implies text_ok((#[trigger] q@.select[i]).expression) && (
    q@.select[i].alias matches Some(a) ==> text_ok(a)) by {
        assert(q@.select[i] == q.select@[i]@);
    }
    if !table_fits(&q.from) {
        return false;
    }
    let mut k: usize = 0;
    while k < q.joins.len()
        invariant
            k <= q.joins@.len(),
            forall|i: int|
                0 <= i < k ==> text_ok(unicode_uppercase((#[trigger] q.joins@[i])@.kind + " join"@)) && table_ok(
                    q.joins@[i]@.table,
                ) && text_ok(q.joins@[i]@.condition),
        decreases q.joins@.len() - k,
    {
        let j = &q.joins[k];
        let mut kind = j.kind.clone();
        let ghost k0 = j.kind@;
        push_char(&mut kind, ' ');
        push_char(&mut kind, 'j');
        push_char(&mut kind, 'o');
        push_char(&mut kind, 'i');
        push_char(&mut kind, 'n');
        proof {
            reveal_strlit(" join");
            assert(kind@ =~= k0 + " join"@);
        }
        let upper = to_uppercase(kind.as_str());
        let ok = fits_text(upper.as_str()) && table_fits(&j.table) && fits_text(j.condition.as_str());
        if !ok {
            proof {
                assert(q@.joins[k as int] == q.joins@[k as int]@);
            }
            return false;
        }
        k = k + 1;
    }
    assert forall|i: int| 0 <= i < q@.joins.len() implies text_ok(
        unicode_uppercase((#[trigger] q@.joins[i]).kind + " join"@),
    ) && table_ok(q@.joins[i].table) && text_ok(q@.joins[i].condition) by {
        assert(q@.joins[i] == q.joins@[i]@);
    }
    if q.where_clause.unicode_len() > 0 {
        let pieces = split_conjuncts(q.where_clause.as_str());
        let ghost cs = conjuncts(q.where_clause@);
        let mut k: usize = 0;
        while k < pieces.len()
            invariant
                k <= pieces@.len(),
                cs == conjuncts(q.where_clause@),
                q.where_clause@.len() > 0,
                pieces@.len() == cs.len(),
                forall|i: int| 0 <= i < pieces@.len() ==> (#[trigger] pieces@[i])@ == cs[i],
                forall|i: int| 0 <= i < k ==> text_ok(#[trigger] cs[i]),
            decreases pieces@.len() - k,
        {
            assert(pieces@[k as int]@ == cs[k as int]);
            if !fits_text(pieces[k]) {
                assert(!text_ok(conjuncts(q@.where_clause)[k as int]));
                return false;
            }
            k = k + 1;
        }
    }
    if !all_fit(&q.group_by) {
        proof {
            let i = choose|i: int| 0 <= i < q.group_by@.len() && !text_ok((#[trigger] q.group_by@[i])@);
            assert(q@.group_by[i] == q.group_by@[i]@);
        }
        return false;
    }
    assert forall|i: int| 0 <= i < q@.group_by.len() implies text_ok(#[trigger] q@.group_by[i]) by {
        assert(q@.group_by[i] == q.group_by@[i]@);
    }
    if q.having.unicode_len() > 0 && !fits_text(q.having.as_str()) {
        return false;
    }
    let mut k: usize = 0;
    while k < q.order_by.len()
        invariant
            k <= q.order_by@.len(),
            forall|i: int|
                0 <= i < k ==> text_ok((#[trigger] q.order_by@[i])@.expression) && text_ok(
                    unicode_uppercase(q.order_by@[i]@.direction),
                ),
        decreases q.order_by@.len() - k,
    {
        let item = &q.order_by[k];
        let upper = to_uppercase(item.direction.as_str());
        if !(fits_text(item.expression.as_str()) && fits_text(upper.as_str())) {
            proof {
                assert(q@.order_by[k as int] == q.order_by@[k as int]@);
            }
            return false;
        }
        k = k + 1;
    }
    proof {
        assert(decreases_to!(q => q.with));
    }
    let ctes_fit = ctes_fit(&q.with);
    proof {
        assert forall|i: int| 0 <= i < q@.select.len() implies text_ok((#[trigger] q@.select[i]).expression) && (
        q@.select[i].alias matches Some(a) ==> text_ok(a)) by {
            assert(q@.select[i] == q.select@[i]@);
        }
        assert forall|i: int| 0 <= i < q@.joins.len() implies text_ok(
            unicode_uppercase((#[trigger] q@.joins[i]).kind + " join"@),
        ) && table_ok(q@.joins[i].table) && text_ok(q@.joins[i].condition) by {
            assert(q@.joins[i] == q.joins@[i]@);
        }
        assert forall|i: int| 0 <= i < q@.order_by.len() implies text_ok((#[trigger] q@.order_by[i]).expression)
            && text_ok(unicode_uppercase(q@.order_by[i].direction)) by {
            assert(q@.order_by[i] == q.order_by@[i]@);
        }
    }
    ctes_fit
}

/// Whether every string of some common table expressions can be a text
/// run where formatting makes one.
fn ctes_fit(ctes: &Vec<CteClause>) -> (r: bool)
    ensures
        r == ctes_ok(cte_models(ctes@)),
    decreases ctes, 0nat,
{
    let ghost cs = cte_models(ctes@);
    proof {
        lemma_cte_models(ctes@);
        lemma_ctes_ok(cs);
    }
    let mut k: usize = 0;
    while k < ctes.len()
        invariant
            k <= ctes@.len(),
            cs == cte_models(ctes@),
            cs.len() == ctes@.len(),
            forall|i: int| 0 <= i < cs.len() ==> #[trigger] cs[i] == ctes@[i]@,
            forall|i: int| 0 <= i < k ==> cte_ok(#[trigger] cs[i]),
        decreases ctes@.len() - k,
    {
        proof {
            assert(decreases_to!(ctes => ctes@));
            assert(decreases_to!(ctes@ => ctes@[k as int]));
            assert(decreases_to!(ctes@[k as int] => ctes@[k as int].query));
        }
        let c = &ctes[k];
        proof {
            assert(cs[k as int] == c@);
        }
        let name_fits = fits_text(c.name.as_str());
        let columns_fit = all_fit(&c.columns);
        if !columns_fit {
            proof {
                let i = choose|i: int| 0 <= i < c.columns@.len() && !text_ok((#[trigger] c.columns@[i])@);
                assert(c@.columns[i] == c.columns@[i]@);
                assert(!cte_ok(cs[k as int]));
                lemma_ctes_ok(cs);
            }
            return false;
        }
        let query_fits_too = query_fits(&c.query);
        if !(name_fits && query_fits_too) {
            proof {
                assert(!cte_ok(cs[k as int]));
                lemma_ctes_ok(cs);
            }
            return false;
        }
        proof {
            assert forall|i: int| 0 <= i < c@.columns.len() implies text_ok(#[trigger] c@.columns[i]) by {
                assert(c@.columns[i] == c.columns@[i]@);
            }
        }
        k = k + 1;
    }
    proof {
        lemma_ctes_ok(cs);
    }
    true
}

/// Some common table expressions can be formatted exactly when each can.
proof fn lemma_ctes_ok(cs: Seq<CteModel>)
    ensures
        ctes_ok(cs) <==> forall|i: int| 0 <= i < cs.len() ==> cte_ok(#[trigger] cs[i]),
    decreases cs.len(),
{
    if cs.len() > 0 {
        let front = cs.subrange(0, cs.len() - 1);
        lemma_ctes_ok(front);
        if forall|i: int| 0 <= i < cs.len() ==> cte_ok(#[trigger] cs[i]) {
            assert forall|i: int| 0 <= i < front.len() implies cte_ok(#[trigger] front[i]) by {
                assert(front[i] == cs[i]);
            }
        }
        if ctes_ok(cs) {
            assert forall|i: int| 0 <= i < cs.len() implies cte_ok(#[trigger] cs[i]) by {
                if i < cs.len() - 1 {
                    assert(front[i] == cs[i]);
                }
            }
        }
    }
}

impl Formatter {
    /// The document of a query when every string that formatting makes into
    /// a text run can be one, `None` otherwise.
    pub fn try_format_query(&self, query: &Query) -> (r: Option<Rc<Doc>>)
        ensures
            query_ok(query@) ==> (r matches Some(d) && d@ == query_doc(self.indent, query@)),
            !query_ok(query@) ==> r is None,
    {
        if query_fits(query) {
            Some(self.format_query(query))
        } else {
            None
        }
    }
}

} // verus!
