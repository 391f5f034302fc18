//! Pure static compilation for aligned tables with flat cells.
//!
//! The builder measures each cell's flat projection once, constructs a
//! padded compact table and a vertically stacked fallback, then returns an
//! ordinary choice wrapped in `align`. No callbacks or ambient layout state
//! enter the document tree.
use crate::doc::{
    align, choice, choice_free, empty, flatten, hardline, join, models, spec_flatten, spec_join,
    spec_concat, Doc, DocModel, TextModel, TextRun,
};
use crate::research::{push_spaces, spaces};
use crate::tags;
use std::rc::Rc;
use vstd::prelude::*;

verus! {

/// Horizontal alignment inside a measured table column.
#[derive(Clone, Copy, Debug, PartialEq, Eq, Structural, Hash)]
pub enum Alignment {
    /// Place padding after the cell.
    Left,
    /// Place padding before the cell.
    Right,
    /// Split padding around the cell.
    Center,
}

impl Default for Alignment {
    fn default() -> (r: Self)
        ensures
            r == Alignment::Left,
    {
        Alignment::Left
    }
}

/// Configuration for one table column.
#[derive(Clone, Debug)]
pub struct Column {
    /// Optional header document.
    pub header: Option<Rc<Doc>>,
    /// Cell alignment in this column.
    pub alignment: Alignment,
    /// Minimum separation from the following column.
    pub min_padding: u16,
}

/// The content of a column configuration.
pub struct ColumnModel {
    /// Header model.
    pub header: Option<DocModel>,
    /// Cell alignment.
    pub alignment: Alignment,
    /// Minimum separation from the following column.
    pub min_padding: u16,
}

impl View for Column {
    type V = ColumnModel;

    open spec fn view(&self) -> ColumnModel {
        ColumnModel {
            header: match self.header {
                Some(d) => Some(d@),
                None => None,
            },
            alignment: self.alignment,
            min_padding: self.min_padding,
        }
    }
}

/// The configuration of a column nobody configured.
pub open spec fn default_column() -> ColumnModel {
    ColumnModel { header: None, alignment: Alignment::Left, min_padding: 2 }
}

impl Default for Column {
    fn default() -> (r: Self)
        ensures
            r@ == default_column(),
    {
        Column { header: None, alignment: Alignment::Left, min_padding: 2 }
    }
}

impl Column {
    /// Create a column without a header.
    pub fn unlabeled() -> (r: Self)
        ensures
            r@ == default_column(),
    {
        Column::default()
    }

    /// Create a column with a header.
    pub fn with_header(header: Rc<Doc>) -> (r: Self)
        ensures
            r@ == (ColumnModel { header: Some(header@), ..default_column() }),
    {
        Column { header: Some(header), alignment: Alignment::Left, min_padding: 2 }
    }

    /// Set the horizontal alignment.
    pub fn alignment(self, alignment: Alignment) -> (r: Self)
        ensures
            r@ == (ColumnModel { alignment, ..self@ }),
    {
        Column { alignment, ..self }
    }

    /// Set minimum padding after this column.
    pub fn min_padding(self, min_padding: u16) -> (r: Self)
        ensures
            r@ == (ColumnModel { min_padding, ..self@ }),
    {
        Column { min_padding, ..self }
    }

    /// Create an unlabelled column.
    pub fn new() -> (r: Self)
        ensures
            r@ == default_column(),
    {
        Column::unlabeled()
    }

    /// Create a labelled column.
    pub fn labeled(header: Rc<Doc>) -> (r: Self)
        ensures
            r@ == (ColumnModel { header: Some(header@), ..default_column() }),
    {
        Column::with_header(header)
    }
}

/// Failure while compiling a table to ordinary document nodes.
#[derive(Clone, Copy, Debug, PartialEq, Eq, Structural)]
#[non_exhaustive]
pub enum TableError {
    /// A header has no single-line projection.
    NonFlattenableHeader {
        /// Zero-based column index.
        column: usize,
    },
    /// A body cell has no single-line projection.
    NonFlattenableCell {
        /// Zero-based row index.
        row: usize,
        /// Zero-based column index.
        column: usize,
    },
    /// A header contains a layout choice, which table measurement forbids.
    ChoiceBearingHeader {
        /// Zero-based column index.
        column: usize,
    },
    /// A body cell contains a layout choice, which table measurement forbids.
    ChoiceBearingCell {
        /// Zero-based row index.
        row: usize,
        /// Zero-based column index.
        column: usize,
    },
}

/// Stable category for a [`TableError`].
#[derive(Clone, Copy, Debug, PartialEq, Eq, Structural, Hash)]
#[non_exhaustive]
pub enum TableErrorKind {
    /// A header cannot be flattened.
    NonFlattenableHeader,
    /// A body cell cannot be flattened.
    NonFlattenableCell,
    /// A header contains a layout choice.
    ChoiceBearingHeader,
    /// A body cell contains a layout choice.
    ChoiceBearingCell,
}

impl TableError {
    /// The stable category of this error.
    pub fn kind(&self) -> (r: TableErrorKind)
        ensures
            r == (match *self {
                TableError::NonFlattenableHeader { .. } => TableErrorKind::NonFlattenableHeader,
                TableError::NonFlattenableCell { .. } => TableErrorKind::NonFlattenableCell,
                TableError::ChoiceBearingHeader { .. } => TableErrorKind::ChoiceBearingHeader,
                TableError::ChoiceBearingCell { .. } => TableErrorKind::ChoiceBearingCell,
            }),
    {
        match self {
            TableError::NonFlattenableHeader { .. } => TableErrorKind::NonFlattenableHeader,
            TableError::NonFlattenableCell { .. } => TableErrorKind::NonFlattenableCell,
            TableError::ChoiceBearingHeader { .. } => TableErrorKind::ChoiceBearingHeader,
            TableError::ChoiceBearingCell { .. } => TableErrorKind::ChoiceBearingCell,
        }
    }
}

/// Builder for a statically measured aligned table.
#[derive(Clone, Debug)]
pub struct Table {
    columns: Vec<Column>,
    rows: Vec<Vec<Rc<Doc>>>,
    show_header: bool,
}

/// The content of a table builder.
pub struct TableModel {
    /// Column configurations.
    pub columns: Seq<ColumnModel>,
    /// Body rows.
    pub rows: Seq<Seq<DocModel>>,
    /// Whether configured headers are shown.
    pub show_header: bool,
}

impl View for Table {
    type V = TableModel;

    closed spec fn view(&self) -> TableModel {
        TableModel {
            columns: self.columns@.map_values(|c: Column| c@),
            rows: self.rows@.map_values(|r: Vec<Rc<Doc>>| models(r@)),
            show_header: self.show_header,
        }
    }
}

/// The width of the flat projection `d`, or `None` at a hard break.
pub open spec fn flat_width(d: DocModel) -> Option<int>
    decreases d,
{
    match d {
        DocModel::Empty => Some(0),
        DocModel::Text(t) => Some(t.columns as int),
        DocModel::Line(Some(t)) => Some(t.columns as int),
        DocModel::Line(None) => None,
        DocModel::Concat(a, b) => match (flat_width(*a), flat_width(*b)) {
            (Some(x), Some(y)) => Some(x + y),
            _ => None,
        },
        DocModel::Nest(_, x) | DocModel::Align(x) | DocModel::Tag(_, x) | DocModel::Penalty(_, x) => flat_width(*x),
        DocModel::Choice(p, _) => flat_width(*p),
    }
}

/// What measuring a cell finds.
pub enum CellCheck {
    /// The cell contains a layout choice.
    ChoiceBearing,
    /// The cell has no single-line projection of representable width.
    NoFlat,
    /// The flat projection and its width.
    Flat(DocModel, u32),
}

/// Measures a cell.
pub open spec fn cell_check(d: DocModel) -> CellCheck {
    if !choice_free(d) {
        CellCheck::ChoiceBearing
    } else {
        match spec_flatten(d) {
            None => CellCheck::NoFlat,
            Some(f) => match flat_width(f) {
                Some(w) => if w <= u32::MAX {
                    CellCheck::Flat(f, w as u32)
                } else {
                    CellCheck::NoFlat
                },
                None => CellCheck::NoFlat,
            },
        }
    }
}

/// The flat projection and width of a measurable cell.
pub open spec fn flat_cell(d: DocModel) -> (DocModel, u32) {
    match cell_check(d) {
        CellCheck::Flat(f, w) => (f, w),
        _ => (DocModel::Empty, 0),
    }
}

/// The longest of `rows` and `at_least`.
pub open spec fn longest_row(rows: Seq<Seq<DocModel>>, at_least: nat) -> nat
    decreases rows.len(),
{
    if rows.len() == 0 {
        at_least
    } else {
        let rest = longest_row(rows.drop_last(), at_least);
        if rows.last().len() > rest {
            rows.last().len()
        } else {
            rest
        }
    }
}

/// The number of columns of a table.
pub open spec fn column_count(t: TableModel) -> nat {
    longest_row(t.rows, t.columns.len())
}

/// The configuration of column `c`, defaulted past the configured ones.
pub open spec fn column_at(t: TableModel, c: int) -> ColumnModel {
    if 0 <= c < t.columns.len() {
        t.columns[c]
    } else {
        default_column()
    }
}

/// One past the last configured column with a header, scanning the first
/// `n` columns.
pub open spec fn header_len_within(columns: Seq<ColumnModel>, n: int) -> nat
    decreases n,
{
    if n <= 0 {
        0
    } else if columns[n - 1].header is Some {
        n as nat
    } else {
        header_len_within(columns, n - 1)
    }
}

/// One past the last configured column with a header.
pub open spec fn header_len(t: TableModel) -> nat {
    header_len_within(t.columns, t.columns.len() as int)
}

/// Whether a header row is emitted.
pub open spec fn shows_header(t: TableModel) -> bool {
    t.show_header && header_len(t) > 0
}

/// The first header error at column `c` or later.
pub open spec fn header_error_from(t: TableModel, c: int) -> Option<TableError>
    decreases header_len(t) - c,
{
    if c < 0 || c >= header_len(t) {
        None
    } else {
        match column_at(t, c).header {
            Some(d) => match cell_check(d) {
                CellCheck::ChoiceBearing => Some(TableError::ChoiceBearingHeader { column: c as usize }),
                CellCheck::NoFlat => Some(TableError::NonFlattenableHeader { column: c as usize }),
                CellCheck::Flat(..) => header_error_from(t, c + 1),
            },
            None => header_error_from(t, c + 1),
        }
    }
}

/// The first error of body row `r` at column `c` or later.
pub open spec fn cell_error_from(cells: Seq<DocModel>, r: int, c: int) -> Option<TableError>
    decreases cells.len() - c,
{
    if c < 0 || c >= cells.len() {
        None
    } else {
        match cell_check(cells[c]) {
            CellCheck::ChoiceBearing => Some(TableError::ChoiceBearingCell { row: r as usize, column: c as usize }),
            CellCheck::NoFlat => Some(TableError::NonFlattenableCell { row: r as usize, column: c as usize }),
            CellCheck::Flat(..) => cell_error_from(cells, r, c + 1),
        }
    }
}

/// The first error of the body rows from row `r` on.
pub open spec fn row_error_from(rows: Seq<Seq<DocModel>>, r: int) -> Option<TableError>
    decreases rows.len() - r,
{
    if r < 0 || r >= rows.len() {
        None
    } else {
        match cell_error_from(rows[r], r, 0) {
            Some(e) => Some(e),
            None => row_error_from(rows, r + 1),
        }
    }
}

/// The first error of a table: headers in column order, then body cells
/// row by row.
pub open spec fn table_error(t: TableModel) -> Option<TableError> {
    match (if shows_header(t) { header_error_from(t, 0) } else { None }) {
        Some(e) => Some(e),
        None => row_error_from(t.rows, 0),
    }
}

/// The measured header row.
pub open spec fn header_row(t: TableModel) -> Seq<(DocModel, u32)> {
    Seq::new(
        header_len(t),
        |c: int|
            match column_at(t, c).header {
                Some(d) => flat_cell(d),
                None => (DocModel::Empty, 0u32),
            },
    )
}

/// A measured body row.
pub open spec fn measured_row(row: Seq<DocModel>) -> Seq<(DocModel, u32)> {
    Seq::new(row.len(), |c: int| flat_cell(row[c]))
}

/// The measured logical rows: the header row when shown, then the body.
pub open spec fn logical_rows(t: TableModel) -> Seq<Seq<(DocModel, u32)>> {
    (if shows_header(t) {
        seq![header_row(t)]
    } else {
        seq![]
    }) + Seq::new(t.rows.len(), |r: int| measured_row(t.rows[r]))
}

/// The widest cell of column `c` among `rows`.
pub open spec fn column_width(rows: Seq<Seq<(DocModel, u32)>>, c: int) -> u32
    decreases rows.len(),
{
    if rows.len() == 0 {
        0
    } else {
        let rest = column_width(rows.drop_last(), c);
        if 0 <= c < rows.last().len() && rows.last()[c].1 > rest {
            rows.last()[c].1
        } else {
            rest
        }
    }
}

/// `n` columns of tagged spaces, or nothing.
pub open spec fn spaces_doc(n: u32) -> DocModel {
    if n == 0 {
        DocModel::Empty
    } else {
        DocModel::Tag(
            tags::WHITESPACE,
            Box::new(DocModel::Text(TextModel { value: spaces(n as nat), columns: n })),
        )
    }
}

/// Padding before and after a cell of width `width` in a column of width
/// `column_width`.
pub open spec fn padding(alignment: Alignment, column_width: u32, width: u32) -> (int, int) {
    let slack = column_width - width;
    match alignment {
        Alignment::Left => (0, slack),
        Alignment::Right => (slack, 0),
        Alignment::Center => (slack / 2, slack - slack / 2),
    }
}

/// Cell `c` of a compact row: its leading padding, its flat projection and
/// its trailing padding, the latter widened by the column's minimum
/// padding unless it is the row's last cell.
pub open spec fn compact_cell(
    t: TableModel,
    rows: Seq<Seq<(DocModel, u32)>>,
    row: Seq<(DocModel, u32)>,
    c: int,
) -> DocModel {
    let col = column_at(t, c);
    let (before, after) = padding(col.alignment, column_width(rows, c), row[c].1);
    let trailing = if c + 1 < row.len() {
        after + col.min_padding
    } else {
        0
    };
    spec_concat(seq![spaces_doc(before as u32), row[c].0, spaces_doc(trailing as u32)])
}

/// A row padded to the column widths.
pub open spec fn compact_row(t: TableModel, rows: Seq<Seq<(DocModel, u32)>>, row: Seq<(DocModel, u32)>) -> DocModel {
    spec_concat(Seq::new(row.len(), |c: int| compact_cell(t, rows, row, c)))
}

/// A row stacked one cell per line.
pub open spec fn stacked_row(row: Seq<(DocModel, u32)>) -> DocModel {
    spec_join(DocModel::Line(None), Seq::new(row.len(), |c: int| row[c].0))
}

/// Every logical row padded to the column widths.
pub open spec fn compact_rows(t: TableModel, rows: Seq<Seq<(DocModel, u32)>>) -> Seq<DocModel> {
    Seq::new(rows.len(), |i: int| compact_row(t, rows, rows[i]))
}

/// Every logical row stacked.
pub open spec fn stacked_rows(rows: Seq<Seq<(DocModel, u32)>>) -> Seq<DocModel> {
    Seq::new(rows.len(), |i: int| stacked_row(rows[i]))
}

/// Some logical row has more than one cell.
pub open spec fn has_horizontal(rows: Seq<Seq<(DocModel, u32)>>) -> bool {
    exists|i: int| 0 <= i < rows.len() && (#[trigger] rows[i]).len() > 1
}

/// The compiled table of a table with at least one logical row.
pub open spec fn compiled(t: TableModel) -> DocModel {
    let rows = logical_rows(t);
    let compact = spec_join(DocModel::Line(None), compact_rows(t, rows));
    let fallback = spec_join(DocModel::Line(None), stacked_rows(rows));
    if has_horizontal(rows) {
        DocModel::Align(Box::new(DocModel::Choice(Box::new(compact), Box::new(fallback))))
    } else {
        DocModel::Align(Box::new(compact))
    }
}

/// What compiling a table gives.
pub open spec fn spec_build(t: TableModel) -> Result<DocModel, TableError> {
    if column_count(t) == 0 {
        Ok(DocModel::Empty)
    } else {
        match table_error(t) {
            Some(e) => Err(e),
            None => if !shows_header(t) && t.rows.len() == 0 {
                Ok(DocModel::Empty)
            } else {
                Ok(compiled(t))
            },
        }
    }
}

/// `t` with no header configured on any column.
pub open spec fn without_headers(t: TableModel) -> TableModel {
    TableModel { columns: t.columns.map_values(|c: ColumnModel| ColumnModel { header: None, ..c }), ..t }
}

proof fn lemma_no_header_len(columns: Seq<ColumnModel>, n: int)
    requires
        n <= columns.len(),
        forall|c: int| 0 <= c < columns.len() ==> (#[trigger] columns[c]).header is None,
    ensures
        header_len_within(columns, n) == 0,
    decreases n,
{
    if n > 0 {
        lemma_no_header_len(columns, n - 1);
    }
}

/// Configured headers appear only after [`Table::header`]: a table that
/// does not show its header has its body rows as its only logical rows, and
/// builds exactly as the same table with no header configured at all.
pub proof fn lemma_hidden_headers_are_ignored(t: TableModel)
    requires
        !t.show_header,
    ensures
        logical_rows(t) == Seq::new(t.rows.len(), |r: int| measured_row(t.rows[r])),
        spec_build(t) == spec_build(without_headers(t)),
{
    let u = without_headers(t);
    assert forall|c: int| 0 <= c < u.columns.len() implies (#[trigger] u.columns[c]).header is None by {}
    lemma_no_header_len(u.columns, u.columns.len() as int);
    assert(!shows_header(t) && !shows_header(u));
    assert(logical_rows(t) =~= Seq::new(t.rows.len(), |r: int| measured_row(t.rows[r])));
    assert(logical_rows(u) =~= logical_rows(t));
    assert(column_count(u) == column_count(t));
    assert(table_error(u) == table_error(t));
    let rows = logical_rows(t);
    assert forall|c: int| #[trigger] column_at(u, c).alignment == column_at(t, c).alignment && column_at(
        u,
        c,
    ).min_padding == column_at(t, c).min_padding by {}
    assert forall|i: int| 0 <= i < rows.len() implies #[trigger] compact_row(t, rows, rows[i]) == compact_row(
        u,
        rows,
        rows[i],
    ) by {
        let row = rows[i];
        assert(Seq::new(row.len(), |c: int| compact_cell(t, rows, row, c)) =~= Seq::new(
            row.len(),
            |c: int| compact_cell(u, rows, row, c),
        )) by {
            assert forall|c: int| 0 <= c < row.len() implies compact_cell(t, rows, row, c) == compact_cell(
                u,
                rows,
                row,
                c,
            ) by {
                assert(column_at(u, c).alignment == column_at(t, c).alignment);
                assert(column_at(u, c).min_padding == column_at(t, c).min_padding);
            }
        }
    }
    assert(compact_rows(t, rows) =~= compact_rows(u, rows));
    assert(compiled(t) == compiled(u));
}

/// After [`Table::header`], a table with a configured header leads with
/// its header row, one cell per column up to the last configured header,
/// and then its body rows in order.
pub proof fn lemma_shown_header_leads(t: TableModel)
    requires
        t.show_header,
        exists|c: int| 0 <= c < t.columns.len() && (#[trigger] t.columns[c]).header is Some,
    ensures
        logical_rows(t).len() == t.rows.len() + 1,
        logical_rows(t)[0] == header_row(t),
        header_row(t).len() > 0,
        forall|r: int| 0 <= r < t.rows.len() ==> #[trigger] logical_rows(t)[r + 1] == measured_row(t.rows[r]),
{
    let c = choose|c: int| 0 <= c < t.columns.len() && (#[trigger] t.columns[c]).header is Some;
    lemma_header_len_within(t.columns, t.columns.len() as int);
    assert(header_len(t) > 0);
}

/// The spaces a compact cell leads with: the first part of the cell.
pub open spec fn leading_part(cell: DocModel) -> DocModel {
    match cell {
        DocModel::Concat(front, _) => match *front {
            DocModel::Concat(lead, _) => *lead,
            _ => DocModel::Empty,
        },
        _ => DocModel::Empty,
    }
}

/// The content of a compact cell: its middle part.
pub open spec fn content_part(cell: DocModel) -> DocModel {
    match cell {
        DocModel::Concat(front, _) => match *front {
            DocModel::Concat(_, content) => *content,
            _ => DocModel::Empty,
        },
        _ => DocModel::Empty,
    }
}

proof fn lemma_spaces_width(n: u32)
    ensures
        flat_width(spaces_doc(n)) == Some(n as int),
{
    if n > 0 {
        let x = DocModel::Text(TextModel { value: spaces(n as nat), columns: n });
        assert(flat_width(x) == Some(n as int));
        assert(flat_width(DocModel::Tag(tags::WHITESPACE, Box::new(x))) == flat_width(x));
    }
}

/// A measured cell's projection is as wide as its measured width.
proof fn lemma_flat_cell_width(d: DocModel)
    ensures
        flat_width(flat_cell(d).0) == Some(flat_cell(d).1 as int),
{
    match cell_check(d) {
        CellCheck::Flat(f, w) => {
            assert(choice_free(d));
            assert(spec_flatten(d) is Some);
            let f2 = spec_flatten(d).unwrap();
            assert(flat_width(f2) is Some);
            let ww = flat_width(f2).unwrap();
            lemma_flat_width_nonneg(f2);
            assert(ww <= u32::MAX);
            assert(f == f2 && w == ww as u32);
            assert(flat_width(f2) == Some(w as int));
        },
        _ => {
            assert(flat_width(DocModel::Empty) == Some(0int));
        },
    }
}

/// Columns line up in the compact layout. Every cell of every logical row
/// shows its measured content, at most as wide as its column, led by the
/// padding its alignment asks for: none when left-aligned, the whole slack
/// when right-aligned, so the content ends at the column's edge, and half
/// the slack, rounded down, when centered. A cell followed by another in
/// its row spans exactly its column's width plus the column's minimum
/// padding, so the next cell starts at the same column in every row.
pub proof fn lemma_compact_cells_line_up(t: TableModel, i: int, c: int)
    requires
        padding_fits(t),
        0 <= i < logical_rows(t).len(),
        0 <= c < logical_rows(t)[i].len(),
    ensures
        ({
            let rows = logical_rows(t);
            let row = rows[i];
            let w = row[c].1 as int;
            let cw = column_width(rows, c) as int;
            let cell = compact_cell(t, rows, row, c);
            &&& w <= cw
            &&& content_part(cell) == row[c].0
            &&& flat_width(row[c].0) == Some(w)
            &&& flat_width(leading_part(cell)) == Some(
                match column_at(t, c).alignment {
                    Alignment::Left => 0,
                    Alignment::Right => cw - w,
                    Alignment::Center => (cw - w) / 2,
                },
            )
            &&& c + 1 < row.len() ==> flat_width(cell) == Some(cw + column_at(t, c).min_padding)
        }),
{
    let rows = logical_rows(t);
    let row = rows[i];
    let w = row[c].1 as int;
    let cw = column_width(rows, c) as int;
    let col = column_at(t, c);
    lemma_column_width_bounds(rows, i, c);
    if shows_header(t) && i == 0 {
        match col.header {
            Some(d) => {},
            None => {},
        }
        assert(row == header_row(t));
        assert(row[c] == (match column_at(t, c).header {
            Some(d) => flat_cell(d),
            None => (DocModel::Empty, 0u32),
        }));
        match column_at(t, c).header {
            Some(d) => lemma_flat_cell_width(d),
            None => {
                assert(flat_width(DocModel::Empty) == Some(0int));
            },
        }
    } else {
        let r = if shows_header(t) { i - 1 } else { i };
        assert(row == measured_row(t.rows[r]));
        assert(row[c] == flat_cell(t.rows[r][c]));
        lemma_flat_cell_width(t.rows[r][c]);
    }
    assert(flat_width(row[c].0) == Some(w));
    let (before, after) = padding(col.alignment, cw as u32, w as u32);
    let trailing = if c + 1 < row.len() {
        after + col.min_padding
    } else {
        0
    };
    if c + 1 < row.len() {
        // the row is no longer than the table has columns
        if shows_header(t) && i == 0 {
            lemma_header_len_within(t.columns, t.columns.len() as int);
            lemma_longest_row_floor(t.rows, t.columns.len());
        } else {
            let r = if shows_header(t) { i - 1 } else { i };
            lemma_longest_row_bounds(t.rows, t.columns.len(), r);
        }
        assert(c < column_count(t) - 1);
        assert(cw + col.min_padding <= u32::MAX);
    }
    lemma_spaces_width(before as u32);
    lemma_spaces_width(trailing as u32);
    let parts = seq![spaces_doc(before as u32), row[c].0, spaces_doc(trailing as u32)];
    let two = seq![spaces_doc(before as u32), row[c].0];
    assert(parts.drop_last() =~= two);
    assert(two.drop_last() =~= seq![spaces_doc(before as u32)]);
    assert(spec_concat(seq![spaces_doc(before as u32)]) == spaces_doc(before as u32));
    assert(spec_concat(two) == DocModel::Concat(Box::new(spaces_doc(before as u32)), Box::new(row[c].0)));
    assert(spec_concat(parts) == DocModel::Concat(
        Box::new(DocModel::Concat(Box::new(spaces_doc(before as u32)), Box::new(row[c].0))),
        Box::new(spaces_doc(trailing as u32)),
    ));
    let cell = compact_cell(t, rows, row, c);
    assert(cell == spec_concat(parts));
    assert(content_part(cell) == row[c].0);
    assert(flat_width(leading_part(cell)) == Some(before));
    assert(flat_width(leading_part(cell)) == Some(
        match column_at(t, c).alignment {
            Alignment::Left => 0,
            Alignment::Right => cw - w,
            Alignment::Center => (cw - w) / 2,
        },
    ));
    if c + 1 < row.len() {
        assert(0 <= before && 0 <= after && before + after == cw - w);
        assert(trailing <= u32::MAX);
        assert(before as u32 as int == before && trailing as u32 as int == trailing);
        assert(flat_width(DocModel::Concat(Box::new(spaces_doc(before as u32)), Box::new(row[c].0))) == Some(
            before + w,
        ));
        assert(flat_width(cell) == Some(before + w + trailing));
        assert(flat_width(cell) == Some(cw + column_at(t, c).min_padding));
    }
}

/// Every padding stays inside `u32`: the widest cell of each column but the
/// last, which is never padded, plus the column's minimum padding is
/// representable.
pub open spec fn padding_fits(t: TableModel) -> bool {
    forall|c: int|
        0 <= c < column_count(t) - 1 ==> #[trigger] column_width(logical_rows(t), c) + column_at(t, c).min_padding
            <= u32::MAX
}

impl Table {
    /// Create a table from column specifications.
    pub fn new(columns: Vec<Column>) -> (r: Self)
        ensures
            r@.columns == columns@.map_values(|c: Column| c@),
            r@.rows == Seq::<Seq<DocModel>>::empty(),
            !r@.show_header,
    {
        let r = Table { columns, rows: Vec::new(), show_header: false };
        assert(r@.rows =~= Seq::<Seq<DocModel>>::empty());
        r
    }

    /// Include configured column headers in the output.
    pub fn header(self) -> (r: Self)
        ensures
            r@ == (TableModel { show_header: true, ..self@ }),
    {
        Table { show_header: true, ..self }
    }

    /// Append a body row and return the builder.
    pub fn row(self, cells: Vec<Rc<Doc>>) -> (r: Self)
        ensures
            r@ == (TableModel { rows: self@.rows.push(models(cells@)), ..self@ }),
    {
        let mut t = self;
        t.push_row(cells);
        t
    }

    /// Append a body row in place.
    pub fn push_row(&mut self, cells: Vec<Rc<Doc>>)
        ensures
            final(self)@ == (TableModel { rows: old(self)@.rows.push(models(cells@)), ..old(self)@ }),
    {
        let ghost cells_model = models(cells@);
        self.rows.push(cells);
        assert(self@.rows =~= old(self)@.rows.push(cells_model));
    }

    /// Compile the table into ordinary document nodes.
    pub fn build(&self) -> (r: Result<Rc<Doc>, TableError>)
        requires
            padding_fits(self@),
        ensures
            match spec_build(self@) {
                Ok(d) => r matches Ok(doc) && doc@ == d,
                Err(e) => r == Err::<Rc<Doc>, TableError>(e),
            },
    {
        build_table(self)
    }
}

/// Create a table builder from column specifications.
pub fn table(columns: Vec<Column>) -> (r: Table)
    ensures
        r@.columns == columns@.map_values(|c: Column| c@),
        r@.rows == Seq::<Seq<DocModel>>::empty(),
        !r@.show_header,
{
    Table::new(columns)
}


/// Whether `d` contains a layout choice.
fn contains_choice(d: &Doc) -> (r: bool)
    ensures
        r == !choice_free(d@),
    decreases *d,
{
    match d {
        Doc::Empty | Doc::Text(_) | Doc::Line { .. } => false,
        Doc::Concat(a, b) => contains_choice(a) || contains_choice(b),
        Doc::Nest(_, x) => contains_choice(x),
        Doc::Align(x) => contains_choice(x),
        Doc::Tag(_, x) => contains_choice(x),
        Doc::Penalty { doc: x, .. } => contains_choice(x),
        Doc::Choice(..) => true,
    }
}

/// The representable width of the flat projection `d`.
fn flat_width_of(d: &Doc) -> (r: Option<u32>)
    ensures
        r == (match flat_width(d@) {
            Some(w) => if w <= u32::MAX {
                Some(w as u32)
            } else {
                None
            },
            None => None,
        }),
    decreases *d,
{
    proof {
        lemma_flat_width_nonneg(d@);
    }
    match d {
        Doc::Empty => Some(0),
        Doc::Text(run) => Some(run.columns()),
        Doc::Line { flat: Some(run) } => Some(run.columns()),
        Doc::Line { flat: None } => None,
        Doc::Concat(a, b) => {
            proof {
                lemma_flat_width_nonneg(a@);
                lemma_flat_width_nonneg(b@);
            }
            let wa = flat_width_of(a);
            let wb = flat_width_of(b);
            match (wa, wb) {
                (Some(x), Some(y)) => x.checked_add(y),
                _ => None,
            }
        },
        Doc::Nest(_, x) => flat_width_of(x),
        Doc::Align(x) => flat_width_of(x),
        Doc::Tag(_, x) => flat_width_of(x),
        Doc::Penalty { doc: x, .. } => flat_width_of(x),
        Doc::Choice(p, _) => flat_width_of(p),
    }
}

/// Flat widths are never negative.
proof fn lemma_flat_width_nonneg(d: DocModel)
    ensures
        flat_width(d) matches Some(w) ==> w >= 0,
    decreases d,
{
    match d {
        DocModel::Concat(a, b) => {
            lemma_flat_width_nonneg(*a);
            lemma_flat_width_nonneg(*b);
        },
        DocModel::Nest(_, x) | DocModel::Align(x) | DocModel::Tag(_, x) | DocModel::Penalty(_, x) => lemma_flat_width_nonneg(*x),
        DocModel::Choice(p, _) => lemma_flat_width_nonneg(*p),
        _ => {},
    }
}

/// Measures a cell: its flat projection and width, or whether it failed
/// for a layout choice (`true`) or for having no flat projection
/// (`false`).
fn measure_cell(d: &Rc<Doc>) -> (r: Result<(Rc<Doc>, u32), bool>)
    ensures
        match cell_check(d@) {
            CellCheck::ChoiceBearing => r == Err::<(Rc<Doc>, u32), bool>(true),
            CellCheck::NoFlat => r == Err::<(Rc<Doc>, u32), bool>(false),
            CellCheck::Flat(f, w) => r matches Ok((doc, width)) && doc@ == f && width == w,
        },
{
    if contains_choice(d) {
        return Err(true);
    }
    match flatten(d) {
        None => Err(false),
        Some(f) => match flat_width_of(&f) {
            Some(w) => Ok((f, w)),
            None => Err(false),
        },
    }
}

/// `n` columns of tagged spaces, or nothing.
fn spaces_exec(n: u32) -> (r: Rc<Doc>)
    ensures
        r@ == spaces_doc(n),
{
    if n == 0 {
        empty()
    } else {
        let mut s = String::new();
        push_spaces(&mut s, n);
        assert(s@ =~= spaces(n as nat));
        assert(crate::doc::is_printable_ascii(s@));
        let run = TextRun::trusted_ascii(s.as_str());
        crate::doc::tag(tags::WHITESPACE, Rc::new(Doc::Text(run)))
    }
}

/// The models of measured cells.
pub open spec fn cells_model(v: Seq<(Rc<Doc>, u32)>) -> Seq<(DocModel, u32)> {
    Seq::new(v.len(), |c: int| (v[c].0@, v[c].1))
}

/// The models of measured rows.
pub open spec fn rows_model(v: Seq<Vec<(Rc<Doc>, u32)>>) -> Seq<Seq<(DocModel, u32)>> {
    Seq::new(v.len(), |i: int| cells_model(v[i]@))
}

proof fn lemma_cells_model_push(v: Seq<(Rc<Doc>, u32)>, x: (Rc<Doc>, u32))
    ensures
        cells_model(v.push(x)) == cells_model(v).push((x.0@, x.1)),
{
    assert(cells_model(v.push(x)) =~= cells_model(v).push((x.0@, x.1)));
}

proof fn lemma_rows_model_push(v: Seq<Vec<(Rc<Doc>, u32)>>, x: Vec<(Rc<Doc>, u32)>)
    ensures
        rows_model(v.push(x)) == rows_model(v).push(cells_model(x@)),
{
    assert(rows_model(v.push(x)) =~= rows_model(v).push(cells_model(x@)));
}

proof fn lemma_models_push(v: Seq<Rc<Doc>>, x: Rc<Doc>)
    ensures
        models(v.push(x)) == models(v).push(x@),
{
    assert(models(v.push(x)) =~= models(v).push(x@));
}

/// Every cell is at most its column's width.
proof fn lemma_column_width_bounds(rows: Seq<Seq<(DocModel, u32)>>, i: int, c: int)
    requires
        0 <= i < rows.len(),
        0 <= c < rows[i].len(),
    ensures
        rows[i][c].1 <= column_width(rows, c),
    decreases rows.len(),
{
    if i < rows.len() - 1 {
        lemma_column_width_bounds(rows.drop_last(), i, c);
        assert(rows.drop_last()[i] == rows[i]);
    }
}

/// No row is longer than the longest.
proof fn lemma_longest_row_bounds(rows: Seq<Seq<DocModel>>, at_least: nat, i: int)
    requires
        0 <= i < rows.len(),
    ensures
        rows[i].len() <= longest_row(rows, at_least),
        at_least <= longest_row(rows, at_least),
    decreases rows.len(),
{
    lemma_longest_row_floor(rows.drop_last(), at_least);
    if i < rows.len() - 1 {
        lemma_longest_row_bounds(rows.drop_last(), at_least, i);
        assert(rows.drop_last()[i] == rows[i]);
    }
}

/// The longest row is at least the configured column count.
proof fn lemma_longest_row_floor(rows: Seq<Seq<DocModel>>, at_least: nat)
    ensures
        at_least <= longest_row(rows, at_least),
    decreases rows.len(),
{
    if rows.len() > 0 {
        lemma_longest_row_floor(rows.drop_last(), at_least);
    }
}

/// One past the last header within the first `n` columns is at most `n`.
proof fn lemma_header_len_within(columns: Seq<ColumnModel>, n: int)
    requires
        0 <= n <= columns.len(),
    ensures
        header_len_within(columns, n) <= n,
        forall|c: int| header_len_within(columns, n) <= c < n ==> !(#[trigger] columns[c].header is Some),
    decreases n,
{
    if n > 0 {
        lemma_header_len_within(columns, n - 1);
    }
}

/// The number of columns of `t`.
fn count_columns(t: &Table) -> (r: usize)
    ensures
        r == column_count(t@),
{
    let ghost rows = t@.rows;
    let mut count = t.columns.len();
    let mut i: usize = 0;
    while i < t.rows.len()
        invariant
            rows == t@.rows,
            i <= t.rows@.len(),
            count == longest_row(rows.take(i as int), t@.columns.len()),
        decreases t.rows@.len() - i,
    {
        assert(rows.take(i as int + 1).drop_last() == rows.take(i as int));
        assert(rows[i as int] == models(t.rows@[i as int]@));
        if t.rows[i].len() > count {
            count = t.rows[i].len();
        }
        i = i + 1;
    }
    assert(rows.take(t.rows@.len() as int) == rows);
    count
}

/// One past the last configured header.
fn count_headers(t: &Table) -> (r: usize)
    ensures
        r == header_len(t@),
{
    let ghost cols = t@.columns;
    let mut n: usize = 0;
    let mut i: usize = 0;
    while i < t.columns.len()
        invariant
            cols == t@.columns,
            i <= t.columns@.len(),
            n == header_len_within(cols, i as int),
        decreases t.columns@.len() - i,
    {
        assert(cols[i as int] == t.columns@[i as int]@);
        if t.columns[i].header.is_some() {
            n = i + 1;
        }
        i = i + 1;
    }
    n
}

/// The measured header row, or the first header error.
fn measure_header(t: &Table, header_count: usize) -> (r: Result<Vec<(Rc<Doc>, u32)>, TableError>)
    requires
        header_count == header_len(t@),
    ensures
        match header_error_from(t@, 0) {
            Some(e) => r == Err::<Vec<(Rc<Doc>, u32)>, TableError>(e),
            None => r matches Ok(cells) && cells_model(cells@) == header_row(t@),
        },
{
    let ghost tm = t@;
    proof {
        lemma_header_len_within(tm.columns, tm.columns.len() as int);
    }
    let mut cells: Vec<(Rc<Doc>, u32)> = Vec::new();
    let mut c: usize = 0;
    while c < header_count
        invariant
            tm == t@,
            header_count == header_len(tm),
            header_count <= tm.columns.len(),
            tm.columns.len() == t.columns@.len(),
            c <= header_count,
            header_error_from(tm, 0) == header_error_from(tm, c as int),
            cells_model(cells@) == header_row(tm).take(c as int),
        decreases header_count - c,
    {
        assert(tm.columns[c as int] == t.columns@[c as int]@);
        assert(column_at(tm, c as int) == t.columns@[c as int]@);
        let ghost before = cells@;
        match &t.columns[c].header {
            None => {
                cells.push((empty(), 0));
            },
            Some(d) => match measure_cell(d) {
                Err(true) => {
                    return Err(TableError::ChoiceBearingHeader { column: c });
                },
                Err(false) => {
                    return Err(TableError::NonFlattenableHeader { column: c });
                },
                Ok(cell) => {
                    cells.push(cell);
                },
            },
        }
        proof {
            lemma_cells_model_push(before, cells@.last());
            assert(cells@ == before.push(cells@.last()));
            assert(header_row(tm).take(c as int + 1) =~= header_row(tm).take(c as int).push(header_row(tm)[c as int]));
        }
        c = c + 1;
    }
    assert(header_row(tm).take(header_count as int) =~= header_row(tm));
    Ok(cells)
}

/// The measured body row `r`, or its first error.
fn measure_row(cells: &Vec<Rc<Doc>>, r: usize) -> (res: Result<Vec<(Rc<Doc>, u32)>, TableError>)
    ensures
        match cell_error_from(models(cells@), r as int, 0) {
            Some(e) => res == Err::<Vec<(Rc<Doc>, u32)>, TableError>(e),
            None => res matches Ok(v) && cells_model(v@) == measured_row(models(cells@)),
        },
{
    let ghost ms = models(cells@);
    let mut out: Vec<(Rc<Doc>, u32)> = Vec::new();
    let mut c: usize = 0;
    while c < cells.len()
        invariant
            ms == models(cells@),
            c <= cells@.len(),
            cell_error_from(ms, r as int, 0) == cell_error_from(ms, r as int, c as int),
            cells_model(out@) == measured_row(ms).take(c as int),
        decreases cells@.len() - c,
    {
        assert(ms[c as int] == cells@[c as int]@);
        let ghost before = out@;
        match measure_cell(&cells[c]) {
            Err(true) => {
                return Err(TableError::ChoiceBearingCell { row: r, column: c });
            },
            Err(false) => {
                return Err(TableError::NonFlattenableCell { row: r, column: c });
            },
            Ok(cell) => {
                out.push(cell);
            },
        }
        proof {
            lemma_cells_model_push(before, out@.last());
            assert(out@ == before.push(out@.last()));
            assert(measured_row(ms).take(c as int + 1) =~= measured_row(ms).take(c as int).push(measured_row(ms)[c as int]));
        }
        c = c + 1;
    }
    assert(measured_row(ms).take(cells@.len() as int) =~= measured_row(ms));
    Ok(out)
}

/// The measured logical rows, or the table's first error.
fn measure_rows(t: &Table, show: bool, header_count: usize) -> (r: Result<Vec<Vec<(Rc<Doc>, u32)>>, TableError>)
    requires
        header_count == header_len(t@),
        show == shows_header(t@),
    ensures
        match table_error(t@) {
            Some(e) => r == Err::<Vec<Vec<(Rc<Doc>, u32)>>, TableError>(e),
            None => r matches Ok(rows) && rows_model(rows@) == logical_rows(t@),
        },
{
    let ghost tm = t@;
    let mut rows: Vec<Vec<(Rc<Doc>, u32)>> = Vec::new();
    if show {
        let header = measure_header(t, header_count)?;
        rows.push(header);
        proof {
            lemma_rows_model_push(seq![], rows@.last());
            assert(rows@ == Seq::<Vec<(Rc<Doc>, u32)>>::empty().push(rows@.last()));
        }
    }
    let ghost start = rows@.len();
    let ghost head: Seq<Seq<(DocModel, u32)>> = if show { seq![header_row(tm)] } else { seq![] };
    let ghost body = Seq::new(tm.rows.len(), |i: int| measured_row(tm.rows[i]));
    assert(rows_model(rows@) =~= head);
    let mut i: usize = 0;
    while i < t.rows.len()
        invariant
            tm == t@,
            i <= t.rows@.len(),
            tm.rows.len() == t.rows@.len(),
            table_error(tm) == row_error_from(tm.rows, i as int),
            rows_model(rows@) == head + body.take(i as int),
            body == Seq::new(tm.rows.len(), |i: int| measured_row(tm.rows[i])),
        decreases t.rows@.len() - i,
    {
        assert(tm.rows[i as int] == models(t.rows@[i as int]@));
        let ghost before = rows@;
        let row = measure_row(&t.rows[i], i)?;
        rows.push(row);
        proof {
            lemma_rows_model_push(before, rows@.last());
            assert(rows@ == before.push(rows@.last()));
            assert(head + body.take(i as int + 1) =~= (head + body.take(i as int)).push(body[i as int]));
        }
        i = i + 1;
    }
    assert(body.take(t.rows@.len() as int) =~= body);
    assert(logical_rows(tm) =~= head + body);
    Ok(rows)
}

/// The widths of the `count` columns.
fn column_widths(rows: &Vec<Vec<(Rc<Doc>, u32)>>, count: usize) -> (r: Vec<u32>)
    requires
        forall|i: int| 0 <= i < rows@.len() ==> (#[trigger] rows@[i])@.len() <= count,
    ensures
        r@.len() == count,
        forall|c: int| 0 <= c < count ==> r@[c] == column_width(rows_model(rows@), c),
{
    let ghost lr = rows_model(rows@);
    let mut widths: Vec<u32> = Vec::new();
    let mut c: usize = 0;
    while c < count
        invariant
            c <= count,
            widths@.len() == c,
            forall|j: int| 0 <= j < c ==> widths@[j] == 0,
        decreases count - c,
    {
        widths.push(0);
        c = c + 1;
    }
    let mut i: usize = 0;
    while i < rows.len()
        invariant
            lr == rows_model(rows@),
            i <= rows@.len(),
            widths@.len() == count,
            forall|j: int| 0 <= j < rows@.len() ==> (#[trigger] rows@[j])@.len() <= count,
            forall|c: int| 0 <= c < count ==> widths@[c] == column_width(lr.take(i as int), c),
        decreases rows@.len() - i,
    {
        let row = &rows[i];
        let ghost prefix = lr.take(i as int + 1);
        assert(prefix.drop_last() == lr.take(i as int));
        assert(prefix.last() == lr[i as int]);
        assert(lr[i as int] == cells_model(row@));
        let mut c: usize = 0;
        while c < row.len()
            invariant
                c <= row@.len(),
                row@.len() <= count,
                widths@.len() == count,
                prefix.len() >= 1,
                prefix.drop_last() == lr.take(i as int),
                prefix.last() == cells_model(row@),
                forall|j: int| 0 <= j < c ==> widths@[j] == column_width(prefix, j),
                forall|j: int| c <= j < count ==> widths@[j] == column_width(lr.take(i as int), j),
            decreases row@.len() - c,
        {
            proof {
                assert(prefix.last()[c as int] == (row@[c as int].0@, row@[c as int].1));
            }
            if row[c].1 > widths[c] {
                widths.set(c, row[c].1);
            }
            c = c + 1;
        }
        i = i + 1;
    }
    assert(lr.take(rows@.len() as int) =~= lr);
    widths
}


/// The alignment and minimum padding of column `c`.
fn column_config(t: &Table, c: usize) -> (r: (Alignment, u16))
    ensures
        r.0 == column_at(t@, c as int).alignment,
        r.1 == column_at(t@, c as int).min_padding,
{
    if c < t.columns.len() {
        assert(t@.columns[c as int] == t.columns@[c as int]@);
        (t.columns[c].alignment, t.columns[c].min_padding)
    } else {
        (Alignment::Left, 2)
    }
}

/// A logical row padded to the column widths.
fn compact_row_exec(
    t: &Table,
    widths: &Vec<u32>,
    row: &Vec<(Rc<Doc>, u32)>,
    Ghost(lr): Ghost<Seq<Seq<(DocModel, u32)>>>,
) -> (r: Rc<Doc>)
    requires
        lr == logical_rows(t@),
        padding_fits(t@),
        row@.len() <= widths@.len(),
        widths@.len() == column_count(t@),
        forall|c: int| 0 <= c < widths@.len() ==> widths@[c] == column_width(lr, c),
        forall|c: int| 0 <= c < row@.len() ==> (#[trigger] row@[c]).1 <= widths@[c],
    ensures
        r@ == compact_row(t@, lr, cells_model(row@)),
{
    let ghost cm = cells_model(row@);
    let ghost target = Seq::new(cm.len(), |c: int| compact_cell(t@, lr, cm, c));
    let mut docs: Vec<Rc<Doc>> = Vec::new();
    let mut c: usize = 0;
    while c < row.len()
        invariant
            cm == cells_model(row@),
            target == Seq::new(cm.len(), |c: int| compact_cell(t@, lr, cm, c)),
            lr == logical_rows(t@),
            padding_fits(t@),
            row@.len() <= widths@.len(),
            widths@.len() == column_count(t@),
            forall|c: int| 0 <= c < widths@.len() ==> widths@[c] == column_width(lr, c),
            forall|c: int| 0 <= c < row@.len() ==> (#[trigger] row@[c]).1 <= widths@[c],
            c <= row@.len(),
            models(docs@) == target.take(c as int),
        decreases row@.len() - c,
    {
        let (alignment, min_padding) = column_config(t, c);
        let width = row[c].1;
        let slack = widths[c] - width;
        let (before, after) = match alignment {
            Alignment::Left => (0, slack),
            Alignment::Right => (slack, 0),
            Alignment::Center => (slack / 2, slack - slack / 2),
        };
        let trailing = if c + 1 < row.len() {
            assert(column_width(lr, c as int) + column_at(t@, c as int).min_padding <= u32::MAX);
            after + min_padding as u32
        } else {
            0
        };
        let pre = spaces_exec(before);
        let body = crate::share(&row[c].0);
        let post = spaces_exec(trailing);
        let parts = vec![pre, body, post];
        proof {
            assert(models(parts@) =~= seq![spaces_doc(before), row@[c as int].0@, spaces_doc(trailing)]);
            assert(cm[c as int] == (row@[c as int].0@, row@[c as int].1));
            assert(column_at(t@, c as int).alignment == alignment);
            let (b, a) = padding(alignment, column_width(lr, c as int), cm[c as int].1);
            assert(b == before && a == after);
            assert(target[c as int] == compact_cell(t@, lr, cm, c as int));
        }
        let cell = crate::doc::concat(parts);
        assert(cell@ == target[c as int]);
        let ghost before_docs = docs@;
        docs.push(cell);
        proof {
            lemma_models_push(before_docs, docs@.last());
            assert(docs@ == before_docs.push(docs@.last()));
            assert(target.take(c as int + 1) =~= target.take(c as int).push(target[c as int]));
        }
        c = c + 1;
    }
    assert(target.take(row@.len() as int) =~= target);
    crate::doc::concat(docs)
}

/// A logical row stacked one cell per line.
fn stacked_row_exec(row: &Vec<(Rc<Doc>, u32)>) -> (r: Rc<Doc>)
    ensures
        r@ == stacked_row(cells_model(row@)),
{
    let ghost cm = cells_model(row@);
    let mut docs: Vec<Rc<Doc>> = Vec::new();
    let mut c: usize = 0;
    while c < row.len()
        invariant
            cm == cells_model(row@),
            c <= row@.len(),
            models(docs@) == Seq::new(cm.len(), |c: int| cm[c].0).take(c as int),
        decreases row@.len() - c,
    {
        let ghost before_docs = docs@;
        docs.push(crate::share(&row[c].0));
        proof {
            lemma_models_push(before_docs, docs@.last());
            assert(docs@ == before_docs.push(docs@.last()));
            let whole = Seq::new(cm.len(), |c: int| cm[c].0);
            assert(whole.take(c as int + 1) =~= whole.take(c as int).push(whole[c as int]));
        }
        c = c + 1;
    }
    assert(Seq::new(cm.len(), |c: int| cm[c].0).take(row@.len() as int) =~= Seq::new(cm.len(), |c: int| cm[c].0));
    join(hardline(), docs)
}

/// Compiles a table.
fn build_table(t: &Table) -> (r: Result<Rc<Doc>, TableError>)
    requires
        padding_fits(t@),
    ensures
        match spec_build(t@) {
            Ok(d) => r matches Ok(doc) && doc@ == d,
            Err(e) => r == Err::<Rc<Doc>, TableError>(e),
        },
{
    let ghost tm = t@;
    let count = count_columns(t);
    if count == 0 {
        return Ok(empty());
    }
    let header_count = count_headers(t);
    let show = t.show_header && header_count > 0;
    let rows = measure_rows(t, show, header_count)?;
    if !show && t.rows.len() == 0 {
        return Ok(empty());
    }
    let ghost lr = rows_model(rows@);
    proof {
        lemma_header_len_within(tm.columns, tm.columns.len() as int);
        lemma_longest_row_floor(tm.rows, tm.columns.len());
        assert forall|i: int| 0 <= i < rows@.len() implies (#[trigger] rows@[i])@.len() <= count by {
            assert(lr[i] == cells_model(rows@[i]@));
            let head_len: int = if show { 1 } else { 0 };
            if i < head_len {
                assert(lr[i] == header_row(tm));
            } else {
                lemma_longest_row_bounds(tm.rows, tm.columns.len(), i - head_len);
                assert(lr[i] == measured_row(tm.rows[i - head_len]));
            }
        }
    }
    let widths = column_widths(&rows, count);
    let mut compact_docs: Vec<Rc<Doc>> = Vec::new();
    let mut stacked_docs: Vec<Rc<Doc>> = Vec::new();
    let mut horizontal = false;
    let mut i: usize = 0;
    while i < rows.len()
        invariant
            tm == t@,
            lr == rows_model(rows@),
            lr == logical_rows(tm),
            padding_fits(tm),
            count == column_count(tm),
            widths@.len() == count,
            forall|c: int| 0 <= c < count ==> widths@[c] == column_width(lr, c),
            forall|j: int| 0 <= j < rows@.len() ==> (#[trigger] rows@[j])@.len() <= count,
            i <= rows@.len(),
            models(compact_docs@) == compact_rows(tm, lr).take(i as int),
            models(stacked_docs@) == stacked_rows(lr).take(i as int),
            horizontal == exists|j: int| 0 <= j < i && (#[trigger] lr[j]).len() > 1,
        decreases rows@.len() - i,
    {
        let row = &rows[i];
        proof {
            assert(lr[i as int] == cells_model(row@));
            assert forall|c: int| 0 <= c < row@.len() implies (#[trigger] row@[c]).1 <= widths@[c] by {
                lemma_column_width_bounds(lr, i as int, c);
            }
        }
        let compact = compact_row_exec(t, &widths, row, Ghost(lr));
        let stacked = stacked_row_exec(row);
        let ghost before_compact = compact_docs@;
        let ghost before_stacked = stacked_docs@;
        compact_docs.push(compact);
        stacked_docs.push(stacked);
        if row.len() > 1 {
            horizontal = true;
        }
        proof {
            lemma_models_push(before_compact, compact_docs@.last());
            assert(compact_docs@ == before_compact.push(compact_docs@.last()));
            assert(compact_rows(tm, lr).take(i as int + 1) =~= compact_rows(tm, lr).take(i as int).push(compact_rows(tm, lr)[i as int]));
            lemma_models_push(before_stacked, stacked_docs@.last());
            assert(stacked_docs@ == before_stacked.push(stacked_docs@.last()));
            assert(stacked_rows(lr).take(i as int + 1) =~= stacked_rows(lr).take(i as int).push(stacked_rows(lr)[i as int]));
        }
        i = i + 1;
    }
    assert(compact_rows(tm, lr).take(rows@.len() as int) =~= compact_rows(tm, lr));
    assert(stacked_rows(lr).take(rows@.len() as int) =~= stacked_rows(lr));
    let compact = join(hardline(), compact_docs);
    let fallback = join(hardline(), stacked_docs);
    let compiled = if horizontal {
        choice(compact, fallback)
    } else {
        compact
    };
    Ok(align(compiled))
}

} // verus!
