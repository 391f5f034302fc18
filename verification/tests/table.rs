use laidout::brute;
use laidout::cost::OverflowThenHeight;
use laidout::doc::{choice, count_choices, empty, hardline, tag, text, try_text_with, Doc, WidthMode};
use laidout::frontier;
use laidout::research::{materialize, to_string, AnnotationSpan};
use laidout::table::{table, Alignment, Column, Table, TableError, TableErrorKind};
use std::rc::Rc;

fn aligned_table() -> Rc<Doc> {
    table(vec![
        Column::labeled(text("NAME")),
        Column::labeled(text("COUNT"))
            .alignment(Alignment::Right)
            .min_padding(1),
        Column::labeled(text("STATE")).alignment(Alignment::Center),
    ])
    .header()
    .row(vec![text("alpha"), text("7"), text("on")])
    .row(vec![text("β"), text("123")])
    .build()
    .unwrap()
}

#[test]
fn compact_layout_aligns_headers_ragged_rows_and_all_alignment_modes() {
    let doc = aligned_table();
    let best = frontier::best(&OverflowThenHeight { width: 80 }, &doc).unwrap();
    assert_eq!(
        to_string(&best.out),
        "NAME   COUNT STATE\nalpha      7  on\nβ        123"
    );
}

#[test]
fn the_same_table_uses_its_stacked_fallback_when_compact_overflows() {
    let doc = aligned_table();
    let best = frontier::best(&OverflowThenHeight { width: 5 }, &doc).unwrap();
    assert_eq!(
        to_string(&best.out),
        "NAME\nCOUNT\nSTATE\nalpha\n7\non\nβ\n123"
    );
    assert_eq!(best.cost.overflow, 0);
}

#[test]
fn missing_column_specs_use_two_space_left_aligned_defaults() {
    let doc = Table::new(vec![Column::new()])
        .row(vec![text("a"), text("bbb")])
        .row(vec![text("long"), text("c")])
        .build()
        .unwrap();
    let best = frontier::best(&OverflowThenHeight { width: 80 }, &doc).unwrap();
    assert_eq!(to_string(&best.out), "a     bbb\nlong  c");
}

#[test]
fn unicode_terminal_width_aligns_wide_and_combining_text() {
    let doc = table(vec![
        Column::labeled(text("界")),
        Column::labeled(text("e\u{301}")),
        Column::labeled(text("H")),
    ])
    .header()
    .row(vec![text("x"), text("y"), text("z")])
    .build()
    .unwrap();
    let best = frontier::best(&OverflowThenHeight { width: 80 }, &doc).unwrap();
    assert_eq!(to_string(&best.out), "界  e\u{301}  H\nx   y  z");
}

#[test]
fn nested_table_rows_align_to_the_table_starting_column() {
    let table = table(vec![Column::new(), Column::new()])
        .row(vec![text("a"), text("b")])
        .row(vec![text("c"), text("d")])
        .build()
        .unwrap();
    let doc = laidout::doc::concat(vec![text("prefix "), table]);
    let best = frontier::best(&OverflowThenHeight { width: 80 }, &doc).unwrap();
    assert_eq!(to_string(&best.out), "prefix a  b\n       c  d");
}

#[test]
fn tags_survive_compact_padding_and_fallback_layouts() {
    let doc = table(vec![Column::new(), Column::new()])
        .row(vec![tag(100, text("a")), tag(101, text("b"))])
        .build()
        .unwrap();

    let best = frontier::best(&OverflowThenHeight { width: 80 }, &doc).unwrap();
    let compact = materialize(best.cost, &best.out).unwrap();
    assert_eq!(
        compact.spans,
        vec![
            AnnotationSpan {
                tag: 100,
                start: 0,
                end: 1,
                parent: None,
            },
            AnnotationSpan {
                tag: laidout::tags::WHITESPACE,
                start: 1,
                end: 3,
                parent: None,
            },
            AnnotationSpan {
                tag: 101,
                start: 3,
                end: 4,
                parent: None,
            },
        ]
    );

    let best = frontier::best(&OverflowThenHeight { width: 1 }, &doc).unwrap();
    let fallback = materialize(best.cost, &best.out).unwrap();
    assert_eq!(
        fallback.spans,
        vec![
            AnnotationSpan {
                tag: 100,
                start: 0,
                end: 1,
                parent: None,
            },
            AnnotationSpan {
                tag: 101,
                start: 2,
                end: 3,
                parent: None,
            },
        ]
    );
}

#[test]
fn tables_align_from_each_runs_stored_width_without_global_remeasurement() {
    let cjk = try_text_with("·", WidthMode::Cjk).unwrap();
    let narrow = try_text_with("·", WidthMode::Narrow).unwrap();
    let doc = table(vec![Column::new(), Column::new()])
        .row(vec![cjk, text("x")])
        .row(vec![narrow, text("y")])
        .build()
        .unwrap();

    let best = frontier::best(&OverflowThenHeight { width: 80 }, &doc).unwrap();
    assert_eq!(to_string(&best.out), "·  x\n·   y");
}

#[test]
fn bounded_table_matches_brute_force_and_is_deterministic() {
    let doc = aligned_table();
    assert_eq!(count_choices(&doc), 1);
    for width in [5, 12, 80] {
        let cm = OverflowThenHeight { width };
        let oracle = brute::best(&cm, &doc, 1).unwrap();
        let first = frontier::best(&cm, &doc).unwrap();
        let second = frontier::best(&cm, &doc).unwrap();
        assert_eq!(first.cost, oracle.cost, "width {width}");
        assert_eq!(to_string(&first.out), to_string(&second.out));
    }
}

#[test]
fn zero_row_and_header_only_tables_have_defined_output() {
    assert_eq!(
        Table::new(vec![Column::new()]).build().unwrap(),
        empty()
    );

    let header_only = table(vec![Column::labeled(text("A")), Column::labeled(text("B"))])
        .header()
        .build()
        .unwrap();
    let best = frontier::best(&OverflowThenHeight { width: 80 }, &header_only).unwrap();
    assert_eq!(to_string(&best.out), "A  B");
}

#[test]
fn non_flattenable_headers_and_cells_report_their_coordinates() {
    let header_error = table(vec![Column::labeled(hardline())]).header().build();
    assert_eq!(
        header_error,
        Err(TableError::NonFlattenableHeader { column: 0 })
    );

    let cell_error = table(vec![Column::new(), Column::new()])
        .row(vec![text("ok"), hardline()])
        .build();
    assert_eq!(
        cell_error,
        Err(TableError::NonFlattenableCell { row: 0, column: 1 })
    );
}

#[test]
fn choice_bearing_headers_and_cells_are_rejected_without_losing_alternatives() {
    let header_error = table(vec![Column::labeled(choice(text("wide"), text("narrow")))])
        .header()
        .build();
    assert_eq!(
        header_error,
        Err(TableError::ChoiceBearingHeader { column: 0 })
    );

    let cell_error = table(vec![Column::new(), Column::new()])
        .row(vec![
            text("ok"),
            tag(7, laidout::doc::concat(vec![text("nested"), choice(text("a"), text("b"))])),
        ])
        .build();
    assert_eq!(
        cell_error,
        Err(TableError::ChoiceBearingCell { row: 0, column: 1 })
    );

    let choice_free_projection = table(vec![Column::new()])
        .row(vec![laidout::doc::concat(vec![text("a"), laidout::doc::line(), text("b")])])
        .build()
        .unwrap();
    let best = frontier::best(&OverflowThenHeight { width: 80 }, &choice_free_projection).unwrap();
    assert_eq!(to_string(&best.out), "a b");
}

#[test]
fn table_error_kinds_name_their_variants() {
    assert_eq!(TableError::NonFlattenableHeader { column: 0 }.kind(), TableErrorKind::NonFlattenableHeader);
    assert_eq!(TableError::ChoiceBearingCell { row: 1, column: 2 }.kind(), TableErrorKind::ChoiceBearingCell);
}

#[test]
fn pushed_rows_equal_chained_rows() {
    let mut pushed = Table::new(vec![Column::new(), Column::new()]);
    pushed.push_row(vec![text("a"), text("b")]);
    let chained = Table::new(vec![Column::new(), Column::new()]).row(vec![text("a"), text("b")]);
    assert_eq!(pushed.build(), chained.build());
}
