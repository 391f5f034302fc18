use laidout::doc::{
    columns_from_width, concat2, count_choices, empty, flatten, group, hardline, join, softline, text, try_text, try_text_with, TextError, WidthMode,
};
use laidout::research::to_string;
use laidout::frontier;
use laidout::cost::OverflowThenHeight;

#[test]
fn width_overflow_is_a_typed_error_with_its_source_offset() {
    let width = usize::try_from(u64::from(u32::MAX) + 1).unwrap();
    assert_eq!(
        columns_from_width(width, 17),
        Err(TextError::DisplayWidthOverflow { byte_offset: 17 })
    );
}

#[test]
fn widths_that_fit_are_returned_unchanged() {
    assert_eq!(columns_from_width(0, 3), Ok(0));
    assert_eq!(columns_from_width(u32::MAX as usize, 3), Ok(u32::MAX));
}

#[test]
fn control_characters_are_rejected_at_their_byte_offsets() {
    assert_eq!(
        try_text("ab\u{7}"),
        Err(TextError::ControlCharacter { character: '\u{7}', byte_offset: 2 })
    );
    assert!(try_text("plain").is_ok());
}

#[test]
fn group_prefers_the_flat_projection_when_it_fits() {
    let doc = group(laidout::doc::concat(vec![text("a"), laidout::doc::line(), text("b")]));
    let cm = OverflowThenHeight { width: 80 };
    assert_eq!(to_string(&frontier::best(&cm, &doc).unwrap().out), "a b");
    let narrow = OverflowThenHeight { width: 1 };
    assert_eq!(to_string(&frontier::best(&narrow, &doc).unwrap().out), "a\nb");
    assert_eq!(count_choices(&doc), 1);
}

#[test]
fn flatten_turns_lines_into_their_flat_text_and_fails_on_hard_lines() {
    let doc = laidout::doc::concat(vec![text("a"), laidout::doc::line(), text("b"), softline(), text("c")]);
    let flat = flatten(&doc).unwrap();
    let cm = OverflowThenHeight { width: 1 };
    assert_eq!(to_string(&frontier::best(&cm, &flat).unwrap().out), "a bc");
    assert!(flatten(&concat2(text("a"), hardline())).is_none());
}

#[test]
fn join_interleaves_the_separator() {
    let doc = join(text(", "), vec![text("x"), text("y"), text("z")]);
    let cm = OverflowThenHeight { width: 80 };
    assert_eq!(to_string(&frontier::best(&cm, &doc).unwrap().out), "x, y, z");
    let none = join(text(", "), vec![]);
    assert_eq!(none, empty());
}

#[test]
fn text_runs_keep_their_measured_columns() {
    let narrow = try_text_with("界x", WidthMode::Narrow).unwrap();
    match &*narrow {
        laidout::doc::Doc::Text(run) => {
            assert_eq!(run.columns(), 3);
            assert_eq!(run.value(), "界x");
            assert_eq!(run.byte_len(), 4);
        },
        _ => panic!("expected text"),
    }
}

#[test]
fn flatten_refuses_a_hard_break_in_a_choice_alternative() {
    let d = laidout::doc::choice(laidout::doc::text("a"), laidout::hardline());
    assert!(laidout::doc::flatten(&d).is_none());
    assert!(laidout::doc::contains_hardline(&d));
    let g = laidout::doc::group(d.clone());
    assert!(std::rc::Rc::ptr_eq(&g, &d));
    let soft = laidout::doc::choice(laidout::doc::text("a"), laidout::doc::line());
    assert!(laidout::doc::flatten(&soft).is_some());
}
