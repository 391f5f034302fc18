use laidout::doc::{choice, group, hardline, nest, tag, text};
use laidout::summary::{build_source, compose, fits, FitSummary};

#[test]
fn a_summary_counts_columns_up_to_the_first_break() {
    let doc = laidout::doc::concat(vec![
        tag(1, text("abc")),
        nest(2, text("de")),
        hardline(),
        text("ignored after the break"),
    ]);
    let tree = build_source(&doc, &mut Vec::new());
    assert_eq!(tree.summary(), FitSummary { columns: 5, texts: true, stops: true });
}

#[test]
fn a_choice_is_summarized_by_its_preferred_branch() {
    let doc = choice(text("wide branch"), text("x"));
    let tree = build_source(&doc, &mut Vec::new());
    assert_eq!(tree.summary(), FitSummary { columns: 11, texts: true, stops: false });
    let grouped = group(laidout::doc::concat(vec![text("ab"), laidout::doc::line(), text("cd")]));
    let tree = build_source(&grouped, &mut Vec::new());
    assert_eq!(tree.summary(), FitSummary { columns: 5, texts: true, stops: false });
}

#[test]
fn fit_decisions_read_the_branch_and_the_continuation_until_a_break() {
    let branch = FitSummary { columns: 4, texts: true, stops: false };
    let cont_open = FitSummary { columns: 3, texts: true, stops: false };
    let cont_break = FitSummary { columns: 0, texts: false, stops: true };
    assert!(fits(branch, cont_break, 4, 8));
    assert!(!fits(branch, cont_break, 5, 8));
    assert!(!fits(branch, cont_open, 2, 8));
    assert!(fits(branch, cont_open, 1, 8));
    assert_eq!(compose(branch, cont_open), FitSummary { columns: 7, texts: true, stops: false });
    let nothing = FitSummary { columns: 0, texts: false, stops: false };
    assert!(fits(nothing, cont_break, 100, 8));
    let huge = FitSummary { columns: u64::MAX, texts: true, stops: false };
    assert_eq!(compose(huge, cont_open).columns, u64::MAX);
    assert!(!fits(huge, cont_break, 0, u32::MAX));
}
