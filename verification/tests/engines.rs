use laidout::brute::{self, expansions, join_strings, render_resolved_out};
use laidout::cost::{ConsumerCost, OverflowThenHeight, PreparedConsumerCostModel};
use laidout::doc::{choice, nest, penalize, tag, text};
use laidout::greedy;
use laidout::research::{
    cost_of_out, materialize_text, out_cat, out_newline, out_tagged, out_text, split_into_lines,
    to_lines, to_string,
};
use laidout::tokens;
use laidout::TextRun;

#[test]
fn brute_force_keeps_the_first_of_equal_cost_layouts() {
    let doc = choice(text("left"), text("rite"));
    let cm = OverflowThenHeight { width: 80 };
    let found = brute::best(&cm, &doc, 1).unwrap();
    assert_eq!(found.text(), "left");
    assert_eq!(found.cost, ConsumerCost::zero());
}

#[test]
fn expansions_enumerate_resolutions_in_preference_order() {
    let doc = laidout::doc::concat(vec![choice(text("a"), text("b")), choice(text("c"), text("d"))]);
    let all = expansions(&doc);
    let texts: Vec<String> = all
        .iter()
        .map(|d| to_string(&render_resolved_out(d, 0, 0, u32::MAX).unwrap().0))
        .collect();
    assert_eq!(texts, vec!["ac", "ad", "bc", "bd"]);
}

#[test]
fn nest_indents_lines_after_breaks() {
    let doc = laidout::doc::concat(vec![text("{"), nest(2, laidout::doc::concat(vec![laidout::hardline(), text("x")])), laidout::hardline(), text("}")]);
    let cm = OverflowThenHeight { width: 80 };
    let found = brute::best(&cm, &doc, 0).unwrap();
    assert_eq!(found.text(), "{\n  x\n}");
    assert_eq!(found.lines, vec!["{", "  x", "}"]);
}

#[test]
fn penalties_steer_the_choice_without_changing_text() {
    let doc = choice(penalize(1, text("a b")), laidout::doc::concat(vec![text("a"), laidout::hardline(), text("b")]));
    let cm = PreparedConsumerCostModel::new(80, 1);
    let found = brute::best(&cm, &doc, 1).unwrap();
    assert_eq!(found.text(), "a b");
    let heavy = choice(penalize(5, text("a b")), laidout::doc::concat(vec![text("a"), laidout::hardline(), text("b")]));
    let found = brute::best(&cm, &heavy, 1).unwrap();
    assert_eq!(found.text(), "a\nb");
    assert_eq!(found.cost, ConsumerCost { overflow: 0, burden: 1 });
}

#[test]
fn greedy_takes_the_preferred_branch_when_it_fits() {
    let doc = choice(text("wide layout"), laidout::doc::concat(vec![text("narrow"), laidout::hardline(), text("layout")]));
    let cm = OverflowThenHeight { width: 20 };
    let g = greedy::layout(&cm, &doc, 20).unwrap();
    assert_eq!(g.lines, vec!["wide layout"]);
    let narrow = OverflowThenHeight { width: 5 };
    let g = greedy::layout(&narrow, &doc, 5).unwrap();
    assert_eq!(g.lines, vec!["narrow", "layout"]);
    assert_eq!(g.cost, ConsumerCost { overflow: 2, burden: 1 });
}

#[test]
fn output_trees_materialize_text_spans_and_cost() {
    let out = out_cat(
        out_tagged(3, out_text(TextRun::trusted_ascii("ab"))),
        out_cat(out_newline(2), out_text(TextRun::trusted_ascii("cd"))),
    );
    assert_eq!(to_string(&out), "ab\n  cd");
    assert_eq!(to_lines(&out), vec!["ab", "  cd"]);
    let (text, spans) = materialize_text(&out).unwrap();
    assert_eq!(text, "ab\n  cd");
    assert_eq!(spans.len(), 1);
    assert_eq!((spans[0].start, spans[0].end, spans[0].tag), (0, 2, 3));
    let cm = OverflowThenHeight { width: 3 };
    assert_eq!(cost_of_out(&cm, &out), Some(ConsumerCost { overflow: 1, burden: 1 }));
}

#[test]
fn lines_split_and_join_back() {
    let lines = split_into_lines("a\n\nb");
    assert_eq!(lines, vec!["a", "", "b"]);
    assert_eq!(join_strings(&lines), "a\n\nb");
    assert_eq!(split_into_lines(""), vec![""]);
}

#[test]
fn token_constructors_tag_their_text() {
    let doc = laidout::doc::concat(vec![tokens::word("let"), tokens::space(), tokens::symbol("="), tokens::semicolon()]);
    let cm = OverflowThenHeight { width: 80 };
    let found = brute::best(&cm, &doc, 0).unwrap();
    assert_eq!(found.text(), "let =;");
    let tags: Vec<u32> = found.spans.iter().map(|s| s.tag).collect();
    assert_eq!(
        tags,
        vec![laidout::tags::WORD, laidout::tags::WHITESPACE, laidout::tags::SYMBOL, laidout::tags::SYMBOL]
    );
    let custom = tag(77, tokens::word_with(90, "x"));
    let found = brute::best(&cm, &custom, 0).unwrap();
    assert_eq!(found.spans.iter().map(|s| s.tag).collect::<Vec<u32>>(), vec![77, 90]);
}

#[test]
fn punctuation_tokens_render_their_symbols() {
    let doc = laidout::doc::concat(vec![
        tokens::lparen(), tokens::rparen(), tokens::lbracket(), tokens::rbracket(), tokens::lbrace(),
        tokens::rbrace(), tokens::lchevron(), tokens::rchevron(), tokens::dot(), tokens::comma(),
        tokens::colon(), tokens::semicolon(), tokens::dquote(), tokens::squote(), tokens::backtick(),
        tokens::backslash(), tokens::slash(), tokens::equal(), tokens::star(), tokens::question_mark(),
        tokens::bang(), tokens::pipe(),
    ]);
    let cm = OverflowThenHeight { width: 80 };
    let found = brute::best(&cm, &doc, 0).unwrap();
    assert_eq!(found.text(), "()[]{}<>.,:;\"'`\\/=*?!|");
}

#[test]
fn exact_engine_keeps_the_first_of_equal_cost_layouts_like_the_oracle() {
    let doc = laidout::doc::concat(vec![
        choice(text("aa"), text("b")),
        choice(text("c"), text("dd")),
        text("!"),
    ]);
    let cm = OverflowThenHeight { width: 80 };
    let oracle = brute::best(&cm, &doc, 2).unwrap();
    let exact = laidout::frontier::best(&cm, &doc).unwrap();
    assert_eq!(oracle.text(), "aac!");
    assert_eq!(to_string(&exact.out), oracle.text());
    assert_eq!(exact.cost, oracle.cost);
}

#[test]
fn exact_rendering_matches_the_oracle_on_ties_and_overflow() {
    let doc = laidout::doc::concat(vec![
        text("abc"),
        choice(laidout::doc::concat(vec![laidout::hardline(), text("xyz")]), text("de")),
        choice(text("fg"), laidout::doc::concat(vec![laidout::hardline(), text("h")])),
    ]);
    for width in 1..9u32 {
        let cm = PreparedConsumerCostModel::new(width, 1);
        let oracle = brute::best(&cm, &doc, 2).unwrap();
        let rendered = laidout::render::render(&doc, laidout::render::RenderOptions::new(width)).unwrap();
        assert_eq!(rendered.text(), oracle.text(), "width {width}");
        assert_eq!(rendered.cost(), oracle.cost, "width {width}");
    }
}
