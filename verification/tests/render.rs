use laidout::doc::{choice, group, tag, text};
use laidout::render::{
    render, render_prepared, IndentPolicy, LayoutStrategy, OwnedRenderError, OwnedRenderErrorKind,
    RenderError, RenderOptions, Renderer, SpanId,
};
use laidout::research::AnnotationSpan;
use laidout::{ConsumerCost, Doc};

#[test]
fn exact_rendering_picks_the_flat_group_when_it_fits() {
    let doc = group(laidout::doc::concat(vec![text("status"), laidout::doc::line(), text("ready")]));
    let output = render(&doc, RenderOptions::new(12)).unwrap();
    assert_eq!(output.text(), "status ready");
    assert_eq!(output.cost(), ConsumerCost::zero());
}

#[test]
fn exact_rendering_breaks_when_the_flat_layout_overflows() {
    let doc = group(laidout::doc::concat(vec![text("status"), laidout::doc::line(), text("ready")]));
    let output = render(&doc, RenderOptions::new(8)).unwrap();
    assert_eq!(output.text(), "status\nready");
    assert_eq!(output.cost(), ConsumerCost { overflow: 0, burden: 1 });
}

#[test]
fn fast_rendering_uses_the_greedy_engine() {
    let doc = group(laidout::doc::concat(vec![text("status"), laidout::doc::line(), text("ready")]));
    let options = RenderOptions::new(8).with_strategy(LayoutStrategy::Fast);
    let output = render(&doc, options).unwrap();
    assert_eq!(output.text(), "status\nready");
    let wide = render(&doc, RenderOptions::new(80).with_strategy(LayoutStrategy::Fast)).unwrap();
    assert_eq!(wide.text(), "status ready");
}

#[test]
fn newline_cost_scales_the_burden_of_breaks() {
    let doc = laidout::doc::concat(vec![text("a"), laidout::hardline(), text("b")]);
    let output = render(&doc, RenderOptions::new(80).with_newline_cost(7)).unwrap();
    assert_eq!(output.text(), "a\nb");
    assert_eq!(output.cost(), ConsumerCost { overflow: 0, burden: 7 });
}

#[test]
fn options_keep_every_setting() {
    let options = RenderOptions::new(40)
        .with_newline_cost(3)
        .with_strategy(LayoutStrategy::Fast)
        .with_indent_policy(IndentPolicy::ClampToWidthMinusOne);
    assert_eq!(options.width(), 40);
    assert_eq!(options.newline_cost(), 3);
    assert_eq!(options.strategy(), LayoutStrategy::Fast);
    assert_eq!(options.indent_policy(), IndentPolicy::ClampToWidthMinusOne);
    let defaults = RenderOptions::new(9);
    assert_eq!(defaults.newline_cost(), 1);
    assert_eq!(defaults.strategy(), LayoutStrategy::Exact);
    assert_eq!(defaults.indent_policy(), IndentPolicy::Preserve);
}

#[test]
fn tag_spans_are_reported_with_their_tags() {
    let doc = laidout::doc::concat(vec![tag(40, text("key")), text(": "), tag(41, text("value"))]);
    let output = render(&doc, RenderOptions::new(80)).unwrap();
    assert_eq!(output.text(), "key: value");
    assert_eq!(
        output.spans(),
        &vec![
            AnnotationSpan { tag: 40, start: 0, end: 3, parent: None },
            AnnotationSpan { tag: 41, start: 5, end: 10, parent: None },
        ]
    );
    let resolved = output.resolved_spans();
    assert_eq!(resolved.len(), 2);
    assert_eq!(resolved[1].1, 41);
    assert_eq!(SpanId(1).index(), 1);
}

#[test]
fn nested_tags_record_their_parent() {
    let doc = tag(1, laidout::doc::concat(vec![text("a"), tag(2, text("b"))]));
    let output = render(&doc, RenderOptions::new(80)).unwrap();
    assert_eq!(
        output.spans(),
        &vec![
            AnnotationSpan { tag: 1, start: 0, end: 2, parent: None },
            AnnotationSpan { tag: 2, start: 1, end: 2, parent: Some(0) },
        ]
    );
    let runs = output.annotated_runs();
    assert_eq!(runs.len(), 2);
    assert_eq!(runs[0].text, "a");
    assert_eq!(runs[0].tags, vec![1]);
    assert_eq!(runs[1].text, "b");
    assert_eq!(runs[1].tags, vec![1, 2]);
    assert_eq!((runs[1].start, runs[1].end), (1, 2));
}

#[test]
fn empty_output_has_no_runs() {
    let output = render(&laidout::empty(), RenderOptions::new(10)).unwrap();
    assert_eq!(output.text(), "");
    assert!(output.annotated_runs().is_empty());
}

#[test]
fn prepared_documents_render_like_raw_ones() {
    let doc = choice(text("abcdef"), laidout::doc::concat(vec![text("abc"), laidout::doc::line(), text("def")]));
    let prepared = Doc::prepare(&doc).unwrap();
    let options = RenderOptions::new(4);
    let direct = render(&doc, options).unwrap();
    let from_prepared = render_prepared(&prepared, options).unwrap();
    assert_eq!(direct.text(), from_prepared.text());
    assert_eq!(direct.cost(), from_prepared.cost());
    let mut renderer = Renderer::new();
    let again = renderer.render_prepared(&prepared, options).unwrap();
    assert_eq!(again.text(), "abc\ndef");
    let summary = renderer.render(&doc, options).unwrap().summary();
    assert_eq!(summary.cost, ConsumerCost { overflow: 0, burden: 1 });
}

#[test]
fn owned_parts_hand_out_every_field() {
    let doc = tag(9, text("x"));
    let output = render(&doc, RenderOptions::new(5)).unwrap();
    let stats = output.stats();
    let parts = output.clone().into_parts();
    assert_eq!(parts.text, "x");
    assert_eq!(parts.spans.len(), 1);
    assert_eq!(parts.cost, ConsumerCost::zero());
    assert_eq!(parts.stats, stats);
    assert_eq!(output.into_text(), "x");
}

#[test]
fn error_kinds_name_their_variants() {
    let e = OwnedRenderError::Render(RenderError::OutputOverflow);
    assert_eq!(e.kind(), OwnedRenderErrorKind::Render);
    let overflow = laidout::prepare::PrepareError::CostDomainExceeded {
        component: laidout::prepare::CostComponent::Overflow,
        required: Some(1),
        maximum: 0,
    };
    assert_eq!(OwnedRenderError::Prepare(overflow).kind(), OwnedRenderErrorKind::Prepare);
}

#[test]
fn columns_beyond_u32_are_refused_while_preparing() {
    let wide = laidout::doc::text_with_columns("x", u32::MAX);
    let doc = laidout::doc::concat(vec![wide, text("yy")]);
    let result = render(&doc, RenderOptions::new(10));
    assert!(matches!(result, Err(OwnedRenderError::Prepare(_))));
}

#[test]
fn clamp_policy_is_applied_when_indent_is_entered() {
    let doc = laidout::doc::nest(
        100,
        laidout::doc::concat(vec![text("a"), laidout::hardline(), text("b")]),
    );
    let options = RenderOptions::new(4)
        .with_strategy(LayoutStrategy::Fast)
        .with_indent_policy(IndentPolicy::ClampToWidthMinusOne);
    let rendered = render(&doc, options).unwrap();
    assert_eq!(rendered.text(), "a\n   b");
    let exact = render(&doc, RenderOptions::new(4).with_indent_policy(IndentPolicy::ClampToWidthMinusOne))
        .unwrap();
    assert_eq!(exact.text(), "a\n   b");
}

#[test]
fn clamp_policy_bounds_alignment_too() {
    let doc = laidout::doc::concat(vec![
        text("abcdef"),
        laidout::doc::align(laidout::doc::concat(vec![text("x"), laidout::hardline(), text("y")])),
    ]);
    let preserved = render(&doc, RenderOptions::new(4)).unwrap();
    assert_eq!(preserved.text(), "abcdefx\n      y");
    let clamped = render(&doc, RenderOptions::new(4).with_indent_policy(IndentPolicy::ClampToWidthMinusOne))
        .unwrap();
    assert_eq!(clamped.text(), "abcdefx\n   y");
}

#[test]
fn rendered_bytes_lines_and_spans_stay_within_the_prepared_bounds() {
    let doc = group(laidout::doc::concat(vec![
        tag(1, text("alpha")),
        laidout::doc::line(),
        tag(2, choice(text("beta gamma"), text("delta"))),
    ]));
    let prepared = Doc::prepare(&doc).unwrap();
    let bounds = prepared.bounds();
    for width in [1u32, 4, 8, 40] {
        for strategy in [LayoutStrategy::Fast, LayoutStrategy::Exact] {
            let options = RenderOptions::new(width).with_strategy(strategy);
            let rendered = render_prepared(&prepared, options).unwrap();
            assert!(rendered.text().len() <= bounds.output_bytes_upper());
            assert!(rendered.text().split('\n').count() <= bounds.line_count_upper());
            assert!(rendered.spans().len() <= bounds.spans_upper());
        }
    }
}

#[test]
fn rendered_costs_stay_within_the_prepared_cost_bounds() {
    let doc = group(laidout::doc::concat(vec![
        tag(1, text("alpha")),
        laidout::doc::line(),
        tag(2, choice(text("beta gamma"), text("delta"))),
    ]));
    let prepared = Doc::prepare(&doc).unwrap();
    let bounds = prepared.bounds();
    for width in [1u32, 3, 8, 40] {
        for strategy in [LayoutStrategy::Fast, LayoutStrategy::Exact] {
            let options = RenderOptions::new(width).with_strategy(strategy).with_newline_cost(7);
            let rendered = render_prepared(&prepared, options).unwrap();
            assert!(rendered.cost().overflow <= bounds.overflow_cost_upper());
            assert!(rendered.cost().burden <= bounds.burden_cost_upper());
        }
    }
}

#[test]
fn every_rendered_span_resolves_to_a_prepared_annotation() {
    let doc = group(laidout::doc::concat(vec![
        tag(7, text("alpha")),
        laidout::doc::line(),
        tag(3, choice(tag(9, text("beta gamma")), text("delta"))),
    ]));
    let prepared = Doc::prepare(&doc).unwrap();
    let kept: Vec<u32> = (0..prepared.annotation_count() as u32)
        .map(|i| prepared.annotation(laidout::AnnotationId(i)).unwrap())
        .collect();
    assert_eq!(kept, vec![7, 3, 9]);
    for width in [4u32, 40] {
        for strategy in [LayoutStrategy::Fast, LayoutStrategy::Exact] {
            let rendered = render_prepared(&prepared, RenderOptions::new(width).with_strategy(strategy)).unwrap();
            assert!(!rendered.spans().is_empty());
            for span in rendered.spans() {
                assert!(kept.contains(&span.tag));
            }
        }
    }
}
