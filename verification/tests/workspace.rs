
use laidout::doc::{choice, group, nest, penalize, tag, text, Doc, TagId, TextRun};
use laidout::render::{render, render_prepared, LayoutStrategy, RenderError, RenderOptions};
use laidout::visit::{solve_into, EventLog, LayoutVisitor, VisitEvent};
use laidout::workspace::{
    memo_slots_for, render_into, RenderCapacity, RenderWorkspace, ReserveError, WorkspaceMode,
    WorkspaceResource,
};

fn options(width: u32, strategy: LayoutStrategy) -> RenderOptions {
    RenderOptions::new(width).with_strategy(strategy)
}

fn capacity_document() -> std::rc::Rc<Doc> {
    group(laidout::doc::concat(vec![
        tag(1, text("alpha")),
        laidout::doc::line(),
        nest(2, tag(2, choice(penalize(4, text("beta gamma")), text("delta")))),
    ]))
}

#[derive(Default)]
struct Counter(usize);

impl LayoutVisitor for Counter {
    type Error = std::convert::Infallible;
    fn received(&self) -> vstd::seq::Seq<laidout::research::Event> {
        unreachable!()
    }
    fn enter_annotation(&mut self, _tag: TagId) -> Result<(), Self::Error> {
        Ok(())
    }
    fn exit_annotation(&mut self, _tag: TagId) -> Result<(), Self::Error> {
        Ok(())
    }
    fn penalty(&mut self, _amount: u32) -> Result<(), Self::Error> {
        Ok(())
    }
    fn text(&mut self, _run: &TextRun, _annotations: &Vec<TagId>) -> Result<(), Self::Error> {
        self.0 += 1;
        Ok(())
    }
    fn newline(&mut self, _indent: u32, _annotations: &Vec<TagId>) -> Result<(), Self::Error> {
        Ok(())
    }
}

/// Writes every event it is handed as a line of text.
#[derive(Default)]
struct Transcript(Vec<String>);

impl LayoutVisitor for Transcript {
    type Error = String;
    fn received(&self) -> vstd::seq::Seq<laidout::research::Event> {
        unreachable!()
    }
    fn enter_annotation(&mut self, tag: TagId) -> Result<(), Self::Error> {
        self.0.push(format!("open {tag}"));
        Ok(())
    }
    fn exit_annotation(&mut self, tag: TagId) -> Result<(), Self::Error> {
        self.0.push(format!("close {tag}"));
        Ok(())
    }
    fn penalty(&mut self, amount: u32) -> Result<(), Self::Error> {
        self.0.push(format!("penalty {amount}"));
        Ok(())
    }
    fn text(&mut self, run: &TextRun, annotations: &Vec<TagId>) -> Result<(), Self::Error> {
        self.0.push(format!("text {:?} in {:?}", run.value(), annotations));
        Ok(())
    }
    fn newline(&mut self, indent: u32, annotations: &Vec<TagId>) -> Result<(), Self::Error> {
        self.0.push(format!("newline {indent} in {:?}", annotations));
        Ok(())
    }
}

#[test]
fn release_preserves_mode_and_growable_reuse_regrows_named_storage() {
    let prepared = Doc::prepare(&capacity_document()).unwrap();
    let render_options = options(8, LayoutStrategy::Exact);
    let mut workspace = RenderWorkspace::growable();
    drop(render_into(&prepared, render_options, &mut workspace).unwrap());
    assert_ne!(workspace.capacity(), Default::default());
    workspace.set_mode(WorkspaceMode::Fixed);
    workspace.release_capacity();
    assert_eq!(workspace.capacity(), Default::default());
    assert!(matches!(
        render_into(&prepared, render_options, &mut workspace),
        Err(RenderError::WorkspaceExhausted { .. })
    ));

    workspace.set_mode(WorkspaceMode::Growable);
    let rendered = render_into(&prepared, render_options, &mut workspace).unwrap();
    assert!(!rendered.text().is_empty());
    drop(rendered);
    assert_ne!(workspace.capacity(), Default::default());
}

#[test]
fn empty_text_produces_no_text_callback() {
    let prepared = Doc::prepare(&text("")).unwrap();
    let mut workspace = RenderWorkspace::growable();
    let layout = solve_into(&prepared, options(80, LayoutStrategy::Fast), &mut workspace).unwrap();
    let mut counter = Counter::default();
    layout.visit(&mut counter).unwrap();
    assert_eq!(counter.0, 0);
}

#[test]
fn a_visit_hands_over_the_rendered_layout_event_by_event() {
    let prepared = Doc::prepare(&capacity_document()).unwrap();
    let mut workspace = RenderWorkspace::growable();
    let layout = solve_into(&prepared, options(8, LayoutStrategy::Exact), &mut workspace).unwrap();
    let rendered = render_prepared(&prepared, options(8, LayoutStrategy::Exact)).unwrap();
    assert_eq!(layout.cost(), rendered.cost());
    let mut transcript = Transcript::default();
    layout.visit(&mut transcript).unwrap();
    assert_eq!(rendered.text(), "alpha\ndelta");
    assert_eq!(
        transcript.0,
        vec![
            "open 1".to_string(),
            "text \"alpha\" in [1]".to_string(),
            "close 1".to_string(),
            "newline 0 in []".to_string(),
            "open 2".to_string(),
            "text \"delta\" in [2]".to_string(),
            "close 2".to_string(),
        ]
    );
}

#[test]
fn a_penalty_reaches_the_visitor_before_its_text() {
    let prepared = Doc::prepare(&capacity_document()).unwrap();
    let mut workspace = RenderWorkspace::growable();
    let layout = solve_into(&prepared, options(40, LayoutStrategy::Fast), &mut workspace).unwrap();
    let mut transcript = Transcript::default();
    layout.visit(&mut transcript).unwrap();
    assert_eq!(
        transcript.0,
        vec![
            "open 1".to_string(),
            "text \"alpha\" in [1]".to_string(),
            "close 1".to_string(),
            "text \" \" in []".to_string(),
            "open 2".to_string(),
            "penalty 4".to_string(),
            "text \"beta gamma\" in [2]".to_string(),
            "close 2".to_string(),
        ]
    );
}

#[test]
fn a_refusing_visitor_stops_the_visit_with_its_own_error() {
    struct Refuse;
    impl LayoutVisitor for Refuse {
        type Error = u8;
        fn received(&self) -> vstd::seq::Seq<laidout::research::Event> {
            unreachable!()
        }
        fn enter_annotation(&mut self, _tag: TagId) -> Result<(), u8> {
            Err(7)
        }
        fn exit_annotation(&mut self, _tag: TagId) -> Result<(), u8> {
            Ok(())
        }
        fn penalty(&mut self, _amount: u32) -> Result<(), u8> {
            Ok(())
        }
        fn text(&mut self, _run: &TextRun, _annotations: &Vec<TagId>) -> Result<(), u8> {
            Ok(())
        }
        fn newline(&mut self, _indent: u32, _annotations: &Vec<TagId>) -> Result<(), u8> {
            Ok(())
        }
    }
    let prepared = Doc::prepare(&capacity_document()).unwrap();
    let mut workspace = RenderWorkspace::growable();
    let layout = solve_into(&prepared, options(8, LayoutStrategy::Fast), &mut workspace).unwrap();
    assert!(matches!(layout.visit(&mut Refuse), Err(laidout::VisitError::Visitor(7))));
}

#[test]
fn reserve_refuses_unrepresentable_indexed_capacities_in_order() {
    let mut workspace = RenderWorkspace::growable();
    let mut requested = RenderCapacity::default();
    requested.plan_nodes = u32::MAX as usize + 1;
    requested.materialize.spans = u32::MAX as usize + 1;
    assert_eq!(
        workspace.reserve(requested),
        Err(ReserveError::CapacityOverflow {
            resource: WorkspaceResource::PlanNodes,
            requested: u32::MAX as usize + 1,
        })
    );
    assert_eq!(workspace.capacity(), RenderCapacity::default());

    let mut memo = RenderCapacity::default();
    memo.exact.memo_entries = usize::MAX;
    assert_eq!(
        workspace.reserve(memo),
        Err(ReserveError::CapacityOverflow {
            resource: WorkspaceResource::MemoEntries,
            requested: usize::MAX,
        })
    );
    assert_eq!(workspace.mode(), WorkspaceMode::Growable);
}

#[test]
fn reserve_keeps_the_larger_of_each_capacity() {
    let mut workspace = RenderWorkspace::growable();
    let mut first = RenderCapacity::default();
    first.fast.work_items = 10;
    first.materialize.output_bytes = 4;
    workspace.reserve(first).unwrap();
    let mut second = RenderCapacity::default();
    second.fast.work_items = 3;
    second.exact.memo_entries = 6;
    second.materialize.output_bytes = 9;
    workspace.reserve(second).unwrap();
    let capacity = workspace.capacity();
    assert_eq!(capacity.fast.work_items, 10);
    assert_eq!(capacity.exact.memo_entries, 6);
    assert_eq!(capacity.materialize.output_bytes, 9);
    assert_eq!(capacity.materialize.spans, 0);
}

#[test]
fn memo_tables_double_from_eight_until_seven_tenths_hold_the_entries() {
    assert_eq!(memo_slots_for(0), Ok(0));
    assert_eq!(memo_slots_for(1), Ok(8));
    assert_eq!(memo_slots_for(5), Ok(8));
    assert_eq!(memo_slots_for(6), Ok(16));
    assert_eq!(memo_slots_for(12), Ok(32));
}

fn assert_one_less(strategy: LayoutStrategy, resource: WorkspaceResource, reduce: fn(&mut RenderCapacity)) {
    let prepared = Doc::prepare(&capacity_document()).unwrap();
    let render_options = options(8, strategy);
    let mut warm = RenderWorkspace::growable();
    drop(render_into(&prepared, render_options, &mut warm).unwrap());
    let mut capacity = warm.capacity();
    reduce(&mut capacity);
    let mut fixed = RenderWorkspace::fixed(capacity).unwrap();
    let error = match render_into(&prepared, render_options, &mut fixed) {
        Ok(_) => panic!("one-less {resource:?} capacity unexpectedly succeeded"),
        Err(error) => error,
    };
    assert!(matches!(
        error,
        RenderError::WorkspaceExhausted { resource: actual, .. } if actual == resource
    ));
    assert_eq!(fixed.capacity(), capacity);
}

#[test]
fn every_fixed_resource_reports_its_one_less_capacity_directly() {
    assert_one_less(LayoutStrategy::Fast, WorkspaceResource::FastWorkItems, |capacity| {
        capacity.fast.work_items -= 1
    });
    for (resource, reduce) in [
        (
            WorkspaceResource::ExactWorkItems,
            (|capacity: &mut RenderCapacity| capacity.exact.work_items -= 1) as fn(&mut RenderCapacity),
        ),
        (
            WorkspaceResource::MemoEntries,
            (|capacity: &mut RenderCapacity| capacity.exact.memo_entries -= 1) as fn(&mut RenderCapacity),
        ),
        (
            WorkspaceResource::RetainedCandidates,
            (|capacity: &mut RenderCapacity| capacity.exact.retained_candidates -= 1) as fn(&mut RenderCapacity),
        ),
        (
            WorkspaceResource::FrontierScratch,
            (|capacity: &mut RenderCapacity| capacity.exact.frontier_scratch -= 1) as fn(&mut RenderCapacity),
        ),
        (
            WorkspaceResource::PlanNodes,
            (|capacity: &mut RenderCapacity| capacity.plan_nodes -= 1) as fn(&mut RenderCapacity),
        ),
        (
            WorkspaceResource::VisitWorkItems,
            (|capacity: &mut RenderCapacity| capacity.visit.work_items -= 1) as fn(&mut RenderCapacity),
        ),
        (
            WorkspaceResource::AnnotationDepth,
            (|capacity: &mut RenderCapacity| capacity.visit.annotation_depth -= 1) as fn(&mut RenderCapacity),
        ),
        (
            WorkspaceResource::OutputBytes,
            (|capacity: &mut RenderCapacity| capacity.materialize.output_bytes -= 1) as fn(&mut RenderCapacity),
        ),
        (
            WorkspaceResource::Spans,
            (|capacity: &mut RenderCapacity| capacity.materialize.spans -= 1) as fn(&mut RenderCapacity),
        ),
    ] {
        assert_one_less(LayoutStrategy::Exact, resource, reduce);
    }
}

#[test]
fn a_fixed_workspace_one_byte_short_reports_exhaustion_and_stays() {
    let prepared = Doc::prepare(&capacity_document()).unwrap();
    let render_options = options(8, LayoutStrategy::Exact);
    let mut warm = RenderWorkspace::growable();
    let expected = render_into(&prepared, render_options, &mut warm).unwrap();
    let bytes = expected.text().len();
    let exact = warm.capacity();
    assert_eq!(exact.materialize.output_bytes, bytes);
    assert_eq!(exact.materialize.spans, expected.spans().len());
    assert_eq!(exact.plan_nodes, expected.stats().plan_nodes);

    let mut fixed = RenderWorkspace::fixed(exact).unwrap();
    let rendered = render_into(&prepared, render_options, &mut fixed).unwrap();
    assert_eq!(rendered.text(), expected.text());
    assert_eq!(fixed.capacity(), exact);

    let mut short = exact;
    short.materialize.output_bytes = bytes - 1;
    let mut fixed = RenderWorkspace::fixed(short).unwrap();
    match render_into(&prepared, render_options, &mut fixed) {
        Err(RenderError::WorkspaceExhausted { resource, capacity, required, .. }) => {
            assert_eq!(resource, WorkspaceResource::OutputBytes);
            assert_eq!(capacity, bytes - 1);
            assert_eq!(required, bytes);
        }
        other => panic!("unexpected {other:?}"),
    }
    assert_eq!(fixed.capacity(), short);
}

#[test]
fn solving_and_rendering_into_workspaces_agree_on_layout_and_counters() {
    let prepared = Doc::prepare(&capacity_document()).unwrap();
    for strategy in [LayoutStrategy::Fast, LayoutStrategy::Exact] {
        let mut ws = RenderWorkspace::growable();
        let mut ws2 = RenderWorkspace::growable();
        let layout = solve_into(&prepared, options(8, strategy), &mut ws).unwrap();
        let rendered = render_into(&prepared, options(8, strategy), &mut ws2).unwrap();
        assert_eq!(layout.cost(), rendered.cost());
        assert_eq!(layout.stats(), rendered.stats());
        assert!(layout.stats().plan_nodes > 0);
        let mut short = ws.capacity();
        short.plan_nodes -= 1;
        let mut fixed = RenderWorkspace::fixed(short).unwrap();
        assert!(matches!(
            solve_into(&prepared, options(8, strategy), &mut fixed),
            Err(RenderError::WorkspaceExhausted { resource: WorkspaceResource::PlanNodes, .. })
        ));
    }
}

#[test]
fn a_colon_label_of_thirteen_columns_breaks_at_width_twelve() {
    let doc = group(laidout::doc::concat(vec![text("status:"), laidout::doc::line(), text("ready")]));
    let narrow = render(&doc, RenderOptions::new(12)).unwrap();
    assert_eq!(narrow.text(), "status:\nready");
    let wide = render(&doc, RenderOptions::new(13)).unwrap();
    assert_eq!(wide.text(), "status: ready");
}

#[test]
fn an_event_log_records_the_layout_with_its_close_tags() {
    let prepared = Doc::prepare(&capacity_document()).unwrap();
    let mut workspace = RenderWorkspace::growable();
    let layout = solve_into(&prepared, options(8, LayoutStrategy::Fast), &mut workspace).unwrap();
    let mut log = EventLog::new();
    layout.visit(&mut log).unwrap();
    let texts: Vec<String> = log
        .events()
        .iter()
        .map(|event| match event {
            VisitEvent::Open(tag) => format!("open {tag}"),
            VisitEvent::Close(tag) => format!("close {tag}"),
            VisitEvent::Penalty(amount) => format!("penalty {amount}"),
            VisitEvent::Text(run) => format!("text {}", run.value()),
            VisitEvent::Newline(indent) => format!("newline {indent}"),
        })
        .collect();
    assert_eq!(
        texts,
        vec!["open 1", "text alpha", "close 1", "newline 0", "open 2", "text delta", "close 2"]
    );
}

#[test]
fn a_renderer_reserves_its_fixed_workspace_from_the_prepared_bounds() {
    let prepared = Doc::prepare(&capacity_document()).unwrap();
    let fixed = RenderWorkspace::fixed(RenderCapacity::default()).unwrap();
    let mut renderer = laidout::render::Renderer::with_workspace(fixed);
    let render_options = options(8, LayoutStrategy::Fast);
    let rendered = renderer.render_prepared(&prepared, render_options).unwrap();
    assert_eq!(rendered.text(), "alpha\ndelta");
    assert_eq!(renderer.workspace().mode(), WorkspaceMode::Fixed);
    let seeded = laidout::workspace::seed_capacity(prepared.bounds(), LayoutStrategy::Fast);
    let workspace = renderer.into_workspace();
    assert_eq!(workspace.capacity(), seeded);
    assert_eq!(seeded.materialize.output_bytes, prepared.bounds().output_bytes_upper());
    let exact_seed = laidout::workspace::seed_capacity(prepared.bounds(), LayoutStrategy::Exact);
    assert_eq!(exact_seed.exact.memo_entries, 1);
}

#[test]
fn owned_rendering_into_a_caller_workspace_matches_the_owned_renderer() {
    let prepared = Doc::prepare(&capacity_document()).unwrap();
    let mut workspace = RenderWorkspace::growable();
    for strategy in [LayoutStrategy::Fast, LayoutStrategy::Exact] {
        let owned = laidout::workspace::render_prepared_into_owned(
            &prepared,
            options(40, strategy),
            &mut workspace,
        )
        .unwrap();
        let expected = render_prepared(&prepared, options(40, strategy)).unwrap();
        assert_eq!(owned.text(), expected.text());
        assert_eq!(owned.cost(), expected.cost());
    }
    let mut renderer = laidout::render::Renderer::new();
    renderer.workspace_mut().set_mode(WorkspaceMode::Fixed);
    assert!(renderer.render(&capacity_document(), options(40, LayoutStrategy::Fast)).is_ok());
}

const KEY: TagId = 1;
const VALUE: TagId = 2;

#[derive(Default)]
struct EventCounter {
    bytes: usize,
    annotations: usize,
}

impl LayoutVisitor for EventCounter {
    type Error = std::convert::Infallible;
    fn received(&self) -> vstd::seq::Seq<laidout::research::Event> {
        unreachable!()
    }
    fn enter_annotation(&mut self, _tag: TagId) -> Result<(), Self::Error> {
        self.annotations += 1;
        Ok(())
    }
    fn exit_annotation(&mut self, _tag: TagId) -> Result<(), Self::Error> {
        Ok(())
    }
    fn penalty(&mut self, _amount: u32) -> Result<(), Self::Error> {
        Ok(())
    }
    fn text(&mut self, run: &TextRun, _annotations: &Vec<TagId>) -> Result<(), Self::Error> {
        self.bytes += run.value().len();
        Ok(())
    }
    fn newline(&mut self, indent: u32, _annotations: &Vec<TagId>) -> Result<(), Self::Error> {
        self.bytes += 1 + indent as usize;
        Ok(())
    }
}

#[test]
fn public_kernel_needs_no_downstream_console_types_or_dependency() {
    let doc = group(laidout::doc::concat(vec![
        tag(KEY, text("status:")),
        laidout::doc::line(),
        tag(VALUE, text("ready")),
    ]));
    let prepared = Doc::prepare(&doc).unwrap();

    for strategy in [LayoutStrategy::Fast, LayoutStrategy::Exact] {
        let options = RenderOptions::new(8).with_strategy(strategy);
        let owned = render(&doc, options).unwrap();
        assert_eq!(owned.text(), "status:\nready");

        let mut workspace = RenderWorkspace::growable();
        let warm = render_into(&prepared, options, &mut workspace).unwrap();
        assert_eq!(warm.text(), "status:\nready");
        drop(warm);

        let warm_layout = solve_into(&prepared, options, &mut workspace).unwrap();
        let mut warm_visitor = EventCounter::default();
        warm_layout.visit(&mut warm_visitor).unwrap();
        assert_eq!(warm_visitor.bytes, "status:\nready".len());
        assert_eq!(warm_visitor.annotations, 2);

        workspace.set_mode(WorkspaceMode::Fixed);
        let fixed = render_into(&prepared, options, &mut workspace).unwrap();
        assert_eq!(fixed.text(), "status:\nready");
        drop(fixed);
        let layout = solve_into(&prepared, options, &mut workspace).unwrap();
        let mut visitor = EventCounter::default();
        layout.visit(&mut visitor).unwrap();
        assert_eq!(visitor.bytes, "status:\nready".len());
        assert_eq!(visitor.annotations, 2);
    }

    let mut empty_fixed = RenderWorkspace::fixed(Default::default()).unwrap();
    assert!(matches!(
        render_into(&prepared, RenderOptions::new(8), &mut empty_fixed),
        Err(RenderError::WorkspaceExhausted { .. })
    ));
}

#[test]
fn the_fast_engine_counts_one_fit_decision_per_choice_it_meets() {
    let simple = Doc::prepare(&group(laidout::doc::concat(vec![
        text("status:"),
        laidout::doc::line(),
        text("ready"),
    ])))
    .unwrap();
    let rendered = render_prepared(&simple, options(8, LayoutStrategy::Fast)).unwrap();
    assert_eq!(rendered.stats().fit_checks, 1);
    assert_eq!(rendered.stats().work_items, 0);

    let prepared = Doc::prepare(&capacity_document()).unwrap();
    let narrow = render_prepared(&prepared, options(8, LayoutStrategy::Fast)).unwrap();
    assert_eq!(narrow.text(), "alpha\ndelta");
    assert_eq!(narrow.stats().fit_checks, 2);
    let exact = render_prepared(&prepared, options(8, LayoutStrategy::Exact)).unwrap();
    assert_eq!(exact.stats().fit_checks, 0);
    assert!(exact.stats().plan_nodes > 0);
}
