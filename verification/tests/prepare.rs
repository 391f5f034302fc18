use laidout::doc::{choice, hardline, tag, text};
use laidout::prepare::{
    prepare_with_limits, AnnotationId, BoundLimits, CostComponent, PrepareError, PrepareErrorKind,
    PreparedResource,
};
use laidout::Doc;

#[test]
fn a_reduced_overflow_domain_rejects_a_line_that_can_overflow_it() {
    let overflow = text("xxxxx");
    let error = match prepare_with_limits(
        &overflow,
        BoundLimits {
            overflow_cost: 24,
            ..BoundLimits::production()
        },
    ) {
        Ok(_) => panic!("reduced overflow domain unexpectedly accepted the document"),
        Err(error) => error,
    };
    assert_eq!(
        error,
        PrepareError::CostDomainExceeded {
            component: CostComponent::Overflow,
            required: Some(25),
            maximum: 24,
        }
    );
    assert_eq!(error.kind(), PrepareErrorKind::CostDomainExceeded);
}

#[test]
fn production_bounds_of_a_small_document() {
    let doc = laidout::doc::concat(vec![text("ab"), hardline(), text("cde")]);
    let prepared = Doc::prepare(&doc).unwrap();
    let bounds = prepared.bounds();
    assert_eq!(bounds.line_count_upper(), 2);
    assert!(bounds.output_bytes_upper() >= 6);
    assert!(bounds.overflow_cost_upper() >= 9);
    assert_eq!(bounds.burden_cost_upper(), u64::from(u32::MAX));
}

#[test]
fn a_reduced_output_domain_rejects_the_document() {
    let doc = laidout::doc::concat(vec![text("abc"), text("def")]);
    let result = prepare_with_limits(
        &doc,
        BoundLimits {
            output_bytes: 5,
            ..BoundLimits::production()
        },
    );
    assert!(matches!(
        result,
        Err(PrepareError::RepresentationExceeded {
            resource: PreparedResource::OutputBytes,
            required: Some(required),
            maximum: 5,
        }) if required > 5
    ));
}

#[test]
fn distinct_tags_are_numbered_in_first_occurrence_order() {
    let doc = laidout::doc::concat(vec![
        tag(7, text("a")),
        choice(tag(3, text("b")), tag(7, text("c"))),
        tag(3, text("d")),
    ]);
    let prepared = Doc::prepare(&doc).unwrap();
    assert_eq!(prepared.annotation_count(), 2);
    assert_eq!(prepared.annotation(AnnotationId(0)), Some(7));
    assert_eq!(prepared.annotation(AnnotationId(1)), Some(3));
    assert_eq!(prepared.annotation(AnnotationId(2)), None);
    assert_eq!(prepared.doc(), &doc);
}

fn shared_doubling(mut doc: std::rc::Rc<Doc>, depth: usize) -> std::rc::Rc<Doc> {
    for _ in 0..depth {
        doc = laidout::doc::concat(vec![doc.clone(), laidout::doc::softline(), doc]);
    }
    doc
}

#[test]
fn reduced_cost_domains_reject_the_first_invalid_component() {
    let overflow = text("xxxxx");
    let error = match prepare_with_limits(
        &overflow,
        BoundLimits { overflow_cost: 24, ..BoundLimits::production() },
    ) {
        Ok(_) => panic!("reduced overflow domain unexpectedly accepted the document"),
        Err(error) => error,
    };
    assert_eq!(
        error,
        PrepareError::CostDomainExceeded {
            component: CostComponent::Overflow,
            required: Some(25),
            maximum: 24,
        }
    );

    let burden = shared_doubling(laidout::doc::penalize(10, text("")), 4);
    let error = match prepare_with_limits(
        &burden,
        BoundLimits { burden_cost: 159, ..BoundLimits::production() },
    ) {
        Ok(_) => panic!("reduced burden domain unexpectedly accepted the document"),
        Err(error) => error,
    };
    assert!(matches!(
        error,
        PrepareError::CostDomainExceeded {
            component: CostComponent::Burden,
            required: Some(required),
            maximum: 159,
        } if required > 159
    ));
}

#[test]
fn compact_shared_dags_cannot_hide_expanded_representation_bounds() {
    let output = shared_doubling(text("x"), 3);
    let error = match prepare_with_limits(
        &output,
        BoundLimits { output_bytes: 7, ..BoundLimits::production() },
    ) {
        Ok(_) => panic!("reduced output domain unexpectedly accepted the document"),
        Err(error) => error,
    };
    assert!(matches!(
        error,
        PrepareError::RepresentationExceeded {
            resource: PreparedResource::OutputBytes,
            required: Some(required),
            maximum: 7,
        } if required > 7
    ));

    let spans = shared_doubling(tag(1, laidout::doc::empty()), 2);
    assert!(matches!(
        prepare_with_limits(&spans, BoundLimits { spans: 3, ..BoundLimits::production() }),
        Err(PrepareError::RepresentationExceeded {
            resource: PreparedResource::SpanOccurrences,
            required: Some(required),
            maximum: 3,
        }) if required > 3
    ));

    let plans = shared_doubling(text("x"), 3);
    assert!(matches!(
        prepare_with_limits(&plans, BoundLimits { plan_nodes: 20, ..BoundLimits::production() }),
        Err(PrepareError::RepresentationExceeded {
            resource: PreparedResource::PlanNodes,
            required: Some(required),
            maximum: 20,
        }) if required > 20
    ));
}
#[test]
fn advisory_work_overflow_does_not_reject_a_fast_usable_document() {
    let mut doc = text("x");
    for _ in 0..128 {
        doc = choice(doc.clone(), doc);
    }
    let prepared = Doc::prepare(&doc).unwrap();
    assert_eq!(prepared.bounds().candidate_emissions_upper(), None);
    assert_eq!(prepared.bounds().solve_work_items_upper(), None);
}
