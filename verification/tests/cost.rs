use laidout::cost::{ConsumerCost, CostModel, OverflowThenHeight, PreparedConsumerCostModel, ResearchConsumerCostModel};
use laidout::doc::{measured_columns, WidthMode};

#[test]
fn every_compact_cost_operation_is_exact_at_its_accepted_boundary() {
    let almost_maximum = ConsumerCost {
        overflow: u128::MAX - 1,
        burden: u64::MAX - 1,
    };
    assert_eq!(
        almost_maximum
            .checked_add(ConsumerCost {
                overflow: 1,
                burden: 1,
            })
            .unwrap(),
        ConsumerCost {
            overflow: u128::MAX,
            burden: u64::MAX,
        }
    );
    assert!(ConsumerCost {
        overflow: u128::MAX,
        burden: 0,
    }
    .checked_add(ConsumerCost {
        overflow: 1,
        burden: 0,
    })
    .is_none());
    assert!(ConsumerCost {
        overflow: 0,
        burden: u64::MAX,
    }
    .checked_add(ConsumerCost {
        overflow: 0,
        burden: 1,
    })
    .is_none());

    let model = PreparedConsumerCostModel::new(0, u32::MAX);
    let maximum_line = model.text(0, u32::MAX).unwrap();
    assert_eq!(
        maximum_line.overflow,
        u128::from(u32::MAX) * u128::from(u32::MAX)
    );
    assert_eq!(model.newline().burden, u64::from(u32::MAX));
    assert_eq!(model.penalty(u32::MAX).burden, u64::from(u32::MAX));
    assert!(model.text(1, u32::MAX).is_none());
}

#[test]
fn secondary_saturation_would_destroy_preferred_strict_order() {
    let preferred = (0u128, 1u64);
    let later = (0u128, 0u64);
    assert!(later < preferred);
    let suffix = u64::MAX;
    assert_eq!(
        preferred.1.saturating_add(suffix),
        later.1.saturating_add(suffix)
    );
    assert!(ConsumerCost {
        overflow: preferred.0,
        burden: preferred.1,
    }
    .checked_add(ConsumerCost {
        overflow: 0,
        burden: suffix,
    })
    .is_none());
}

#[test]
fn cost_order_is_overflow_first_then_burden() {
    let a = ConsumerCost { overflow: 0, burden: 9 };
    let b = ConsumerCost { overflow: 1, burden: 0 };
    assert!(a.is_cheaper_than(&b));
    assert!(!b.is_cheaper_than(&a));
    assert!(a.is_at_most(&a));
    assert!(!a.is_cheaper_than(&a));
    assert!(ConsumerCost { overflow: 2, burden: 1 }.is_cheaper_than(&ConsumerCost { overflow: 2, burden: 3 }));
}

#[test]
fn zero_is_the_identity_of_checked_addition() {
    let c = ConsumerCost { overflow: 17, burden: 4 };
    assert_eq!(c.checked_add(ConsumerCost::zero()), Some(c));
    assert_eq!(ConsumerCost::zero().checked_add(c), Some(c));
    assert_eq!(c.overflow(), 17);
    assert_eq!(c.burden(), 4);
}

#[test]
fn text_cost_squares_the_overflow_beyond_the_width() {
    let model = PreparedConsumerCostModel::new(10, 3);
    assert_eq!(model.over(13), 3);
    assert_eq!(model.over(7), 0);
    assert_eq!(model.text(8, 5), Some(ConsumerCost { overflow: 9, burden: 0 }));
    assert_eq!(model.text(0, 10), Some(ConsumerCost { overflow: 0, burden: 0 }));
    assert_eq!(model.newline(), ConsumerCost { overflow: 0, burden: 3 });
    assert_eq!(model.penalty(5), ConsumerCost { overflow: 0, burden: 5 });
}

#[test]
fn research_and_height_models_charge_as_documented() {
    let research = ResearchConsumerCostModel::new(4).with_newline_cost(2);
    assert_eq!(research.over(6), 2);
    assert_eq!(CostModel::text(&research, 3, 3), Some(ConsumerCost { overflow: 4, burden: 0 }));
    assert_eq!(CostModel::newline(&research), ConsumerCost { overflow: 0, burden: 2 });
    let height = OverflowThenHeight { width: 4 };
    assert_eq!(CostModel::newline(&height), ConsumerCost { overflow: 0, burden: 1 });
    assert_eq!(CostModel::penalty(&height, 9), ConsumerCost::zero());
    assert_eq!(CostModel::text(&height, 2, 4), Some(ConsumerCost { overflow: 4, burden: 0 }));
}

#[test]
fn display_width_follows_the_unicode_policy() {
    assert_eq!(laidout::cost::display_width("abc"), Some(3));
    assert_eq!(laidout::cost::display_width("界"), Some(2));
    assert_eq!(measured_columns("·", WidthMode::Narrow, 0), Ok(1));
    assert_eq!(measured_columns("·", WidthMode::Cjk, 0), Ok(2));
}
