use hill_descent_lib::world::regions::adjust_regions::{adjust_regions_outcome, AdjustRegionsResult};

#[test]
fn target_reached_needs_no_expansion() {
    assert!(matches!(
        adjust_regions_outcome(1, 1, Some(0), true, true),
        AdjustRegionsResult::ExpansionNotNecessary
    ));
    assert!(matches!(
        adjust_regions_outcome(5, 2, None, false, false),
        AdjustRegionsResult::ExpansionNotNecessary
    ));
}

#[test]
fn a_varying_dimension_that_divides_expands() {
    assert!(matches!(
        adjust_regions_outcome(1, 10, Some(0), true, false),
        AdjustRegionsResult::DimensionExpanded { dimension_index: 0 }
    ));
}

#[test]
fn no_variation_reaches_the_resolution_limit() {
    assert!(matches!(
        adjust_regions_outcome(1, 10, None, false, false),
        AdjustRegionsResult::AtResolutionLimit
    ));
}

#[test]
fn adjusted_limits_expand_when_division_fails() {
    assert!(matches!(
        adjust_regions_outcome(1, 2, Some(3), false, true),
        AdjustRegionsResult::DimensionExpanded { dimension_index: 3 }
    ));
    assert!(matches!(
        adjust_regions_outcome(1, 2, Some(3), false, false),
        AdjustRegionsResult::AtResolutionLimit
    ));
}
