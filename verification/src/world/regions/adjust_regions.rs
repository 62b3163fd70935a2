use vstd::prelude::*;

verus! {

/// Outcome of adjusting the regions after the organisms have been placed.
#[derive(Debug)]
pub enum AdjustRegionsResult {
    /// The dimension at `dimension_index` was divided, or its limits adjusted.
    DimensionExpanded { dimension_index: usize },
    /// The target number of regions is already reached.
    ExpansionNotNecessary,
    /// No further expansion is possible: precision limit or no variation.
    AtResolutionLimit,
}

/// The outcome of adjusting the regions: no expansion once the regions reach their
/// target; otherwise the most diverse dimension expands when it could be divided or,
/// failing that, its limits adjusted; without such a dimension (no variation), or
/// when neither worked, the resolution limit is reached.
pub open spec fn adjust_outcome(
    region_count: usize,
    target_regions: usize,
    most_diverse_dimension: Option<usize>,
    divided: bool,
    limits_adjusted: bool,
) -> AdjustRegionsResult {
    if region_count >= target_regions {
        AdjustRegionsResult::ExpansionNotNecessary
    } else {
        match most_diverse_dimension {
            Some(dimension_index) => if divided || limits_adjusted {
                AdjustRegionsResult::DimensionExpanded { dimension_index }
            } else {
                AdjustRegionsResult::AtResolutionLimit
            },
            None => AdjustRegionsResult::AtResolutionLimit,
        }
    }
}

/// Decides the outcome of adjusting the regions from the number of regions, their
/// target, the most diverse dimension of the most populous region (if any varies),
/// whether dividing that dimension succeeded, and, when it did not, whether
/// adjusting its limits did.
pub fn adjust_regions_outcome(
    region_count: usize,
    target_regions: usize,
    most_diverse_dimension: Option<usize>,
    divided: bool,
    limits_adjusted: bool,
) -> (result: AdjustRegionsResult)
    ensures
        result == adjust_outcome(
            region_count,
            target_regions,
            most_diverse_dimension,
            divided,
            limits_adjusted,
        ),
{
    if region_count >= target_regions {
        return AdjustRegionsResult::ExpansionNotNecessary;
    }
    match most_diverse_dimension {
        Some(dimension_index) => {
            if divided || limits_adjusted {
                AdjustRegionsResult::DimensionExpanded { dimension_index }
            } else {
                AdjustRegionsResult::AtResolutionLimit
            }
        },
        None => AdjustRegionsResult::AtResolutionLimit,
    }
}

/// No expansion is needed exactly when the regions reach their target. A dimension
/// expands exactly when the regions are below target, a most diverse dimension
/// exists and dividing it or adjusting its limits worked, and the dimension that
/// expands is that most diverse one. Otherwise the resolution limit is reached.
pub proof fn law_adjust_outcome(
    region_count: usize,
    target_regions: usize,
    most_diverse_dimension: Option<usize>,
    divided: bool,
    limits_adjusted: bool,
)
    ensures
        (adjust_outcome(region_count, target_regions, most_diverse_dimension, divided, limits_adjusted)
            is ExpansionNotNecessary) <==> region_count >= target_regions,
        (adjust_outcome(region_count, target_regions, most_diverse_dimension, divided, limits_adjusted)
            is DimensionExpanded) <==> (region_count < target_regions && most_diverse_dimension is Some
            && (divided || limits_adjusted)),
        adjust_outcome(region_count, target_regions, most_diverse_dimension, divided, limits_adjusted)
            matches AdjustRegionsResult::DimensionExpanded { dimension_index } ==> most_diverse_dimension
            == Some(dimension_index),
{
}

} // verus!
