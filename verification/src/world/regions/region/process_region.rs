use vstd::prelude::*;

verus! {

/// The number of organisms a region keeps when it truncates to its carrying
/// capacity: with a positive capacity that the population exceeds, the first
/// `capacity` of the ranking; otherwise all of them.
pub open spec fn kept_after_truncation(carrying_capacity: Option<usize>, population: nat) -> nat {
    match carrying_capacity {
        Some(capacity) => if capacity > 0 && population > capacity {
            capacity as nat
        } else {
            population
        },
        None => population,
    }
}

/// The number of offspring a region asks for: what its carrying capacity leaves
/// free above the current population, and none without a capacity.
pub open spec fn offspring_wanted(carrying_capacity: Option<usize>, current: nat) -> nat {
    match carrying_capacity {
        Some(capacity) => if current < capacity {
            (capacity - current) as nat
        } else {
            0
        },
        None => 0,
    }
}

/// Returns how many organisms of a ranked population survive truncation to the
/// carrying capacity; the others, from that position on, are marked dead. A
/// capacity of zero, or none at all, truncates nothing.
pub fn truncation_keep(carrying_capacity: Option<usize>, population: usize) -> (kept: usize)
    ensures
        kept == kept_after_truncation(carrying_capacity, population as nat),
{
    match carrying_capacity {
        Some(capacity) => if capacity > 0 && population > capacity {
            capacity
        } else {
            population
        },
        None => population,
    }
}

/// Returns how many offspring a region of `current` organisms reproduces in its
/// lifecycle: up to its carrying capacity, and none without one.
pub fn lifecycle_offspring(carrying_capacity: Option<usize>, current: usize) -> (wanted: usize)
    ensures
        wanted == offspring_wanted(carrying_capacity, current as nat),
{
    match carrying_capacity {
        Some(capacity) => if current < capacity {
            capacity - current
        } else {
            0
        },
        None => 0,
    }
}

/// After truncation a region with a positive capacity asks for just the offspring
/// that fill it: the kept organisms and the offspring asked for make up the
/// capacity.
pub proof fn law_lifecycle_fills_capacity(capacity: usize, population: nat)
    requires
        capacity > 0,
    ensures
        kept_after_truncation(Some(capacity), population) + offspring_wanted(
            Some(capacity),
            kept_after_truncation(Some(capacity), population),
        ) == capacity,
{
}

} // verus!
