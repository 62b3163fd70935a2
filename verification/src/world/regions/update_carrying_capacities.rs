use vstd::prelude::*;

verus! {

/// The sum of a sequence of capacities.
pub open spec fn capacity_sum(capacities: Seq<usize>) -> nat
    decreases capacities.len(),
{
    if capacities.len() == 0 {
        0
    } else {
        capacity_sum(capacities.drop_last()) + capacities.last() as nat
    }
}

/// The capacity of the `i`-th of `regions` regions sharing `total` equally: the
/// quotient, plus one for each of the first `total % regions` regions.
pub open spec fn equal_share(total: nat, regions: nat, i: int) -> nat {
    total / regions + if i < total % regions {
        1nat
    } else {
        0nat
    }
}

/// Splits the total population size equally among `regions` regions (those whose
/// best score gives them unbounded fitness), the first `total % regions` regions
/// taking one more.
pub fn split_equally(total_population_size: usize, regions: usize) -> (capacities: Vec<usize>)
    requires
        regions > 0,
    ensures
        capacities@.len() == regions,
        forall|i: int|
            0 <= i < regions ==> #[trigger] capacities@[i] == equal_share(
                total_population_size as nat,
                regions as nat,
                i,
            ),
        capacity_sum(capacities@) == total_population_size,
{
    let per_region = total_population_size / regions;
    let remainder = total_population_size % regions;
    let mut capacities: Vec<usize> = Vec::new();
    let mut i: usize = 0;
    proof {
        assert(per_region * regions + remainder == total_population_size) by (nonlinear_arith)
            requires
                per_region == total_population_size / regions,
                remainder == total_population_size % regions,
                regions > 0,
        ;
    }
    while i < regions
        invariant
            per_region == total_population_size / regions,
            remainder == total_population_size % regions,
            remainder < regions,
            per_region * regions + remainder == total_population_size,
            i <= regions,
            capacities@.len() == i,
            forall|t: int|
                0 <= t < i ==> #[trigger] capacities@[t] == equal_share(
                    total_population_size as nat,
                    regions as nat,
                    t,
                ),
            capacity_sum(capacities@) == per_region * i + if i < remainder {
                i as nat
            } else {
                remainder as nat
            },
        decreases regions - i,
    {
        proof {
            assert(per_region * i <= per_region * regions) by (nonlinear_arith)
                requires
                    i <= regions,
            ;
            assert(per_region * (i + 1) == per_region * i + per_region) by (nonlinear_arith);
            assert(per_region <= per_region * regions) by (nonlinear_arith)
                requires
                    regions >= 1,
            ;
        }
        let capacity = if i < remainder {
            per_region + 1
        } else {
            per_region
        };
        let ghost before = capacities@;
        capacities.push(capacity);
        proof {
            assert(capacities@.drop_last() == before);
        }
        i = i + 1;
    }
    capacities
}

} // verus!
