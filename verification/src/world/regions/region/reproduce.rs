use vstd::prelude::*;

use crate::world::regions::region::pair_organisms_for_reproduction::pair_count;

verus! {

/// The most reproduction passes a region makes when its population is low relative
/// to its carrying capacity.
pub const REPRODUCTION_FACTOR: usize = 3;

/// How a region reproduces: how many of its top-ranked organisms become parents,
/// how many offspring one pass may yield, and how many passes are allowed.
#[derive(Debug, Clone, Copy, PartialEq, Eq, Structural)]
pub struct ReproductionPlan {
    pub parents_required: usize,
    pub max_offspring_per_pass: usize,
    pub max_passes: usize,
}

/// The plan for producing `requested` offspring in a region of `population`
/// organisms: none when nothing is requested or nobody can reproduce. Otherwise the
/// top `min(requested, population)` organisms are parents, one pass yields at most
/// one offspring per parent, and several passes (up to the reproduction factor) are
/// allowed only when the region has a carrying capacity that the population and
/// the offspring together stay within, and one pass cannot satisfy the request.
pub open spec fn plan_for(requested: nat, population: nat, carrying_capacity: Option<usize>) -> Option<
    ReproductionPlan,
> {
    if requested == 0 || population == 0 {
        None
    } else {
        let parents = if requested < population {
            requested
        } else {
            population
        };
        let several = match carrying_capacity {
            Some(capacity) => population + requested <= capacity && requested > parents,
            None => false,
        };
        Some(
            ReproductionPlan {
                parents_required: parents as usize,
                max_offspring_per_pass: parents as usize,
                max_passes: if several {
                    REPRODUCTION_FACTOR
                } else {
                    1
                },
            },
        )
    }
}

/// Decides how a region of `population` organisms reproduces to yield
/// `number_to_reproduce` offspring.
pub fn reproduction_plan(number_to_reproduce: usize, population: usize, carrying_capacity: Option<usize>) -> (plan: Option<ReproductionPlan>)
    requires
        number_to_reproduce > 0 && population > 0 && carrying_capacity is Some ==> population
            + number_to_reproduce <= usize::MAX,
    ensures
        plan == plan_for(number_to_reproduce as nat, population as nat, carrying_capacity),
{
    if number_to_reproduce == 0 || population == 0 {
        return None;
    }
    let parents_required = if number_to_reproduce < population {
        number_to_reproduce
    } else {
        population
    };
    let several = match carrying_capacity {
        Some(capacity) => population + number_to_reproduce <= capacity && number_to_reproduce
            > parents_required,
        None => false,
    };
    let max_passes = if several {
        REPRODUCTION_FACTOR
    } else {
        1
    };
    Some(ReproductionPlan { parents_required, max_offspring_per_pass: parents_required, max_passes })
}

/// The offspring one pass yields when `remaining` are still wanted: at most the
/// pass limit, and at most two per pair of parents.
pub open spec fn pass_yield(plan: ReproductionPlan, remaining: nat) -> nat {
    let limit = if remaining < plan.max_offspring_per_pass {
        remaining
    } else {
        plan.max_offspring_per_pass as nat
    };
    let most = 2 * pair_count(plan.parents_required as nat);
    if limit < most {
        limit
    } else {
        most
    }
}

/// The offspring of each pass, in order, while passes are left and offspring are
/// still wanted.
pub open spec fn pass_sizes(plan: ReproductionPlan, remaining: nat, passes_left: nat) -> Seq<usize>
    decreases passes_left,
{
    if passes_left == 0 || remaining == 0 {
        seq![]
    } else {
        let yielded = pass_yield(plan, remaining);
        seq![yielded as usize] + pass_sizes(plan, (remaining - yielded) as nat, (passes_left - 1) as nat)
    }
}

/// The sum of a sequence of counts.
pub open spec fn total(sizes: Seq<usize>) -> nat
    decreases sizes.len(),
{
    if sizes.len() == 0 {
        0
    } else {
        sizes[0] as nat + total(sizes.drop_first())
    }
}

/// Returns how many offspring each reproduction pass yields under `plan` when
/// `number_to_reproduce` are wanted: passes run until enough offspring were made or
/// the passes allowed are used up, each yielding what is still wanted up to the
/// pass limit, and at most two offspring per pair of parents.
pub fn reproduction_pass_sizes(plan: &ReproductionPlan, number_to_reproduce: usize) -> (sizes: Vec<usize>)
    ensures
        sizes@ == pass_sizes(*plan, number_to_reproduce as nat, plan.max_passes as nat),
{
    let pairs = plan.parents_required / 2 + plan.parents_required % 2;
    let mut sizes: Vec<usize> = Vec::new();
    let mut remaining = number_to_reproduce;
    let mut pass: usize = 0;
    while pass < plan.max_passes && remaining > 0
        invariant
            pass <= plan.max_passes,
            pairs == pair_count(plan.parents_required as nat),
            sizes@ + pass_sizes(*plan, remaining as nat, (plan.max_passes - pass) as nat) == pass_sizes(
                *plan,
                number_to_reproduce as nat,
                plan.max_passes as nat,
            ),
        decreases plan.max_passes - pass,
    {
        let limit = if remaining < plan.max_offspring_per_pass {
            remaining
        } else {
            plan.max_offspring_per_pass
        };
        let yielded = if pairs > usize::MAX / 2 || limit < 2 * pairs {
            limit
        } else {
            2 * pairs
        };
        proof {
            assert(yielded == pass_yield(*plan, remaining as nat));
            let rest = pass_sizes(*plan, (remaining - yielded) as nat, (plan.max_passes - pass - 1) as nat);
            assert(pass_sizes(*plan, remaining as nat, (plan.max_passes - pass) as nat) == seq![yielded]
                + rest);
            assert(sizes@.push(yielded) + rest =~= sizes@ + (seq![yielded] + rest));
        }
        sizes.push(yielded);
        remaining = remaining - yielded;
        pass = pass + 1;
    }
    proof {
        assert(pass_sizes(*plan, remaining as nat, (plan.max_passes - pass) as nat) =~= Seq::empty());
        assert(sizes@ + Seq::<usize>::empty() =~= sizes@);
    }
    sizes
}

/// Under a plan made for a region, the passes together yield the requested number
/// of offspring, or as many as the passes allowed can yield at one per parent, when
/// that is fewer.
pub proof fn law_offspring_total(requested: nat, population: nat, carrying_capacity: Option<usize>)
    requires
        plan_for(requested, population, carrying_capacity) is Some,
    ensures
        ({
            let plan = plan_for(requested, population, carrying_capacity).unwrap();
            let most = (plan.max_passes as nat) * (plan.parents_required as nat);
            total(pass_sizes(plan, requested, plan.max_passes as nat)) == if requested < most {
                requested
            } else {
                most
            }
        }),
{
    let plan = plan_for(requested, population, carrying_capacity).unwrap();
    lemma_passes_total(plan, requested, plan.max_passes as nat);
}

/// With a pass limit of one offspring per parent, `k` passes yield the smaller of
/// what is wanted and `k` times the number of parents.
proof fn lemma_passes_total(plan: ReproductionPlan, remaining: nat, passes_left: nat)
    requires
        plan.max_offspring_per_pass == plan.parents_required,
    ensures
        total(pass_sizes(plan, remaining, passes_left)) == if remaining < passes_left
            * plan.parents_required {
            remaining
        } else {
            passes_left * (plan.parents_required as nat)
        },
    decreases passes_left,
{
    let p = plan.parents_required as nat;
    if passes_left == 0 || remaining == 0 {
        assert(passes_left * p == 0 || remaining == 0) by (nonlinear_arith)
            requires
                passes_left == 0 || remaining == 0,
        ;
    } else {
        assert(2 * pair_count(p) >= p);
        let yielded = pass_yield(plan, remaining);
        let rest = pass_sizes(plan, (remaining - yielded) as nat, (passes_left - 1) as nat);
        lemma_passes_total(plan, (remaining - yielded) as nat, (passes_left - 1) as nat);
        assert((seq![yielded as usize] + rest).drop_first() =~= rest);
        assert((passes_left - 1) * p + p == passes_left * p) by (nonlinear_arith);
        assert((passes_left - 1) * p >= 0) by (nonlinear_arith)
            requires
                passes_left >= 1,
        ;
    }
}

/// A plan exists exactly when offspring are requested from a populated region.
/// Its parents are the top organisms, as many as requested but no more than there
/// are: never more than the request nor than the population, and one of the two.
/// One pass yields at most one offspring per parent, and several passes are
/// allowed exactly when the region has a capacity that the population and the
/// offspring stay within and the request exceeds the population.
pub proof fn law_plan_chooses_top_parents(requested: nat, population: nat, carrying_capacity: Option<usize>)
    requires
        requested <= usize::MAX,
        population <= usize::MAX,
    ensures
        (plan_for(requested, population, carrying_capacity) is Some) <==> (requested > 0 && population
            > 0),
        plan_for(requested, population, carrying_capacity) matches Some(plan) ==> {
            &&& plan.parents_required <= requested
            &&& plan.parents_required <= population
            &&& (plan.parents_required == requested || plan.parents_required == population)
            &&& plan.max_offspring_per_pass == plan.parents_required
            &&& (plan.max_passes == REPRODUCTION_FACTOR) <==> (carrying_capacity matches Some(c) && population
                + requested <= c && requested > population)
            &&& plan.max_passes != REPRODUCTION_FACTOR ==> plan.max_passes == 1
        },
{
}

} // verus!
