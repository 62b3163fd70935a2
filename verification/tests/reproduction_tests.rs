use hill_descent_lib::world::regions::region::pair_organisms_for_reproduction::{
    pair_organisms_for_reproduction, pair_organisms_for_reproduction_at,
};
use hill_descent_lib::world::regions::region::reproduce::{
    reproduction_pass_sizes, reproduction_plan, ReproductionPlan, REPRODUCTION_FACTOR,
};

fn offspring(number_to_reproduce: usize, population: usize, capacity: Option<usize>) -> usize {
    match reproduction_plan(number_to_reproduce, population, capacity) {
        Some(plan) => reproduction_pass_sizes(&plan, number_to_reproduce).iter().sum(),
        None => 0,
    }
}

#[test]
fn given_empty_organisms_when_pair_organisms_then_returns_empty_pairs() {
    assert!(pair_organisms_for_reproduction(0).is_empty());
}

#[test]
fn given_single_organism_when_pair_organisms_then_pairs_with_itself() {
    assert_eq!(pair_organisms_for_reproduction(1), vec![(0, 0)]);
}

#[test]
fn given_two_organisms_when_pair_organisms_then_pairs_first_with_last() {
    assert_eq!(pair_organisms_for_reproduction(2), vec![(0, 1)]);
}

#[test]
fn given_three_organisms_when_pair_organisms_then_duplicates_top_performer() {
    assert_eq!(pair_organisms_for_reproduction(3), vec![(0, 2), (0, 1)]);
}

#[test]
fn given_four_organisms_when_pair_organisms_then_pairs_extremes() {
    assert_eq!(pair_organisms_for_reproduction(4), vec![(0, 3), (1, 2)]);
}

#[test]
fn given_five_organisms_when_pair_organisms_then_duplicates_top_and_pairs_extremes() {
    assert_eq!(pair_organisms_for_reproduction(5), vec![(0, 4), (0, 3), (1, 2)]);
}

#[test]
fn given_six_organisms_when_pair_organisms_then_pairs_all_extremes() {
    assert_eq!(pair_organisms_for_reproduction(6), vec![(0, 5), (1, 4), (2, 3)]);
}

#[test]
fn pairs_one_at_a_time_match_the_full_list() {
    for count in 1..12 {
        let all = pair_organisms_for_reproduction(count);
        for (i, pair) in all.iter().enumerate() {
            assert_eq!(pair_organisms_for_reproduction_at(count, i), *pair);
        }
    }
}

#[test]
fn every_organism_takes_part_in_a_pair() {
    for count in 1..12 {
        let all = pair_organisms_for_reproduction(count);
        for k in 0..count {
            assert!(all.iter().any(|&(a, b)| a == k || b == k));
        }
    }
}

#[test]
fn given_even_r_when_reproduce_then_returns_r_offspring() {
    assert_eq!(offspring(4, 4, None), 4);
}

#[test]
fn given_odd_r_when_reproduce_then_returns_r_offspring() {
    assert_eq!(offspring(3, 5, None), 3);
}

#[test]
fn given_zero_r_when_reproduce_then_returns_empty_vec() {
    assert_eq!(reproduction_plan(0, 1, None), None);
    assert_eq!(offspring(0, 1, None), 0);
}

#[test]
fn given_empty_region_when_reproduce_then_returns_empty_vec() {
    assert_eq!(reproduction_plan(3, 0, None), None);
}

#[test]
fn given_one_parent_when_reproduce_then_one_offspring_asexual() {
    assert_eq!(offspring(1, 1, None), 1);
}

#[test]
fn given_r_exceeds_parents_when_reproduce_then_all_parents_used() {
    let plan = reproduction_plan(5, 2, None).unwrap();
    assert_eq!(plan.parents_required, 2);
    assert_eq!(offspring(5, 2, None), 2);
}

#[test]
fn given_single_organism_when_reproduce_multiple_passes_then_produces_multiple_offspring() {
    assert_eq!(offspring(3, 1, Some(100)), 3);
}

#[test]
fn given_two_organisms_when_reproduce_multiple_passes_then_produces_multiple_offspring() {
    let plan = reproduction_plan(6, 2, Some(100)).unwrap();
    assert_eq!(reproduction_pass_sizes(&plan, 6), vec![2, 2, 2]);
    assert_eq!(offspring(6, 2, Some(100)), 6);
}

#[test]
fn given_reproduction_factor_limit_when_reproduce_then_stops_at_factor_limit() {
    assert_eq!(offspring(10, 1, Some(100)), 3);
    assert_eq!(REPRODUCTION_FACTOR, 3);
}

#[test]
fn given_sufficient_parents_when_reproduce_single_pass_then_no_multiple_passes() {
    let plan = reproduction_plan(4, 4, None).unwrap();
    assert_eq!(plan.max_passes, 1);
    assert_eq!(offspring(4, 4, None), 4);
}

#[test]
fn given_odd_number_organisms_when_reproduce_multiple_passes_then_handles_asexual_correctly() {
    assert_eq!(offspring(9, 3, Some(100)), 9);
}

#[test]
fn given_no_carrying_capacity_when_reproduce_then_single_pass_only() {
    assert_eq!(offspring(5, 1, None), 1);
}

#[test]
fn given_carrying_capacity_exceeded_when_reproduce_then_single_pass_only() {
    let plan = reproduction_plan(5, 3, Some(5)).unwrap();
    assert_eq!(plan, ReproductionPlan { parents_required: 3, max_offspring_per_pass: 3, max_passes: 1 });
    assert_eq!(offspring(5, 3, Some(5)), 3);
}

#[test]
fn a_capacity_just_reached_still_allows_several_passes() {
    let plan = reproduction_plan(4, 1, Some(5)).unwrap();
    assert_eq!(plan.max_passes, REPRODUCTION_FACTOR);
    assert_eq!(reproduction_pass_sizes(&plan, 4), vec![1, 1, 1]);
}

#[test]
fn passes_stop_once_enough_offspring_were_made() {
    let plan = ReproductionPlan { parents_required: 2, max_offspring_per_pass: 2, max_passes: 3 };
    assert_eq!(reproduction_pass_sizes(&plan, 3), vec![2, 1]);
    assert_eq!(reproduction_pass_sizes(&plan, 0), Vec::<usize>::new());
}

#[test]
fn a_pass_yields_at_most_two_offspring_per_pair() {
    let plan = ReproductionPlan { parents_required: 1, max_offspring_per_pass: 5, max_passes: 2 };
    assert_eq!(reproduction_pass_sizes(&plan, 10), vec![2, 2]);
}

fn pairs_one_by_one(count: usize) -> Vec<(usize, usize)> {
    let total = count / 2 + count % 2;
    (0..total).map(|i| pair_organisms_for_reproduction_at(count, i)).collect()
}

#[test]
fn given_empty_organisms_when_pair_organisms_iter_then_returns_empty() {
    assert!(pairs_one_by_one(0).is_empty());
}

#[test]
fn given_single_organism_when_pair_organisms_iter_then_pairs_with_itself() {
    assert_eq!(pairs_one_by_one(1), vec![(0, 0)]);
}

#[test]
fn given_two_organisms_when_pair_organisms_iter_then_pairs_first_with_last() {
    assert_eq!(pairs_one_by_one(2), vec![(0, 1)]);
}

#[test]
fn given_three_organisms_when_pair_organisms_iter_then_duplicates_top_performer() {
    assert_eq!(pairs_one_by_one(3), vec![(0, 2), (0, 1)]);
}

#[test]
fn given_four_organisms_when_pair_organisms_iter_then_pairs_extremes() {
    assert_eq!(pairs_one_by_one(4), vec![(0, 3), (1, 2)]);
}

#[test]
fn given_five_organisms_when_pair_organisms_iter_then_duplicates_top_and_pairs_extremes() {
    assert_eq!(pairs_one_by_one(5), vec![(0, 4), (0, 3), (1, 2)]);
}
