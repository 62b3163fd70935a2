use hill_descent_lib::world::regions::region::process_region::{lifecycle_offspring, truncation_keep};
use hill_descent_lib::world::regions::update_carrying_capacities::split_equally;

#[test]
fn equal_split_gives_the_remainder_to_the_first_regions() {
    assert_eq!(split_equally(100, 3), vec![34, 33, 33]);
    assert_eq!(split_equally(10, 4), vec![3, 3, 2, 2]);
    assert_eq!(split_equally(2, 5), vec![1, 1, 0, 0, 0]);
}

#[test]
fn equal_split_adds_up_to_the_total() {
    for total in 0..40usize {
        for regions in 1..7usize {
            let split = split_equally(total, regions);
            assert_eq!(split.len(), regions);
            assert_eq!(split.iter().sum::<usize>(), total);
        }
    }
}

#[test]
fn truncation_keeps_the_capacity_when_over_it() {
    assert_eq!(truncation_keep(Some(3), 5), 3);
    assert_eq!(truncation_keep(Some(5), 3), 3);
    assert_eq!(truncation_keep(Some(0), 4), 4);
    assert_eq!(truncation_keep(None, 4), 4);
}

#[test]
fn lifecycle_asks_for_what_fills_the_capacity() {
    assert_eq!(lifecycle_offspring(Some(10), 4), 6);
    assert_eq!(lifecycle_offspring(Some(4), 4), 0);
    assert_eq!(lifecycle_offspring(Some(2), 4), 0);
    assert_eq!(lifecycle_offspring(None, 0), 0);
    let kept = truncation_keep(Some(7), 12);
    assert_eq!(kept + lifecycle_offspring(Some(7), kept), 7);
}
