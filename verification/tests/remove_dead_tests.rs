use hill_descent_lib::world::remove_dead::{live_organisms, remove_dead};

#[test]
fn given_no_dead_organisms_when_remove_dead_then_world_unchanged() {
    let organisms = vec![true; 30];
    let regions = vec![vec![true; 12], vec![true; 10], vec![true; 8]];
    let (kept, kept_regions) = remove_dead(&organisms, &regions);
    assert_eq!(kept.len(), 30);
    assert_eq!(kept_regions.len(), regions.len());
}

#[test]
fn dead_organisms_are_dropped_in_order() {
    assert_eq!(live_organisms(&[true, false, true, false, false, true]), vec![0, 2, 5]);
    assert_eq!(live_organisms(&[]), Vec::<usize>::new());
}

#[test]
fn regions_left_empty_are_dropped() {
    let organisms = vec![false, true, false, false];
    let regions = vec![vec![false, false], vec![true, false], vec![false]];
    let (kept, kept_regions) = remove_dead(&organisms, &regions);
    assert_eq!(kept, vec![1]);
    assert_eq!(kept_regions, vec![(1, vec![0])]);
}

#[test]
fn all_dead_leaves_an_empty_world() {
    let (kept, kept_regions) = remove_dead(&[false; 5], &[vec![false; 3], vec![false; 2]]);
    assert!(kept.is_empty());
    assert!(kept_regions.is_empty());
}
