use hill_descent_lib::world::regions::truncate_regions::truncation_marks;

#[test]
fn given_all_capacities_none_when_truncate_then_no_kill() {
    assert_eq!(truncation_marks(None, &[5, 3]), vec![false, false]);
}

#[test]
fn given_over_capacity_with_mixed_ages_when_truncate_then_only_older_removed() {
    // ranked best to worst: scores 1..5 carry ages 1, 1, 2, 3, 4
    let marks = truncation_marks(Some(2), &[1, 1, 2, 3, 4]);
    assert_eq!(marks, vec![false, false, true, true, true]);
}

#[test]
fn given_over_capacity_only_age1_when_truncate_then_no_kill_and_overflow_allowed() {
    assert_eq!(truncation_marks(Some(1), &[1, 1, 1]), vec![false, false, false]);
}

#[test]
fn within_capacity_nobody_is_culled() {
    assert_eq!(truncation_marks(Some(3), &[9, 9, 9]), vec![false, false, false]);
    assert_eq!(truncation_marks(Some(0), &[]), Vec::<bool>::new());
}

#[test]
fn the_worst_older_organisms_go_first() {
    // excess of two: the two worst organisms older than one generation
    let marks = truncation_marks(Some(3), &[5, 2, 7, 1, 4]);
    assert_eq!(marks, vec![false, false, true, false, true]);
}

#[test]
fn young_organisms_are_skipped_not_counted() {
    let marks = truncation_marks(Some(1), &[3, 0, 1, 2]);
    // excess three, but only two organisms are older than one generation
    assert_eq!(marks, vec![true, false, false, true]);
}
