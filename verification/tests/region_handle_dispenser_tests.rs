use hill_descent_lib::world::regions::region_handle_dispenser::{RegionHandle, RegionHandleDispenser};

fn h(id: usize, z: usize) -> RegionHandle {
    RegionHandle::new(id, z)
}

#[test]
fn given_empty_map_when_query_any_key_then_returns_empty_neighbors() {
    let dispenser = RegionHandleDispenser::default();
    let res = dispenser.get_adjacent_full_keys(&[1, 2, 3]);
    assert!(res.is_empty());
}

#[test]
fn given_populated_map_when_query_key_then_returns_existing_adjacents_in_dimension_order() {
    let dispenser = RegionHandleDispenser::from_parts(
        vec![
            (vec![3, 5, 6], h(1, 10)),
            (vec![5, 5, 6], h(2, 10)),
            (vec![4, 4, 6], h(3, 10)),
            (vec![4, 6, 6], h(4, 10)),
            (vec![4, 5, 5], h(5, 10)),
            (vec![4, 5, 7], h(6, 10)),
            (vec![4, 5, 8], h(7, 11)),
        ],
        0,
        0,
    );

    let res = dispenser.get_adjacent_full_keys(&[4, 5, 6]);

    let expected = vec![
        vec![3, 5, 6],
        vec![5, 5, 6],
        vec![4, 4, 6],
        vec![4, 6, 6],
        vec![4, 5, 5],
        vec![4, 5, 7],
    ];
    assert_eq!(res, expected);
}

#[test]
fn given_key_with_zero_coordinate_when_query_then_no_minus_neighbor_for_that_dim() {
    let dispenser = RegionHandleDispenser::from_parts(
        vec![(vec![1, 5], h(1, 1)), (vec![0, 4], h(2, 1)), (vec![0, 6], h(3, 1))],
        0,
        0,
    );

    let res = dispenser.get_adjacent_full_keys(&[0, 5]);
    let expected = vec![vec![1, 5], vec![0, 4], vec![0, 6]];
    assert_eq!(res, expected);
}

#[test]
fn given_key_with_usize_max_when_query_then_no_plus_neighbor_for_that_dim() {
    let umax = usize::MAX;
    let dispenser = RegionHandleDispenser::from_parts(
        vec![(vec![umax - 1, 10], h(1, 1)), (vec![umax, 9], h(2, 1)), (vec![umax, 11], h(3, 1))],
        0,
        0,
    );

    let res = dispenser.get_adjacent_full_keys(&[umax, 10]);
    let expected = vec![vec![umax - 1, 10], vec![umax, 9], vec![umax, 11]];
    assert_eq!(res, expected);
}

#[test]
fn given_existing_key_when_get_or_insert_then_returns_existing_handle_and_no_change() {
    let mut d = RegionHandleDispenser::from_parts(vec![(vec![1, 2], h(42, 7))], 5, 3);

    let got = d.get_or_insert(&[1, 2]);
    assert_eq!(got.id(), 42);
    assert_eq!(got.adjacent_zone_id(), 7);
    assert_eq!(d.next_id(), 5);
    assert_eq!(d.next_adjacent_zone_id(), 3);
    assert_eq!(d.len(), 1);
}

#[test]
fn given_no_neighbors_when_get_or_insert_then_allocates_new_zone_and_id() {
    let mut d = RegionHandleDispenser::from_parts(vec![(vec![100, 100], h(1, 99))], 0, 0);

    let got = d.get_or_insert(&[4, 5]);
    assert_eq!(got.id(), 0);
    assert_eq!(got.adjacent_zone_id(), 0);
    assert_eq!(d.next_id(), 1);
    assert_eq!(d.next_adjacent_zone_id(), 1);
    assert_eq!(d.get(&[4, 5]), Some(got));
}

#[test]
fn given_single_neighbor_zone_when_get_or_insert_then_reuses_that_zone() {
    let mut d = RegionHandleDispenser::from_parts(vec![(vec![4, 6], h(10, 7))], 0, 0);

    let got = d.get_or_insert(&[4, 5]);
    assert_eq!(got.id(), 0);
    assert_eq!(got.adjacent_zone_id(), 7);
    assert_eq!(d.next_adjacent_zone_id(), 0);
    assert_eq!(d.next_id(), 1);
}

#[test]
fn given_multiple_neighbor_zones_when_get_or_insert_then_merges_and_uses_min_zone() {
    let mut d = RegionHandleDispenser::from_parts(
        vec![(vec![3, 5], h(1, 10)), (vec![5, 5], h(2, 2))],
        0,
        0,
    );

    let got = d.get_or_insert(&[4, 5]);
    assert_eq!(got.adjacent_zone_id(), 2);
    assert_eq!(got.id(), 0);
    assert_eq!(d.get(&[3, 5]).unwrap().adjacent_zone_id(), 2);
    assert_eq!(d.get(&[5, 5]).unwrap().adjacent_zone_id(), 2);
    assert_eq!(d.next_adjacent_zone_id(), 0);
    assert_eq!(d.next_id(), 1);
}

#[test]
fn given_empty_input_when_merge_zones_then_no_changes() {
    let mut d = RegionHandleDispenser::from_parts(
        vec![(vec![1, 2], h(10, 5)), (vec![3, 4], h(11, 6))],
        0,
        0,
    );
    d.merge_zones(vec![]);

    assert_eq!(d.get(&[1, 2]).unwrap().adjacent_zone_id(), 5);
    assert_eq!(d.get(&[3, 4]).unwrap().adjacent_zone_id(), 6);
}

#[test]
fn given_single_zone_when_merge_zones_then_no_changes() {
    let mut d = RegionHandleDispenser::from_parts(vec![(vec![1], h(1, 7)), (vec![2], h(2, 8))], 0, 0);
    d.merge_zones(vec![7]);

    assert_eq!(d.get(&[1]).unwrap().adjacent_zone_id(), 7);
    assert_eq!(d.get(&[2]).unwrap().adjacent_zone_id(), 8);
}

#[test]
fn given_multiple_zones_when_merge_zones_then_all_mapped_to_min_canonical() {
    let mut d = RegionHandleDispenser::from_parts(
        vec![(vec![0], h(1, 10)), (vec![1], h(2, 12)), (vec![2], h(3, 11)), (vec![3], h(4, 99))],
        0,
        0,
    );

    d.merge_zones(vec![12, 11]);

    assert_eq!(d.get(&[0]).unwrap().adjacent_zone_id(), 10);
    assert_eq!(d.get(&[1]).unwrap().adjacent_zone_id(), 11);
    assert_eq!(d.get(&[2]).unwrap().adjacent_zone_id(), 11);
    assert_eq!(d.get(&[3]).unwrap().adjacent_zone_id(), 99);

    assert_eq!(d.get(&[1]).unwrap().id(), 2);
    assert_eq!(d.get(&[2]).unwrap().id(), 3);
}

#[test]
fn given_duplicates_and_missing_zones_when_merge_zones_then_only_present_zones_change() {
    let mut d = RegionHandleDispenser::from_parts(
        vec![(vec![10], h(10, 1)), (vec![11], h(11, 2)), (vec![12], h(12, 3))],
        0,
        0,
    );

    d.merge_zones(vec![2, 2, 3, 999]);

    assert_eq!(d.get(&[10]).unwrap().adjacent_zone_id(), 1);
    assert_eq!(d.get(&[11]).unwrap().adjacent_zone_id(), 2);
    assert_eq!(d.get(&[12]).unwrap().adjacent_zone_id(), 2);
}

#[test]
fn given_populated_state_when_reset_then_map_cleared_and_counters_zero() {
    let mut d = RegionHandleDispenser::from_parts(
        vec![(vec![1, 2, 3], h(10, 5)), (vec![4, 5, 6], h(11, 6))],
        123,
        456,
    );

    d.reset();

    assert!(d.is_empty());
    assert_eq!(d.next_id(), 0);
    assert_eq!(d.next_adjacent_zone_id(), 0);
}

#[test]
fn given_state_reset_when_insert_new_key_then_ids_restart_from_zero() {
    let mut d = RegionHandleDispenser::from_parts(vec![(vec![9, 9], h(99, 9))], 42, 7);
    d.reset();

    let handle = d.get_or_insert(&[1, 1]);
    assert_eq!(handle.id(), 0);
    assert_eq!(handle.adjacent_zone_id(), 0);
    assert_eq!(d.next_id(), 1);
    assert_eq!(d.next_adjacent_zone_id(), 1);
    assert_eq!(d.get(&[1, 1]), Some(handle));
}

#[test]
fn from_parts_keeps_the_last_pair_for_a_key() {
    let d = RegionHandleDispenser::from_parts(vec![(vec![1], h(1, 1)), (vec![1], h(2, 5))], 3, 6);
    assert_eq!(d.len(), 1);
    assert_eq!(d.get(&[1]), Some(h(2, 5)));
    assert!(d.contains_key(&[1]));
    assert!(!d.contains_key(&[2]));
}

#[test]
fn adjacent_inserts_end_in_one_zone_with_fresh_ids() {
    let mut d = RegionHandleDispenser::new();
    let a = d.get_or_insert(&[0, 0]);
    let b = d.get_or_insert(&[5, 5]);
    // [0,0] and [5,5] are far apart: two zones
    assert_eq!(a.adjacent_zone_id(), 0);
    assert_eq!(b.adjacent_zone_id(), 1);
    // fill the gap along the first axis and then the second axis
    for x in 1..6 {
        d.get_or_insert(&[x, 0]);
    }
    for y in 1..5 {
        d.get_or_insert(&[5, y]);
    }
    let zone = d.get(&[0, 0]).unwrap().adjacent_zone_id();
    assert_eq!(zone, 0);
    for x in 0..6 {
        assert_eq!(d.get(&[x, 0]).unwrap().adjacent_zone_id(), zone);
    }
    for y in 0..6 {
        assert_eq!(d.get(&[5, y]).unwrap().adjacent_zone_id(), zone);
    }
    // identifiers are handed out in order and never reused
    assert_eq!(d.len(), 11);
    assert_eq!(d.next_id(), 11);
    let mut ids: Vec<usize> = Vec::new();
    for x in 0..6 {
        ids.push(d.get(&[x, 0]).unwrap().id());
    }
    for y in 1..6 {
        ids.push(d.get(&[5, y]).unwrap().id());
    }
    ids.sort();
    assert_eq!(ids, (0..11).collect::<Vec<usize>>());
    // the zone counter only moved for the two fresh zones
    assert_eq!(d.next_adjacent_zone_id(), 2);
}

#[test]
fn diagonal_keys_are_not_axis_neighbours() {
    let mut d = RegionHandleDispenser::new();
    d.get_or_insert(&[1, 1]);
    let diagonal = d.get_or_insert(&[2, 2]);
    assert_eq!(diagonal.adjacent_zone_id(), 1);
    assert!(d.get_adjacent_full_keys(&[2, 2]).is_empty());
}

#[test]
fn merging_equal_zones_changes_nothing() {
    let mut d = RegionHandleDispenser::from_parts(vec![(vec![1], h(1, 7)), (vec![2], h(2, 8))], 4, 9);
    d.merge_zones(vec![8, 8, 8]);
    assert_eq!(d.get(&[1]), Some(h(1, 7)));
    assert_eq!(d.get(&[2]), Some(h(2, 8)));
    assert_eq!(d.next_id(), 4);
    assert_eq!(d.next_adjacent_zone_id(), 9);
}
