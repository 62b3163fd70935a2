use hill_descent_lib::world::regions::zone_calculator::ZoneCalculator;

#[test]
fn test_are_adjacent_same_region() {
    assert!(!ZoneCalculator::are_adjacent(&[1, 2], &[1, 2]));
}

#[test]
fn test_are_adjacent_chebyshev_distance_1() {
    assert!(ZoneCalculator::are_adjacent(&[1, 2], &[2, 2]));
    assert!(ZoneCalculator::are_adjacent(&[1, 2], &[1, 3]));
    assert!(ZoneCalculator::are_adjacent(&[1, 2], &[2, 3]));
}

#[test]
fn test_are_adjacent_chebyshev_distance_greater_than_1() {
    assert!(!ZoneCalculator::are_adjacent(&[1, 2], &[3, 2]));
    assert!(!ZoneCalculator::are_adjacent(&[1, 1], &[3, 3]));
}

#[test]
fn test_are_adjacent_different_dimensions() {
    assert!(!ZoneCalculator::are_adjacent(&[1, 2], &[1]));
    assert!(!ZoneCalculator::are_adjacent(&[1], &[1, 2]));
}

#[test]
fn mod_test_single_region() {
    let mut calculator = ZoneCalculator::new();
    let regions = vec![vec![1, 2]];
    let zones = calculator.calculate_zones(&regions);

    assert_eq!(zones.len(), 1);
    assert_eq!(zones[0], vec![vec![1, 2]]);
}

#[test]
fn test_two_adjacent_regions() {
    let mut calculator = ZoneCalculator::new();
    let regions = vec![vec![1, 2], vec![2, 2]];
    let zones = calculator.calculate_zones(&regions);

    assert_eq!(zones.len(), 1);
    assert_eq!(zones[0].len(), 2);
    assert!(zones[0].contains(&vec![1, 2]));
    assert!(zones[0].contains(&vec![2, 2]));
}

#[test]
fn test_two_non_adjacent_regions() {
    let mut calculator = ZoneCalculator::new();
    let regions = vec![vec![1, 1], vec![3, 3]];
    let zones = calculator.calculate_zones(&regions);

    assert_eq!(zones.len(), 2);
    for zone in &zones {
        assert_eq!(zone.len(), 1);
    }
}

#[test]
fn test_complex_adjacency_chain() {
    let mut calculator = ZoneCalculator::new();
    let regions = vec![vec![1, 1], vec![1, 2], vec![1, 3], vec![5, 5]];
    let zones = calculator.calculate_zones(&regions);

    assert_eq!(zones.len(), 2);

    let mut zone_sizes: Vec<usize> = zones.iter().map(|z| z.len()).collect();
    zone_sizes.sort();
    assert_eq!(zone_sizes, vec![1, 3]);
}

#[test]
fn mod_test_empty_regions() {
    let mut calculator = ZoneCalculator::new();
    let regions: Vec<Vec<usize>> = vec![];
    let zones = calculator.calculate_zones(&regions);

    assert!(zones.is_empty());
}

#[test]
fn test_3d_adjacency() {
    let mut calculator = ZoneCalculator::new();
    let regions = vec![vec![1, 1, 1], vec![1, 1, 2], vec![3, 3, 3]];
    let zones = calculator.calculate_zones(&regions);

    assert_eq!(zones.len(), 2);

    let mut zone_sizes: Vec<usize> = zones.iter().map(|z| z.len()).collect();
    zone_sizes.sort();
    assert_eq!(zone_sizes, vec![1, 2]);
}

#[test]
fn test_generate_potential_neighbors_2d() {
    let region = vec![5, 5];
    let neighbors = ZoneCalculator::generate_potential_neighbors(&region);

    assert_eq!(neighbors.len(), 8);

    let expected = vec![
        vec![4, 4],
        vec![4, 5],
        vec![4, 6],
        vec![5, 4],
        vec![5, 6],
        vec![6, 4],
        vec![6, 5],
        vec![6, 6],
    ];

    for expected_neighbor in expected {
        assert!(
            neighbors.contains(&expected_neighbor),
            "Missing neighbor: {:?}",
            expected_neighbor
        );
    }
}

#[test]
fn test_generate_potential_neighbors_boundary_case() {
    let region = vec![0, 1];
    let neighbors = ZoneCalculator::generate_potential_neighbors(&region);

    assert!(neighbors.len() <= 8);

    for neighbor in &neighbors {
        assert!(
            neighbor.iter().all(|&coord| coord < usize::MAX),
            "Neighbor contains underflow: {:?}",
            neighbor
        );
    }
}

#[test]
fn test_spatial_indexing_performance() {
    let mut calculator = ZoneCalculator::new();

    let mut regions = Vec::new();
    for x in 0..20 {
        for y in 0..20 {
            regions.push(vec![x, y]);
        }
    }

    let zones = calculator.calculate_zones(&regions);

    assert_eq!(zones.len(), 1);
    assert_eq!(zones[0].len(), 400);
}

#[test]
fn test_spatial_index_correctness() {
    let mut calculator = ZoneCalculator::new();
    let regions = vec![vec![1, 1], vec![1, 2], vec![2, 1], vec![5, 5]];

    let zones_optimized = calculator.calculate_zones(&regions);

    calculator.parent.clear();
    calculator.rank.clear();
    calculator.spatial_index.clear();
    calculator.initialize_union_find(&regions);
    calculator.union_adjacent_regions(&regions);
    let zones_brute_force = calculator.group_regions_by_zone(&regions);

    assert_eq!(zones_optimized.len(), zones_brute_force.len());

    let mut opt_sizes: Vec<usize> = zones_optimized.iter().map(|z| z.len()).collect();
    let mut brute_sizes: Vec<usize> = zones_brute_force.iter().map(|z| z.len()).collect();
    opt_sizes.sort();
    brute_sizes.sort();

    assert_eq!(opt_sizes, brute_sizes);
}

#[test]
fn neighbours_come_first_dimension_fastest() {
    let neighbors = ZoneCalculator::generate_potential_neighbors(&[5, 5]);
    let expected = vec![
        vec![4, 4],
        vec![5, 4],
        vec![6, 4],
        vec![4, 5],
        vec![6, 5],
        vec![4, 6],
        vec![5, 6],
        vec![6, 6],
    ];
    assert_eq!(neighbors, expected);
}

#[test]
fn neighbours_skip_the_step_below_zero() {
    let neighbors = ZoneCalculator::generate_potential_neighbors(&[0, 1]);
    let expected = vec![vec![0, 0], vec![1, 0], vec![1, 1], vec![0, 2], vec![1, 2]];
    assert_eq!(neighbors, expected);
}

#[test]
fn the_empty_key_has_only_itself_as_candidate() {
    let neighbors = ZoneCalculator::generate_potential_neighbors(&[]);
    assert_eq!(neighbors, vec![Vec::<usize>::new()]);
}

#[test]
fn one_dimensional_neighbours() {
    assert_eq!(ZoneCalculator::generate_potential_neighbors(&[3]), vec![vec![2], vec![4]]);
    assert_eq!(ZoneCalculator::generate_potential_neighbors(&[0]), vec![vec![1]]);
}

#[test]
fn equal_keys_share_a_zone_in_input_order() {
    let mut calculator = ZoneCalculator::new();
    let regions = vec![vec![7, 7], vec![0, 0], vec![7, 7], vec![1, 1]];
    let zones = calculator.calculate_zones(&regions);

    assert_eq!(zones.len(), 2);
    assert_eq!(zones[0], vec![vec![7, 7], vec![7, 7]]);
    assert_eq!(zones[1], vec![vec![0, 0], vec![1, 1]]);
}

#[test]
fn diagonal_chains_join_zones() {
    let mut calculator = ZoneCalculator::new();
    let regions = vec![vec![0, 0], vec![2, 2], vec![1, 1], vec![4, 0]];
    let zones = calculator.calculate_zones(&regions);

    assert_eq!(zones, vec![vec![vec![0, 0], vec![2, 2], vec![1, 1]], vec![vec![4, 0]]]);
}

#[test]
fn keys_of_different_dimensions_are_never_adjacent() {
    let mut calculator = ZoneCalculator::new();
    let regions = vec![vec![1], vec![1, 1]];
    let zones = calculator.calculate_zones(&regions);
    assert_eq!(zones, vec![vec![vec![1]], vec![vec![1, 1]]]);
}

#[test]
fn brute_force_and_indexed_unions_agree_on_zones() {
    let regions = vec![vec![3, 3], vec![0, 0], vec![1, 0], vec![4, 4], vec![9, 9], vec![2, 0]];
    let mut indexed = ZoneCalculator::default();
    let zones_indexed = indexed.calculate_zones(&regions);

    let mut brute = ZoneCalculator::new();
    brute.initialize_union_find(&regions);
    brute.union_adjacent_regions(&regions);
    let zones_brute = brute.group_regions_by_zone(&regions);

    assert_eq!(zones_indexed, zones_brute);
    assert_eq!(
        zones_indexed,
        vec![
            vec![vec![3, 3], vec![4, 4]],
            vec![vec![0, 0], vec![1, 0], vec![2, 0]],
            vec![vec![9, 9]],
        ]
    );
}

#[test]
fn a_second_calculation_starts_afresh() {
    let mut calculator = ZoneCalculator::new();
    let first = calculator.calculate_zones(&[vec![0], vec![1], vec![2]]);
    assert_eq!(first.len(), 1);
    let second = calculator.calculate_zones(&[vec![0], vec![5]]);
    assert_eq!(second, vec![vec![vec![0]], vec![vec![5]]]);
}
