use hill_descent_lib::world::regions::derive_region_seed::derive_region_seed;
use xxhash_rust::xxh3::xxh3_64;

#[test]
fn given_same_world_seed_and_key_when_derive_then_same_result() {
    assert_eq!(derive_region_seed(12345, &[0, 1, 2]), derive_region_seed(12345, &[0, 1, 2]));
}

#[test]
fn given_different_world_seeds_when_derive_then_different_results() {
    assert_ne!(derive_region_seed(12345, &[0, 1, 2]), derive_region_seed(67890, &[0, 1, 2]));
}

#[test]
fn given_different_region_keys_when_derive_then_different_results() {
    assert_ne!(derive_region_seed(12345, &[0, 1, 2]), derive_region_seed(12345, &[0, 1, 3]));
}

#[test]
fn given_empty_region_key_when_derive_then_returns_valid_seed() {
    assert_ne!(derive_region_seed(12345, &[]), 0);
}

#[test]
fn given_large_region_key_when_derive_then_returns_valid_seed() {
    let large_key: Vec<usize> = (0..100).collect();
    assert_ne!(derive_region_seed(12345, &large_key), 0);
}

#[test]
fn seed_is_the_hash_of_the_little_endian_bytes() {
    let mut bytes: Vec<u8> = 12345u64.to_le_bytes().to_vec();
    for idx in [0u64, 1, 2] {
        bytes.extend_from_slice(&idx.to_le_bytes());
    }
    assert_eq!(derive_region_seed(12345, &[0, 1, 2]), xxh3_64(&bytes));
    assert_eq!(derive_region_seed(7, &[]), xxh3_64(&7u64.to_le_bytes()));
}

#[test]
fn key_order_matters() {
    assert_ne!(derive_region_seed(1, &[1, 2]), derive_region_seed(1, &[2, 1]));
}
