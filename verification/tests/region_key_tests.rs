use std::borrow::Borrow;
use std::collections::HashMap;
use std::sync::Arc;

use hill_descent_lib::world::regions::region::region_key::RegionKey;

#[test]
fn given_values_when_new_then_creates_region_key() {
    let values = vec![1, 2, 3];
    let key = RegionKey::new(values.clone());

    assert_eq!(key.values(), &values[..]);
    assert_eq!(key.len(), 3);
    assert!(!key.is_empty());
}

#[test]
fn given_empty_values_when_new_then_is_empty() {
    let key = RegionKey::new(vec![]);

    assert!(key.is_empty());
    assert_eq!(key.len(), 0);
}

#[test]
fn given_same_values_when_compare_then_equal() {
    let key1 = RegionKey::new(vec![1, 2, 3]);
    let key2 = RegionKey::new(vec![1, 2, 3]);

    assert_eq!(key1, key2);
    assert_eq!(key1.hash(), key2.hash());
}

#[test]
fn given_different_values_when_compare_then_not_equal() {
    let key1 = RegionKey::new(vec![1, 2, 3]);
    let key2 = RegionKey::new(vec![1, 2, 4]);

    assert_ne!(key1, key2);
}

#[test]
fn given_permuted_values_when_compare_then_not_equal() {
    let key1 = RegionKey::new(vec![1, 2, 3]);
    let key2 = RegionKey::new(vec![3, 2, 1]);

    assert_ne!(key1, key2);
    assert_ne!(key1.hash(), key2.hash());
}

#[test]
fn given_region_key_when_update_position_mut_then_updates_correctly() {
    let mut key = RegionKey::new(vec![1, 2, 3]);
    key.update_position(1, 5);
    assert_eq!(key.values(), &[1, 5, 3]);

    let expected = RegionKey::new(vec![1, 5, 3]);
    assert_eq!(key.hash(), expected.hash());
}

#[test]
fn given_region_key_when_update_position_then_creates_new_key_with_correct_values() {
    let key1 = RegionKey::new(vec![1, 2, 3]);
    let key2 = key1.with_updated_position(1, 5);

    assert_eq!(key1.values(), &[1, 2, 3]);
    assert_eq!(key2.values(), &[1, 5, 3]);
}

#[test]
fn given_region_key_when_update_position_then_hash_matches_fresh_computation() {
    let key1 = RegionKey::new(vec![10, 20, 30]);
    let key2 = key1.with_updated_position(1, 99);

    let key3 = RegionKey::new(vec![10, 99, 30]);

    assert_eq!(key2.values(), key3.values());
    assert_eq!(key2.hash(), key3.hash());
    assert_eq!(key2, key3);
}

#[test]
fn given_region_key_when_update_multiple_positions_then_hash_correct() {
    let key1 = RegionKey::new(vec![1, 2, 3, 4, 5]);
    let key2 = key1.with_updated_position(0, 10);
    let key3 = key2.with_updated_position(4, 50);

    let expected = RegionKey::new(vec![10, 2, 3, 4, 50]);

    assert_eq!(key3, expected);
    assert_eq!(key3.hash(), expected.hash());
}

#[test]
fn given_region_key_when_clone_then_shares_underlying_data() {
    let key1 = RegionKey::new(vec![1, 2, 3]);
    let key2 = key1.clone();

    assert_eq!(key1, key2);
    assert!(Arc::ptr_eq(&key1.values, &key2.values));
}

#[test]
fn given_region_keys_when_used_as_hashmap_keys_then_works_correctly() {
    let mut map = HashMap::new();
    let key1 = RegionKey::new(vec![1, 2, 3]);
    let key2 = RegionKey::new(vec![4, 5, 6]);
    let key3 = RegionKey::new(vec![1, 2, 3]);

    map.insert(key1.clone(), "first");
    map.insert(key2.clone(), "second");

    assert_eq!(map.get(&key1), Some(&"first"));
    assert_eq!(map.get(&key2), Some(&"second"));
    assert_eq!(map.get(&key3), Some(&"first"));
    assert_eq!(map.len(), 2);
}

#[test]
fn given_vec_when_from_vec_then_creates_region_key() {
    let vec = vec![1, 2, 3];
    let key = RegionKey::from(vec.clone());

    assert_eq!(key.values(), &vec[..]);
}

#[test]
fn given_slice_when_from_slice_then_creates_region_key() {
    let slice: &[usize] = &[1, 2, 3];
    let key = RegionKey::from(slice);

    assert_eq!(key.values(), slice);
}

#[test]
fn given_region_key_when_into_vec_then_clones_values() {
    let key = RegionKey::new(vec![1, 2, 3]);
    let vec: Vec<usize> = key.clone().into();

    assert_eq!(vec, vec![1, 2, 3]);
}

#[test]
fn given_region_key_ref_when_into_vec_then_clones_values() {
    let key = RegionKey::new(vec![1, 2, 3]);
    let vec: Vec<usize> = (&key).into();

    assert_eq!(vec, vec![1, 2, 3]);
}

#[test]
fn given_region_key_when_as_ref_then_returns_slice() {
    let key = RegionKey::new(vec![1, 2, 3]);
    let slice: &[usize] = key.as_ref();

    assert_eq!(slice, &[1, 2, 3]);
}

#[test]
fn given_region_key_when_borrow_then_returns_slice() {
    let key = RegionKey::new(vec![1, 2, 3]);
    let slice: &[usize] = key.borrow();

    assert_eq!(slice, &[1, 2, 3]);
}

#[test]
fn given_different_positions_same_value_when_hash_then_different() {
    let key1 = RegionKey::new(vec![5, 0, 0]);
    let key2 = RegionKey::new(vec![0, 5, 0]);
    let key3 = RegionKey::new(vec![0, 0, 5]);

    assert_ne!(key1.hash(), key2.hash());
    assert_ne!(key2.hash(), key3.hash());
    assert_ne!(key1.hash(), key3.hash());
}

#[test]
#[should_panic]
fn given_out_of_bounds_position_when_update_then_panics() {
    let key = RegionKey::new(vec![1, 2, 3]);
    let _ = key.with_updated_position(10, 99);
}

#[test]
fn given_hash_collision_when_compare_then_equal_in_release() {
    let key1 = RegionKey::new(vec![1, 2, 3]);

    let key2 = RegionKey {
        values: Arc::new(vec![9, 9, 9]),
        hash: key1.hash,
    };

    assert_eq!(key1, key2);
    assert_eq!(key1.hash, key2.hash);
}

#[test]
fn position_hash_mixes_value_then_position_with_fnv() {
    assert_eq!(RegionKey::position_hash(0, 0), 590684067820433389);
    assert_eq!(RegionKey::position_hash(1, 5), 585902291750289875);
}

#[test]
fn full_hash_is_xor_of_position_hashes() {
    assert_eq!(RegionKey::new(vec![1, 2, 3]).hash(), 586485032914778104);
    assert_eq!(RegionKey::new(vec![]).hash(), 0);
    let expected = RegionKey::position_hash(0, 7) ^ RegionKey::position_hash(1, 8);
    assert_eq!(RegionKey::new(vec![7, 8]).hash(), expected);
}

#[test]
fn in_place_and_copying_updates_agree() {
    let shared = RegionKey::new(vec![4, 4, 4, 4]);
    let copied = shared.with_updated_position(2, 11);
    let mut in_place = shared.clone();
    in_place.update_position(2, 11);

    assert_eq!(copied.values(), in_place.values());
    assert_eq!(copied.hash(), in_place.hash());
    // the shared key is left untouched by the copy-on-write update
    assert_eq!(shared.values(), &[4, 4, 4, 4]);
}

#[test]
fn updating_back_restores_the_hash() {
    let key = RegionKey::new(vec![3, 1, 4, 1, 5]);
    let there = key.with_updated_position(3, 9);
    let back = there.with_updated_position(3, 1);

    assert_ne!(there.hash(), key.hash());
    assert_eq!(back.hash(), key.hash());
    assert_eq!(back, key);
}

#[test]
fn ordering_follows_the_hash_only() {
    let low = RegionKey { values: Arc::new(vec![9]), hash: 1 };
    let high = RegionKey { values: Arc::new(vec![0]), hash: 2 };
    let same_as_low = RegionKey { values: Arc::new(vec![5, 5]), hash: 1 };

    assert!(low < high);
    assert!(high > low);
    assert_eq!(low.partial_cmp(&same_as_low), Some(std::cmp::Ordering::Equal));
}

#[test]
fn a_clone_keeps_its_values_when_the_key_is_updated_in_place() {
    let mut key = RegionKey::new(vec![1, 2, 3]);
    let shared = key.clone();
    let old_hash = key.hash();
    key.update_position(1, 5);

    assert_eq!(key.values(), &[1, 5, 3]);
    assert_eq!(key.hash(), RegionKey::new(vec![1, 5, 3]).hash());
    assert_eq!(shared.values(), &[1, 2, 3]);
    assert_eq!(shared.hash(), old_hash);
}
