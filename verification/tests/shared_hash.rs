use recency_cache::shared_hash::fingerprint::{fingerprint, KeyBuildHasher, PROTOCOL};
use recency_cache::shared_hash::token::{Key, KeyRef};
use recency_cache::shared_hash::DhCache;
use std::collections::hash_map::RandomState;
use std::hash::BuildHasher;

fn reference_put(entries: &mut Vec<(u32, u32)>, capacity: usize, key: u32, value: u32) {
    if capacity == 0 {
        return;
    }
    if let Some(place) = entries.iter().position(|entry| entry.0 == key) {
        entries.remove(place);
    } else if entries.len() == capacity {
        entries.remove(0);
    }
    entries.push((key, value));
}

fn reference_get(entries: &mut Vec<(u32, u32)>, key: u32) -> Option<u32> {
    let place = entries.iter().position(|entry| entry.0 == key)?;
    let entry = entries.remove(place);
    entries.push(entry);
    Some(entry.1)
}

#[test]
fn the_protocol_signals_by_length_first_and_submits_a_u64() {
    assert_eq!(PROTOCOL, 5);
}

#[test]
fn a_new_cache_is_empty() {
    let mut cache = DhCache::<&str, u32, u8>::new(2);
    assert_eq!(cache.len(), 0);
    assert_eq!(cache.get(&"A"), None);
    assert_eq!(cache.len(), 0);
}

#[test]
fn the_oldest_entry_leaves_a_full_cache() {
    let mut cache = DhCache::<&str, u32, u8>::new(2);
    cache.put("A", 1);
    cache.put("B", 2);
    cache.put("C", 3);
    assert_eq!(cache.get(&"A"), None);
    assert_eq!(cache.get(&"B"), Some(&2));
    assert_eq!(cache.get(&"C"), Some(&3));
}

#[test]
fn a_get_saves_an_entry_from_eviction() {
    let mut cache = DhCache::<&str, u32, u8>::new(2);
    cache.put("A", 1);
    cache.put("B", 2);
    assert_eq!(cache.get(&"A"), Some(&1));
    cache.put("C", 3);
    assert_eq!(cache.get(&"A"), Some(&1));
    assert_eq!(cache.get(&"B"), None);
    assert_eq!(cache.get(&"C"), Some(&3));
}

#[test]
fn a_cache_of_capacity_zero_evicts_at_once() {
    let mut cache = DhCache::<&str, u32, u8>::new(0);
    cache.put("A", 1);
    assert_eq!(cache.len(), 0);
    assert_eq!(cache.get(&"A"), None);
    cache.put("A", 2);
    cache.put("B", 3);
    assert_eq!(cache.len(), 0);
    assert_eq!(cache.get(&"A"), None);
    assert_eq!(cache.get(&"B"), None);
}

#[test]
fn the_size_never_exceeds_the_capacity() {
    let mut cache = DhCache::<u32, u32, u16>::new(3);
    let mut key = 0u32;
    while key < 50 {
        cache.put(key, key);
        let expected = if key < 3 { key as usize + 1 } else { 3 };
        assert_eq!(cache.len(), expected);
        key += 1;
    }
    assert_eq!(cache.get(&46), None);
    assert_eq!(cache.get(&47), Some(&47));
    assert_eq!(cache.get(&48), Some(&48));
    assert_eq!(cache.get(&49), Some(&49));
    assert_eq!(cache.len(), 3);
}

#[test]
fn one_put_beyond_the_capacity_evicts_the_first_put() {
    let mut cache = DhCache::<u32, u32, u8>::new(4);
    cache.put(10, 1);
    cache.put(11, 2);
    cache.put(12, 3);
    cache.put(13, 4);
    assert_eq!(cache.len(), 4);
    cache.put(14, 5);
    assert_eq!(cache.len(), 4);
    assert_eq!(cache.get(&10), None);
    assert_eq!(cache.get(&11), Some(&2));
    assert_eq!(cache.get(&12), Some(&3));
    assert_eq!(cache.get(&13), Some(&4));
    assert_eq!(cache.get(&14), Some(&5));
}

#[test]
fn a_touched_entry_is_evicted_after_all_others() {
    let mut cache = DhCache::<&str, u32, u8>::new(3);
    cache.put("A", 1);
    cache.put("B", 2);
    cache.put("C", 3);
    assert_eq!(cache.get(&"A"), Some(&1));
    cache.put("D", 4);
    cache.put("E", 5);
    assert_eq!(cache.len(), 3);
    cache.put("F", 6);
    assert_eq!(cache.get(&"B"), None);
    assert_eq!(cache.get(&"C"), None);
    assert_eq!(cache.get(&"A"), None);
    assert_eq!(cache.get(&"D"), Some(&4));
    assert_eq!(cache.get(&"E"), Some(&5));
    assert_eq!(cache.get(&"F"), Some(&6));
}

#[test]
fn a_replacing_put_makes_the_entry_the_newest() {
    let mut cache = DhCache::<&str, u32, u8>::new(2);
    cache.put("A", 1);
    cache.put("B", 2);
    cache.put("A", 10);
    cache.put("C", 3);
    assert_eq!(cache.get(&"B"), None);
    assert_eq!(cache.get(&"A"), Some(&10));
    assert_eq!(cache.get(&"C"), Some(&3));
}

#[test]
fn a_second_put_replaces_the_value_and_keeps_the_size() {
    let mut cache = DhCache::<&str, u32, u8>::new(3);
    cache.put("K", 1);
    assert_eq!(cache.len(), 1);
    cache.put("K", 2);
    assert_eq!(cache.len(), 1);
    assert_eq!(cache.get(&"K"), Some(&2));
    assert_eq!(cache.len(), 1);
}

#[test]
fn a_miss_changes_nothing() {
    let mut cache = DhCache::<&str, u32, u8>::new(2);
    cache.put("A", 1);
    cache.put("B", 2);
    assert_eq!(cache.get(&"X"), None);
    assert_eq!(cache.get(&"Y"), None);
    assert_eq!(cache.len(), 2);
    cache.put("C", 3);
    assert_eq!(cache.get(&"A"), None);
    assert_eq!(cache.get(&"B"), Some(&2));
    assert_eq!(cache.get(&"C"), Some(&3));
}

#[test]
fn keys_with_one_fingerprint_are_separate_entries() {
    let mut cache = DhCache::<&str, u32, u8>::new(2);
    cache.put_key(Key::new("A", 7), 1);
    cache.put_key(Key::new("B", 7), 2);
    assert_eq!(cache.len(), 2);
    let a = "A";
    let b = "B";
    let c = "C";
    assert_eq!(cache.get_key(KeyRef::new(&a, 7)), Some(&1));
    assert_eq!(cache.get_key(KeyRef::new(&b, 7)), Some(&2));
    assert_eq!(cache.get_key(KeyRef::new(&c, 7)), None);
    cache.put_key(Key::new("C", 7), 3);
    assert_eq!(cache.len(), 2);
    assert_eq!(cache.get_key(KeyRef::new(&a, 7)), None);
    assert_eq!(cache.get_key(KeyRef::new(&b, 7)), Some(&2));
    assert_eq!(cache.get_key(KeyRef::new(&c, 7)), Some(&3));
}

#[test]
fn a_key_token_is_its_key_and_its_fingerprint() {
    let mut cache = DhCache::<&str, u32, u8>::new(4);
    cache.put_key(Key::new("A", 1), 10);
    cache.put_key(Key::new("A", 2), 20);
    assert_eq!(cache.len(), 2);
    let a = "A";
    assert_eq!(cache.get_key(KeyRef::new(&a, 1)), Some(&10));
    assert_eq!(cache.get_key(KeyRef::new(&a, 2)), Some(&20));
    assert_eq!(cache.get_key(KeyRef::new(&a, 3)), None);
    cache.put_key(Key::new("A", 1), 11);
    assert_eq!(cache.len(), 2);
    assert_eq!(cache.get_key(KeyRef::new(&a, 1)), Some(&11));
}

#[test]
fn the_counter_running_out_is_not_seen() {
    let mut cache = DhCache::<u32, u32, u8>::new(3);
    let mut reference: Vec<(u32, u32)> = Vec::new();
    let mut seed = 12345u32;
    let mut step = 0u32;
    while step < 5000 {
        seed = seed.wrapping_mul(1_103_515_245).wrapping_add(12_345);
        let key = (seed >> 16) % 6;
        if (seed >> 8) % 2 == 0 {
            cache.put(key, step);
            reference_put(&mut reference, 3, key, step);
        } else {
            let expected = reference_get(&mut reference, key);
            assert_eq!(cache.get(&key).copied(), expected);
        }
        assert_eq!(cache.len(), reference.len());
        step += 1;
    }
}

#[test]
fn a_cache_as_large_as_its_stamps_allow() {
    let mut cache = DhCache::<u32, u32, u8>::new(255);
    let mut reference: Vec<(u32, u32)> = Vec::new();
    let mut seed = 99u32;
    let mut step = 0u32;
    while step < 4000 {
        seed = seed.wrapping_mul(1_103_515_245).wrapping_add(12_345);
        let key = (seed >> 16) % 300;
        if (seed >> 8) % 3 != 0 {
            cache.put(key, step);
            reference_put(&mut reference, 255, key, step);
        } else {
            let expected = reference_get(&mut reference, key);
            assert_eq!(cache.get(&key).copied(), expected);
        }
        assert_eq!(cache.len(), reference.len());
        step += 1;
    }
    assert_eq!(cache.len(), 255);
}

#[test]
fn a_cache_of_one_entry() {
    let mut cache = DhCache::<&str, u32, u8>::new(1);
    cache.put("A", 1);
    assert_eq!(cache.get(&"A"), Some(&1));
    cache.put("B", 2);
    assert_eq!(cache.get(&"A"), None);
    assert_eq!(cache.get(&"B"), Some(&2));
    let mut touch = 0u32;
    while touch < 600 {
        assert_eq!(cache.get(&"B"), Some(&2));
        touch += 1;
    }
    assert_eq!(cache.len(), 1);
}

#[test]
fn owned_keys_work_as_well() {
    let mut cache = DhCache::<String, Vec<u8>, u64>::new(2);
    cache.put(String::from("alpha"), vec![1]);
    cache.put(String::from("beta"), vec![2, 2]);
    assert_eq!(cache.get(&String::from("alpha")), Some(&vec![1]));
    cache.put(String::from("gamma"), vec![3, 3, 3]);
    assert_eq!(cache.get(&String::from("beta")), None);
    assert_eq!(cache.get(&String::from("alpha")), Some(&vec![1]));
    assert_eq!(cache.get(&String::from("gamma")), Some(&vec![3, 3, 3]));
}

#[test]
fn a_fingerprint_is_one_ordinary_hash_of_the_key() {
    let state = RandomState::new();
    let build: KeyBuildHasher = hash_injector::SignalledInjectionBuildHasher::new(state.clone());
    assert_eq!(fingerprint(&"A", build.build_hasher()), state.hash_one("A"));
    assert_eq!(fingerprint(&17u64, build.build_hasher()), state.hash_one(17u64));
    assert_eq!(
        fingerprint(&String::from("a longer key"), build.build_hasher()),
        state.hash_one(String::from("a longer key"))
    );
    assert_eq!(
        fingerprint(&(1u8, -2i64, 3u128), build.build_hasher()),
        state.hash_one((1u8, -2i64, 3u128))
    );
}

#[test]
fn tokens_made_from_a_hasher_carry_the_fingerprint() {
    let state = RandomState::new();
    let build: KeyBuildHasher = hash_injector::SignalledInjectionBuildHasher::new(state.clone());
    let owned = Key::new_from_hasher("A", build.build_hasher());
    assert_eq!(owned.k, "A");
    assert_eq!(owned.hash, state.hash_one("A"));
    let key = "B";
    let borrowed = KeyRef::new_from_hasher(&key, build.build_hasher());
    assert_eq!(*borrowed.key_ref, "B");
    assert_eq!(borrowed.hash, state.hash_one("B"));
}

#[test]
fn one_fingerprint_for_every_key_changes_nothing() {
    let mut cache = DhCache::<u32, u32, u8>::new(5);
    let mut reference: Vec<(u32, u32)> = Vec::new();
    let mut seed = 2024u32;
    let mut step = 0u32;
    while step < 3000 {
        seed = seed.wrapping_mul(1_103_515_245).wrapping_add(12_345);
        let key = (seed >> 16) % 9;
        if (seed >> 8) % 2 == 0 {
            cache.put_key(Key::new(key, 7), step);
            reference_put(&mut reference, 5, key, step);
        } else {
            let expected = reference_get(&mut reference, key);
            assert_eq!(cache.get_key(KeyRef::new(&key, 7)).copied(), expected);
        }
        assert_eq!(cache.len(), reference.len());
        step += 1;
    }
}

#[test]
fn wide_stamps_behave_as_narrow_ones() {
    let mut narrow = DhCache::<u32, u32, u8>::new(3);
    let mut wide = DhCache::<u32, u32, u128>::new(3);
    let mut seed = 31u32;
    let mut step = 0u32;
    while step < 2000 {
        seed = seed.wrapping_mul(1_103_515_245).wrapping_add(12_345);
        let key = (seed >> 16) % 5;
        if (seed >> 8) % 2 == 0 {
            narrow.put(key, step);
            wide.put(key, step);
        } else {
            assert_eq!(narrow.get(&key).copied(), wide.get(&key).copied());
        }
        assert_eq!(narrow.len(), wide.len());
        step += 1;
    }
}
