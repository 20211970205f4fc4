use recency_cache::shared_hash::hasher::{SignalledInjectionBuildHasher, SignalledInjectionHasher};
use recency_cache::shared_hash::store::EntryStore;
use recency_cache::shared_hash::token::{Idx, Key, KeyAndIdx, KeyRef, Lookup};
use std::collections::hash_map::{DefaultHasher, RandomState};

fn token(key: &'static str, hash: u64, idx: u8) -> KeyAndIdx<&'static str, u8> {
    KeyAndIdx::new(Key::new(key, hash), Idx::new(idx, hash))
}

fn by_key<'a>(key: &'a &'static str, hash: u64) -> Lookup<'a, &'static str, u8> {
    Lookup::ByKey(KeyRef::new(key, hash))
}

fn by_index(idx: u8, hash: u64) -> Lookup<'static, &'static str, u8> {
    Lookup::ByIndex(Idx::new(idx, hash))
}

fn fresh_adapter() -> SignalledInjectionHasher<DefaultHasher> {
    SignalledInjectionBuildHasher::new(RandomState::new()).build_hasher()
}

#[test]
fn tokens_carry_what_they_were_made_of() {
    let idx = Idx::new(4u8, 77);
    assert_eq!(idx.idx, 4);
    assert_eq!(idx.hash, 77);
    let key = Key::new("A", 77);
    assert_eq!(key.k, "A");
    assert_eq!(key.hash, 77);
    let both = KeyAndIdx::new(key, idx);
    assert_eq!(both.key.k, "A");
    assert_eq!(both.key.hash, 77);
    assert_eq!(both.idx.idx, 4);
    assert_eq!(both.idx.hash, 77);
}

#[test]
fn every_token_shape_hashes_to_its_fingerprint() {
    let mut hasher = fresh_adapter();
    Idx::new(4u8, 1001).hash(&mut hasher);
    assert_eq!(hasher.finish(), 1001);

    let mut hasher = fresh_adapter();
    Key::new("A", 1002).hash(&mut hasher);
    assert_eq!(hasher.finish(), 1002);

    let key = "A";
    let mut hasher = fresh_adapter();
    KeyRef::new(&key, 1003).hash(&mut hasher);
    assert_eq!(hasher.finish(), 1003);

    let mut hasher = fresh_adapter();
    token("A", 1004, 9).hash(&mut hasher);
    assert_eq!(hasher.finish(), 1004);

    let mut hasher = fresh_adapter();
    by_key(&key, 1005).hash(&mut hasher);
    assert_eq!(hasher.finish(), 1005);

    let mut hasher = fresh_adapter();
    by_index(3, 1006).hash(&mut hasher);
    assert_eq!(hasher.finish(), 1006);
}

#[test]
fn the_table_hashes_a_question_to_its_fingerprint() {
    let store = EntryStore::<&str, u32, u8>::new();
    let key = "A";
    assert_eq!(store.bucket_key(&by_key(&key, 31)), 31);
    assert_eq!(store.bucket_key(&by_index(0, 32)), 32);
    assert_eq!(store.bucket_key(&by_index(0, u64::MAX)), u64::MAX);
}

#[test]
fn an_empty_store_answers_nothing() {
    let mut store = EntryStore::<&str, u32, u8>::new();
    let key = "A";
    assert!(store.get(&by_key(&key, 1)).is_none());
    assert!(store.get(&by_index(0, 1)).is_none());
    assert!(store.remove_entry(&by_key(&key, 1)).is_none());
    assert!(store.remove_entry(&by_index(0, 1)).is_none());
}

#[test]
fn an_entry_is_found_by_key_and_by_stamp() {
    let mut store = EntryStore::<&str, u32, u8>::new();
    store.insert(token("A", 10, 0), 100);
    store.insert(token("B", 20, 1), 200);
    let a = "A";
    let b = "B";
    assert_eq!(store.get(&by_key(&a, 10)), Some(&100));
    assert_eq!(store.get(&by_key(&b, 20)), Some(&200));
    assert_eq!(store.get(&by_index(0, 10)), Some(&100));
    assert_eq!(store.get(&by_index(1, 20)), Some(&200));
}

#[test]
fn a_question_with_another_fingerprint_finds_nothing() {
    let mut store = EntryStore::<&str, u32, u8>::new();
    store.insert(token("A", 10, 0), 100);
    let a = "A";
    assert!(store.get(&by_key(&a, 11)).is_none());
    assert!(store.get(&by_index(0, 11)).is_none());
    assert!(store.remove_entry(&by_key(&a, 11)).is_none());
    assert_eq!(store.get(&by_key(&a, 10)), Some(&100));
}

#[test]
fn a_question_with_the_fingerprint_of_another_entry_finds_nothing() {
    let mut store = EntryStore::<&str, u32, u8>::new();
    store.insert(token("A", 10, 0), 100);
    let b = "B";
    assert!(store.get(&by_key(&b, 10)).is_none());
    assert!(store.get(&by_index(1, 10)).is_none());
}

#[test]
fn keys_that_share_a_fingerprint_are_told_apart() {
    let mut store = EntryStore::<&str, u32, u8>::new();
    store.insert(token("A", 7, 0), 100);
    store.insert(token("B", 7, 1), 200);
    store.insert(token("C", 7, 2), 300);
    let a = "A";
    let b = "B";
    let c = "C";
    assert_eq!(store.get(&by_key(&a, 7)), Some(&100));
    assert_eq!(store.get(&by_key(&b, 7)), Some(&200));
    assert_eq!(store.get(&by_key(&c, 7)), Some(&300));
    assert_eq!(store.get(&by_index(0, 7)), Some(&100));
    assert_eq!(store.get(&by_index(1, 7)), Some(&200));
    assert_eq!(store.get(&by_index(2, 7)), Some(&300));

    let (removed, value) = store.remove_entry(&by_index(1, 7)).unwrap();
    assert_eq!(removed.key.k, "B");
    assert_eq!(removed.key.hash, 7);
    assert_eq!(removed.idx.idx, 1);
    assert_eq!(value, 200);
    assert_eq!(store.get(&by_key(&a, 7)), Some(&100));
    assert!(store.get(&by_key(&b, 7)).is_none());
    assert_eq!(store.get(&by_key(&c, 7)), Some(&300));
}

#[test]
fn remove_entry_by_key_returns_the_stored_pair() {
    let mut store = EntryStore::<&str, u32, u8>::new();
    store.insert(token("A", 10, 5), 100);
    let a = "A";
    let (removed, value) = store.remove_entry(&by_key(&a, 10)).unwrap();
    assert_eq!(removed.key.k, "A");
    assert_eq!(removed.key.hash, 10);
    assert_eq!(removed.idx.idx, 5);
    assert_eq!(removed.idx.hash, 10);
    assert_eq!(value, 100);
    assert!(store.get(&by_key(&a, 10)).is_none());
    assert!(store.get(&by_index(5, 10)).is_none());
    assert!(store.remove_entry(&by_key(&a, 10)).is_none());
}

#[test]
fn insert_replaces_the_stored_pair_as_a_whole() {
    let mut store = EntryStore::<&str, u32, u8>::new();
    store.insert(token("A", 10, 0), 100);
    store.insert(token("A", 10, 3), 101);
    let a = "A";
    assert_eq!(store.get(&by_key(&a, 10)), Some(&101));
    assert_eq!(store.get(&by_index(3, 10)), Some(&101));
    assert!(store.get(&by_index(0, 10)).is_none());
    let (removed, value) = store.remove_entry(&by_key(&a, 10)).unwrap();
    assert_eq!(removed.idx.idx, 3);
    assert_eq!(value, 101);
    assert!(store.remove_entry(&by_key(&a, 10)).is_none());
}
