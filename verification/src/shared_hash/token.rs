//! Fingerprinted tokens: what the entry store is asked with.
//!
//! A token carries the fingerprint of a key beside a payload. Whatever the
//! payload, the token hashes to the fingerprint, by injection.
use vstd::prelude::*;
use vstd::bytes::spec_u64_to_le_bytes;
use crate::shared_hash::fingerprint::{fingerprint, KeyHasher};
use crate::shared_hash::hasher::{signal_inject_hash, SignalState, SignalledInjectionHasher};
use crate::InsertionIndex;
use std::collections::hash_map::DefaultHasher;
use std::hash::Hash;

verus! {

/// An index token: the stamp of an entry, beside the fingerprint of its key.
#[derive(Clone, Copy)]
pub struct Idx<I: InsertionIndex> {
    pub hash: u64,
    pub idx: I,
}

impl<I: InsertionIndex> Idx<I> {
    pub fn new(idx: I, hash: u64) -> (token: Self)
        ensures
            token == (Idx { hash, idx }),
    {
        Idx { hash, idx }
    }

    /// Hashes the token: injects its fingerprint.
    pub fn hash(&self, state: &mut SignalledInjectionHasher<DefaultHasher>)
        ensures
            final(state).state() == SignalState::HashInjected(self.hash),
            final(state).digest() == self.hash,
            final(state).written() == old(state).written().push(spec_u64_to_le_bytes(self.hash)),
    {
        signal_inject_hash(state, self.hash);
    }
}

/// A key token: a key, beside its fingerprint.
pub struct Key<K> {
    pub hash: u64,
    pub k: K,
}

impl<K: Hash> Key<K> {
    pub fn new(k: K, hash: u64) -> (token: Self)
        ensures
            token == (Key { hash, k }),
    {
        Key { hash, k }
    }

    /// The token of `key`, with the fingerprint that one hash pass through
    /// `h` gives it. The hasher is used up, so that no second key goes
    /// through it.
    pub fn new_from_hasher(key: K, h: KeyHasher) -> (token: Self)
        ensures
            token.k == key,
    {
        let hash = fingerprint(&key, h);
        Key::new(key, hash)
    }

    /// Hashes the token: injects its fingerprint.
    pub fn hash(&self, state: &mut SignalledInjectionHasher<DefaultHasher>)
        ensures
            final(state).state() == SignalState::HashInjected(self.hash),
            final(state).digest() == self.hash,
            final(state).written() == old(state).written().push(spec_u64_to_le_bytes(self.hash)),
    {
        signal_inject_hash(state, self.hash);
    }
}

/// A key token that borrows its key.
pub struct KeyRef<'a, K> {
    pub hash: u64,
    pub key_ref: &'a K,
}

impl<'a, K: Hash> KeyRef<'a, K> {
    pub fn new(key_ref: &'a K, hash: u64) -> (token: Self)
        ensures
            token == (KeyRef { hash, key_ref }),
    {
        KeyRef { hash, key_ref }
    }

    /// The token of `key_ref`, with the fingerprint that one hash pass
    /// through `h` gives it.
    pub fn new_from_hasher(key_ref: &'a K, h: KeyHasher) -> (token: Self)
        ensures
            token.key_ref == key_ref,
    {
        let hash = fingerprint(key_ref, h);
        KeyRef::new(key_ref, hash)
    }

    /// Hashes the token: injects its fingerprint.
    pub fn hash(&self, state: &mut SignalledInjectionHasher<DefaultHasher>)
        ensures
            final(state).state() == SignalState::HashInjected(self.hash),
            final(state).digest() == self.hash,
            final(state).written() == old(state).written().push(spec_u64_to_le_bytes(self.hash)),
    {
        signal_inject_hash(state, self.hash);
    }

    /// The key token that owns what this one borrows.
    pub open spec fn owned(&self) -> Key<K> {
        Key { hash: self.hash, k: *self.key_ref }
    }
}

/// The token under which an entry is stored: its key and its stamp, both
/// with the one fingerprint.
pub struct KeyAndIdx<K, I: InsertionIndex> {
    pub key: Key<K>,
    pub idx: Idx<I>,
}

impl<K, I: InsertionIndex> KeyAndIdx<K, I> {
    pub fn new(key: Key<K>, idx: Idx<I>) -> (token: Self)
        ensures
            token == (KeyAndIdx { key, idx }),
    {
        KeyAndIdx { key, idx }
    }

    /// Hashes the token: injects its fingerprint.
    pub fn hash(&self, state: &mut SignalledInjectionHasher<DefaultHasher>)
        ensures
            final(state).state() == SignalState::HashInjected(self.idx.hash),
            final(state).digest() == self.idx.hash,
            final(state).written() == old(state).written().push(
                spec_u64_to_le_bytes(self.idx.hash),
            ),
    {
        signal_inject_hash(state, self.idx.hash);
    }
}

/// A question to the entry store: by key, or by stamp. Either shape carries
/// the fingerprint, and hashes to it.
pub enum Lookup<'a, K, I: InsertionIndex> {
    ByKey(KeyRef<'a, K>),
    ByIndex(Idx<I>),
}

impl<'a, K: Hash, I: InsertionIndex> Lookup<'a, K, I> {
    /// The fingerprint that the question carries.
    pub open spec fn fingerprint(&self) -> u64 {
        match self {
            Lookup::ByKey(key) => key.hash,
            Lookup::ByIndex(idx) => idx.hash,
        }
    }

    /// Hashes the question: injects its fingerprint.
    pub fn hash(&self, state: &mut SignalledInjectionHasher<DefaultHasher>)
        ensures
            final(state).state() == SignalState::HashInjected(self.fingerprint()),
            final(state).digest() == self.fingerprint(),
            final(state).written() == old(state).written().push(
                spec_u64_to_le_bytes(self.fingerprint()),
            ),
    {
        match self {
            Lookup::ByKey(key) => key.hash(state),
            Lookup::ByIndex(idx) => idx.hash(state),
        }
    }
}

} // verus!
