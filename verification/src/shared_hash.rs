//! The shared-hash cache: one fingerprint per key, computed once.
//!
//! A key is hashed when it arrives, and never again. The fingerprint stays
//! with the entry in the store and with its record in the recency list, so
//! that the store can be asked for the entry by key or by stamp without the
//! key being hashed a second time.
use vstd::prelude::*;
use crate::model::{distinct, get, lookup, place_of, present, put, Entry};
use crate::recency::{ascending, RecencyList, Record};
use crate::shared_hash::fingerprint::{key_build_hasher, key_hasher, random_state, KeyBuildHasher};
use crate::shared_hash::store::{
    answer, keys_compare_by_value, lemma_answer_by_index, stamps_differ, EntryStore,
};
use crate::shared_hash::token::{Idx, Key, KeyAndIdx, KeyRef, Lookup};
use crate::InsertionIndex;
use std::hash::Hash;

pub mod fingerprint;
pub mod hasher;
pub mod store;
pub mod token;

verus! {

/// The entries in eviction order, as `order` lists their tokens and `store`
/// holds their values.
pub open spec fn entries_of<K, V, I: InsertionIndex>(
    store: Map<Key<K>, (I, V)>,
    order: Seq<Key<K>>,
) -> Seq<Entry<Key<K>, V>> {
    Seq::new(order.len(), |i: int| Entry { token: order[i], value: store[order[i]].1 })
}

/// Whether store and recency list hold the same entries: record for
/// record, in the order of `order`, with the same fingerprint and the same
/// stamp, and the store holds nothing else.
pub open spec fn linked<K, V, I: InsertionIndex>(
    store: Map<Key<K>, (I, V)>,
    list: Seq<Record<I, u64>>,
    order: Seq<Key<K>>,
) -> bool {
    &&& order.len() == list.len()
    &&& forall|i: int|
        0 <= i < order.len() ==> {
            &&& store.contains_key(#[trigger] order[i])
            &&& order[i].hash == list[i].tag
            &&& store[order[i]].0.value() == list[i].idx.value()
        }
    &&& forall|key: Key<K>| #[trigger] store.contains_key(key) ==> order.contains(key)
}

/// Where store and list are linked and the list ascends, no token is listed
/// twice: the entries are distinct, and a token is present exactly when the
/// store holds it.
pub proof fn lemma_linked_is_distinct<K, V, I: InsertionIndex>(
    store: Map<Key<K>, (I, V)>,
    list: Seq<Record<I, u64>>,
    order: Seq<Key<K>>,
)
    requires
        linked(store, list, order),
        ascending(list),
    ensures
        order.no_duplicates(),
        distinct(entries_of(store, order)),
        forall|key: Key<K>| present(entries_of(store, order), key) <==> store.contains_key(key),
{
    let entries = entries_of(store, order);
    assert forall|i: int, j: int| 0 <= i < j < order.len() implies order[i] != order[j] by {
        assert(list[i].idx.value() < list[j].idx.value());
    }
    assert forall|i: int, j: int| 0 <= i < j < entries.len() implies entries[i].token
        != entries[j].token by {
        assert(order[i] != order[j]);
    }
    assert forall|key: Key<K>| present(entries, key) <==> store.contains_key(key) by {
        if present(entries, key) {
            let i = place_of(entries, key);
            assert(order[i] == key);
        }
        if store.contains_key(key) {
            assert(order.contains(key));
            let i = choose|i: int| 0 <= i < order.len() && order[i] == key;
            assert(entries[i].token == key);
        }
    }
}

/// Leaving: where the entry at place `p` leaves store, list and order
/// together, they stay linked, and the entries are what they were, without
/// the one at `p`.
pub proof fn lemma_unlink<K, V, I: InsertionIndex>(
    store: Map<Key<K>, (I, V)>,
    list: Seq<Record<I, u64>>,
    order: Seq<Key<K>>,
    p: int,
)
    requires
        linked(store, list, order),
        ascending(list),
        0 <= p < order.len(),
    ensures
        linked(store.remove(order[p]), list.remove(p), order.remove(p)),
        entries_of(store.remove(order[p]), order.remove(p)) == entries_of(store, order).remove(p),
{
    let store2 = store.remove(order[p]);
    let list2 = list.remove(p);
    let order2 = order.remove(p);
    lemma_linked_is_distinct(store, list, order);
    assert forall|i: int| 0 <= i < order2.len() implies {
        &&& store2.contains_key(#[trigger] order2[i])
        &&& order2[i].hash == list2[i].tag
        &&& store2[order2[i]].0.value() == list2[i].idx.value()
        &&& entries_of(store2, order2)[i] == entries_of(store, order).remove(p)[i]
    } by {
        let before = if i < p { i } else { i + 1 };
        assert(order2[i] == order[before]);
        assert(list2[i] == list[before]);
        assert(order[before] != order[p]);
    }
    assert forall|key: Key<K>| #[trigger] store2.contains_key(key) implies order2.contains(key) by {
        assert(order.contains(key));
        let before = choose|i: int| 0 <= i < order.len() && order[i] == key;
        let i = if before < p { before } else { before - 1 };
        assert(order2[i] == order[before]);
    }
    assert(entries_of(store2, order2) =~= entries_of(store, order).remove(p));
}

/// Joining: where an entry under a token that the store does not hold
/// joins store, list and order together, at the back, they stay linked, and
/// the entries are what they were, with the new one as the newest.
pub proof fn lemma_link<K, V, I: InsertionIndex>(
    store: Map<Key<K>, (I, V)>,
    list: Seq<Record<I, u64>>,
    order: Seq<Key<K>>,
    key: Key<K>,
    idx: I,
    value: V,
)
    requires
        linked(store, list, order),
        !store.contains_key(key),
    ensures
        linked(
            store.insert(key, (idx, value)),
            list.push(Record { idx, tag: key.hash }),
            order.push(key),
        ),
        entries_of(store.insert(key, (idx, value)), order.push(key)) == entries_of(
            store,
            order,
        ).push(Entry { token: key, value }),
{
    let store2 = store.insert(key, (idx, value));
    let list2 = list.push(Record { idx, tag: key.hash });
    let order2 = order.push(key);
    assert forall|i: int| 0 <= i < order2.len() implies {
        &&& store2.contains_key(#[trigger] order2[i])
        &&& order2[i].hash == list2[i].tag
        &&& store2[order2[i]].0.value() == list2[i].idx.value()
        &&& entries_of(store2, order2)[i] == entries_of(store, order).push(
            Entry { token: key, value },
        )[i]
    } by {
        if i < order.len() {
            assert(order2[i] == order[i]);
            assert(list2[i] == list[i]);
            assert(store.contains_key(order[i]));
        }
    }
    assert forall|other: Key<K>| #[trigger] store2.contains_key(other) implies order2.contains(
        other,
    ) by {
        if other == key {
            assert(order2[order.len() as int] == key);
        } else {
            assert(order.contains(other));
            let i = choose|i: int| 0 <= i < order.len() && order[i] == other;
            assert(order2[i] == other);
        }
    }
    assert(entries_of(store2, order2) =~= entries_of(store, order).push(
        Entry { token: key, value },
    ));
}

/// Restamping: where the entry at place `p` gets another stamp in store and
/// list, they stay linked, and the entries are what they were.
pub proof fn lemma_relink<K, V, I: InsertionIndex>(
    store: Map<Key<K>, (I, V)>,
    list: Seq<Record<I, u64>>,
    order: Seq<Key<K>>,
    p: int,
    idx: I,
)
    requires
        linked(store, list, order),
        ascending(list),
        0 <= p < order.len(),
    ensures
        linked(
            store.insert(order[p], (idx, store[order[p]].1)),
            list.update(p, Record { idx, tag: list[p].tag }),
            order,
        ),
        entries_of(store.insert(order[p], (idx, store[order[p]].1)), order) == entries_of(
            store,
            order,
        ),
{
    let store2 = store.insert(order[p], (idx, store[order[p]].1));
    let list2 = list.update(p, Record { idx, tag: list[p].tag });
    lemma_linked_is_distinct(store, list, order);
    assert forall|i: int| 0 <= i < order.len() implies {
        &&& store2.contains_key(#[trigger] order[i])
        &&& order[i].hash == list2[i].tag
        &&& store2[order[i]].0.value() == list2[i].idx.value()
        &&& entries_of(store2, order)[i] == entries_of(store, order)[i]
    } by {
        if i != p {
            assert(order[i] != order[p]);
            assert(list2[i] == list[i]);
        }
    }
    assert forall|key: Key<K>| #[trigger] store2.contains_key(key) implies order.contains(key) by {
        if key != order[p] {
            assert(store.contains_key(key));
        }
    }
    assert(entries_of(store2, order) =~= entries_of(store, order));
}

/// Where store and list are linked, the stamp of every entry of the store
/// is the stamp of a record of the list.
pub proof fn lemma_stamp_is_listed<K, V, I: InsertionIndex>(
    store: Map<Key<K>, (I, V)>,
    list: Seq<Record<I, u64>>,
    order: Seq<Key<K>>,
    key: Key<K>,
) -> (p: int)
    requires
        linked(store, list, order),
        store.contains_key(key),
    ensures
        0 <= p < list.len(),
        order[p] == key,
        list[p].idx.value() == store[key].0.value(),
        list[p].tag == key.hash,
{
    assert(order.contains(key));
    choose|i: int| 0 <= i < order.len() && order[i] == key
}

/// A cache of at most `capacity` entries that evicts the entry touched
/// longest ago, and hashes each key once.
#[verifier::reject_recursive_types(K)]
pub struct DhCache<K, V, I: InsertionIndex> {
    max_size: usize,
    next_insertion_index: I,
    key_hasher: KeyBuildHasher,
    key_and_idx_to_value: EntryStore<K, V, I>,
    /// Always sorted.
    indexes: RecencyList<I, u64>,
    order: Ghost<Seq<Key<K>>>,
}

impl<K, V, I: InsertionIndex> View for DhCache<K, V, I> {
    type V = Seq<Entry<Key<K>, V>>;

    /// The entries in eviction order, the oldest first.
    closed spec fn view(&self) -> Seq<Entry<Key<K>, V>> {
        entries_of(self.key_and_idx_to_value@, self.order@)
    }
}

impl<K: Hash + Eq, V, I: InsertionIndex> DhCache<K, V, I> {
    /// The most entries that the cache holds.
    pub closed spec fn capacity(&self) -> nat {
        self.max_size as nat
    }

    /// The entry store: for the token of each key, its stamp and value.
    pub closed spec fn stored(&self) -> Map<Key<K>, (I, V)> {
        self.key_and_idx_to_value@
    }

    /// The recency list: stamp and fingerprint of each entry, oldest first.
    pub closed spec fn records(&self) -> Seq<Record<I, u64>> {
        self.indexes@
    }

    /// The tokens of the entries, oldest first.
    pub closed spec fn tokens(&self) -> Seq<Key<K>> {
        self.order@
    }

    /// The cache's invariant: store and recency list hold the same entries,
    /// at most `capacity` of them, under ascending stamps that the counter
    /// has passed.
    pub closed spec fn wf(&self) -> bool {
        &&& keys_compare_by_value::<K>()
        &&& self.key_and_idx_to_value.wf()
        &&& self.indexes.wf()
        &&& linked(self.key_and_idx_to_value@, self.indexes@, self.order@)
        &&& self.indexes@.len() <= self.max_size <= I::MAX.value()
        &&& forall|i: int|
            0 <= i < self.indexes@.len() ==> (#[trigger] self.indexes@[i]).idx.value()
                < self.next_insertion_index.value()
    }

    /// No duplication: in a well-formed cache the store and the recency
    /// list hold the same entries. Each token of the store has one record in
    /// the list, with its stamp and its fingerprint, and each record has
    /// its token in the store; so both hold as many entries as the view,
    /// which are distinct and no more than `capacity`.
    pub proof fn lemma_store_matches_list(&self)
        requires
            self.wf(),
        ensures
            self@ == entries_of(self.stored(), self.tokens()),
            self@.len() <= self.capacity(),
            distinct(self@),
            ascending(self.records()),
            linked(self.stored(), self.records(), self.tokens()),
            stamps_differ(self.stored()),
            self.stored().dom() == self.tokens().to_set(),
            self.stored().dom().len() == self.records().len(),
    {
        lemma_linked_is_distinct(self.stored(), self.records(), self.tokens());
        self.key_and_idx_to_value.lemma_stamps_differ();
        self.tokens().unique_seq_to_set();
        assert(self.stored().dom() =~= self.tokens().to_set());
    }

    /// An empty cache of `max_size` entries. The stamps of `I` must be
    /// enough to give each of them its own.
    pub fn new(max_size: usize) -> (cache: Self)
        requires
            max_size <= I::MAX.value(),
            keys_compare_by_value::<K>(),
        ensures
            cache.wf(),
            cache.capacity() == max_size,
            cache@ == Seq::<Entry<Key<K>, V>>::empty(),
    {
        let cache = DhCache {
            max_size,
            next_insertion_index: I::ZERO,
            key_hasher: key_build_hasher(random_state()),
            key_and_idx_to_value: EntryStore::new(),
            indexes: RecencyList::new(),
            order: Ghost(Seq::empty()),
        };
        assert(cache@ =~= Seq::<Entry<Key<K>, V>>::empty());
        cache
    }

    /// The number of entries.
    pub fn len(&self) -> (n: usize)
        requires
            self.wf(),
        ensures
            n == self@.len(),
            n <= self.capacity(),
    {
        self.indexes.len()
    }

    /// Takes the entry under `key` out of the store and its record out of
    /// the recency list.
    fn take(&mut self, key: KeyRef<K>) -> (taken: Option<(Key<K>, V)>)
        requires
            old(self).wf(),
        ensures
            final(self).wf(),
            final(self).capacity() == old(self).capacity(),
            present(old(self)@, key.owned()) ==> taken == Some(
                (key.owned(), old(self)@[place_of(old(self)@, key.owned())].value),
            ) && final(self)@ == old(self)@.remove(place_of(old(self)@, key.owned())),
            !present(old(self)@, key.owned()) ==> taken is None && final(self)@ == old(self)@,
    {
        let ghost store = self.key_and_idx_to_value@;
        let ghost list = self.indexes@;
        let ghost order = self.order@;
        proof {
            lemma_linked_is_distinct(store, list, order);
        }
        let question = Lookup::ByKey(key);
        match self.key_and_idx_to_value.remove_entry(&question) {
            None => None,
            Some((token, value)) => {
                let ghost p = lemma_stamp_is_listed(store, list, order, key.owned());
                proof {
                    crate::recency::lemma_place_is_unique(list, p);
                    crate::model::lemma_place_is_unique(entries_of(store, order), p);
                    lemma_unlink(store, list, order, p);
                }
                let _record = self.indexes.remove_at(&token.idx.idx);
                proof {
                    self.order@ = order.remove(p);
                }
                Some((token.key, value))
            },
        }
    }

    /// Evicts the entry touched longest ago.
    fn evict_oldest(&mut self)
        requires
            old(self).wf(),
            old(self)@.len() > 0,
        ensures
            final(self).wf(),
            final(self).capacity() == old(self).capacity(),
            final(self)@ == old(self)@.remove(0),
    {
        let ghost store = self.key_and_idx_to_value@;
        let ghost list = self.indexes@;
        let ghost order = self.order@;
        let oldest = self.indexes.remove_front().unwrap();
        let question = Lookup::ByIndex(Idx::new(oldest.idx, oldest.tag));
        proof {
            self.key_and_idx_to_value.lemma_stamps_differ();
            lemma_answer_by_index(store, Idx { hash: oldest.tag, idx: oldest.idx }, order[0]);
            lemma_unlink(store, list, order, 0);
        }
        let _evicted = self.key_and_idx_to_value.remove_entry(&question).unwrap();
        proof {
            self.order@ = order.remove(0);
        }
    }

    /// Gives the entries the stamps 0, 1, 2 and so on, in their order, and
    /// sets the counter behind the last of them. Nothing that a caller sees
    /// changes.
    fn renumber(&mut self)
        requires
            old(self).wf(),
            old(self)@.len() < old(self).capacity(),
        ensures
            final(self).wf(),
            final(self).capacity() == old(self).capacity(),
            final(self)@ == old(self)@,
            final(self).next_insertion_index.value() < I::MAX.value(),
    {
        let ghost order = self.order@;
        let n = self.indexes.len();
        let mut cur = I::ZERO;
        let mut p: usize = 0;
        proof {
            I::stamps_are_numbers(cur, cur);
        }
        while p < n
            invariant
                p <= n == self.indexes@.len(),
                n < self.max_size <= I::MAX.value(),
                self.max_size == old(self).max_size,
                cur.value() == p,
                keys_compare_by_value::<K>(),
                self.key_and_idx_to_value.wf(),
                self.indexes.wf(),
                self.order@ == order,
                linked(self.key_and_idx_to_value@, self.indexes@, order),
                forall|i: int| 0 <= i < p ==> (#[trigger] self.indexes@[i]).idx.value() == i,
                self@ == old(self)@,
            decreases n - p,
        {
            let ghost store = self.key_and_idx_to_value@;
            let ghost list = self.indexes@;
            let record = self.indexes.record(p);
            let stamp = record.idx;
            let tag = record.tag;
            let question = Lookup::ByIndex(Idx::new(stamp, tag));
            proof {
                self.key_and_idx_to_value.lemma_stamps_differ();
                lemma_answer_by_index(store, Idx { hash: tag, idx: stamp }, order[p as int]);
                crate::recency::lemma_stamp_covers_place(list, p as int);
                lemma_relink(store, list, order, p as int, cur);
                // No other entry carries the stamp `p`: those in front carry
                // smaller stamps, and those behind carry larger ones.
                assert forall|other: Key<K>|
                    store.contains_key(other) && other != order[p as int] implies store[other].0
                        .value() != cur.value() by {
                    let i = lemma_stamp_is_listed(store, list, order, other);
                    if i > p {
                        assert(list[p as int].idx.value() < list[i].idx.value());
                    }
                }
                if p > 0 {
                    assert(list[p - 1].idx.value() == p - 1);
                }
                if p + 1 < n {
                    assert(list[p as int].idx.value() < list[p + 1].idx.value());
                }
            }
            let (token, value) = self.key_and_idx_to_value.remove_entry(&question).unwrap();
            self.key_and_idx_to_value.insert(KeyAndIdx::new(token.key, Idx::new(cur, tag)), value);
            self.indexes.restamp(p, cur);
            proof {
                let list2 = self.indexes@;
                assert(self.key_and_idx_to_value@ =~= store.insert(
                    order[p as int],
                    (cur, store[order[p as int]].1),
                ));
                assert forall|i: int| 0 <= i < p + 1 implies (#[trigger] list2[i]).idx.value()
                    == i by {
                    if i < p {
                        assert(list2[i] == list[i]);
                    }
                }
            }
            cur.increment();
            p += 1;
        }
        self.next_insertion_index = cur;
    }

    /// The stamp of the next touch. Where the counter has run out of
    /// stamps, the entries are renumbered first.
    fn fresh_index(&mut self) -> (idx: I)
        requires
            old(self).wf(),
            old(self)@.len() < old(self).capacity(),
        ensures
            final(self).wf(),
            final(self).capacity() == old(self).capacity(),
            final(self)@ == old(self)@,
            final(self).next_insertion_index.value() == idx.value() + 1,
            forall|i: int|
                0 <= i < final(self).indexes@.len() ==> (
                #[trigger] final(self).indexes@[i]).idx.value() < idx.value(),
    {
        let max = I::MAX;
        if !self.next_insertion_index.precedes(&max) {
            self.renumber();
        }
        let idx = self.next_insertion_index;
        self.next_insertion_index.increment();
        idx
    }

    /// Stores a new entry as the newest, and returns the index token under
    /// which the store finds it.
    fn attach(&mut self, key: Key<K>, v: V) -> (idx: Idx<I>)
        requires
            old(self).wf(),
            !present(old(self)@, key),
            old(self)@.len() < old(self).capacity(),
        ensures
            final(self).wf(),
            final(self).capacity() == old(self).capacity(),
            final(self)@ == old(self)@.push(Entry { token: key, value: v }),
            answer(final(self).key_and_idx_to_value@, Lookup::<K, I>::ByIndex(idx)) == Some(key),
            final(self).key_and_idx_to_value@[key].1 == v,
    {
        let idx = self.fresh_index();
        let hash = key.hash;
        let token = Idx::new(idx, hash);
        let ghost store = self.key_and_idx_to_value@;
        let ghost list = self.indexes@;
        let ghost order = self.order@;
        proof {
            lemma_linked_is_distinct(store, list, order);
            lemma_link(store, list, order, key, idx, v);
            // The stamp is new to the store: every stamp there is listed,
            // and the counter has passed every stamp of the list.
            assert forall|other: Key<K>|
                store.contains_key(other) && other != key implies store[other].0.value()
                != idx.value() by {
                let i = lemma_stamp_is_listed(store, list, order, other);
                assert(list[i].idx.value() < idx.value());
            }
        }
        self.key_and_idx_to_value.insert(KeyAndIdx::new(key, token), v);
        self.indexes.push_back(idx, hash);
        proof {
            self.order@ = order.push(key);
            let list2 = self.indexes@;
            assert forall|i: int| 0 <= i < list2.len() implies (#[trigger] list2[i]).idx.value()
                < self.next_insertion_index.value() by {
                if i < list.len() {
                    assert(list2[i] == list[i]);
                }
            }
            self.key_and_idx_to_value.lemma_stamps_differ();
            lemma_answer_by_index(self.key_and_idx_to_value@, token, key);
        }
        token
    }

    /// `put` for a key whose token is at hand: see [`put`] of the model.
    pub fn put_key(&mut self, key: Key<K>, v: V)
        requires
            old(self).wf(),
        ensures
            final(self).wf(),
            final(self).capacity() == old(self).capacity(),
            final(self)@ == put(old(self)@, old(self).capacity(), key, v),
    {
        if self.max_size == 0 {
            return ;
        }
        let taken = self.take(KeyRef::new(&key.k, key.hash));
        if taken.is_none() && self.indexes.len() == self.max_size {
            self.evict_oldest();
        }
        proof {
            lemma_linked_is_distinct(
                old(self).key_and_idx_to_value@,
                old(self).indexes@,
                old(self).order@,
            );
            if present(old(self)@, key) {
                crate::model::lemma_remove_keeps_distinct(old(self)@, place_of(old(self)@, key));
            } else {
                if old(self)@.len() >= old(self).capacity() {
                    crate::model::lemma_remove_keeps_distinct(old(self)@, 0);
                }
            }
        }
        let _idx = self.attach(key, v);
    }

    /// `get` for a key whose token is at hand: the value of the entry, which
    /// becomes the newest; `None`, and no change, where the key is not
    /// present.
    pub fn get_key(&mut self, key: KeyRef<K>) -> (found: Option<&V>)
        requires
            old(self).wf(),
        ensures
            final(self).wf(),
            final(self).capacity() == old(self).capacity(),
            final(self)@ == get(old(self)@, key.owned()),
            match found {
                Some(value) => lookup(old(self)@, key.owned()) == Some(*value),
                None => lookup(old(self)@, key.owned()) is None,
            },
    {
        proof {
            lemma_linked_is_distinct(
                old(self).key_and_idx_to_value@,
                old(self).indexes@,
                old(self).order@,
            );
        }
        match self.take(key) {
            None => None,
            Some((token, value)) => {
                proof {
                    crate::model::lemma_remove_keeps_distinct(
                        old(self)@,
                        place_of(old(self)@, key.owned()),
                    );
                }
                let idx = self.attach(token, value);
                // The value is fetched by stamp: the key is not hashed again.
                self.key_and_idx_to_value.get(&Lookup::ByIndex(idx))
            },
        }
    }

    /// Stores `v` under `k`. A key that is present has its value replaced
    /// and becomes the newest; a new key joins as the newest, after the
    /// oldest entry has left a full cache. The key is hashed here, once, and
    /// [`Self::put_key`] does the rest with whatever fingerprint came back.
    pub fn put(&mut self, k: K, v: V)
        requires
            old(self).wf(),
        ensures
            final(self).wf(),
            final(self).capacity() == old(self).capacity(),
            exists|key: Key<K>|
                key.k == k && final(self)@ == #[trigger] put(
                    old(self)@,
                    old(self).capacity(),
                    key,
                    v,
                ),
    {
        let key = Key::new_from_hasher(k, key_hasher(&self.key_hasher));
        self.put_key(key, v);
    }

    /// The value stored under `k`, whose entry becomes the newest; `None`,
    /// and no change, on a miss. The key is hashed here, once, and
    /// [`Self::get_key`] does the rest with whatever fingerprint came back.
    pub fn get(&mut self, k: &K) -> (found: Option<&V>)
        requires
            old(self).wf(),
        ensures
            final(self).wf(),
            final(self).capacity() == old(self).capacity(),
            exists|key: Key<K>|
                {
                    &&& key.k == *k
                    &&& final(self)@ == #[trigger] get(old(self)@, key)
                    &&& match found {
                        Some(value) => lookup(old(self)@, key) == Some(*value),
                        None => lookup(old(self)@, key) is None,
                    }
                },
    {
        let key = KeyRef::new_from_hasher(k, key_hasher(&self.key_hasher));
        self.get_key(key)
    }
}

} // verus!
