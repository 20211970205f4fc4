//! The double-key cache: each key is kept twice, once in the table that
//! finds its value and once beside its recency record.
//!
//! The table hashes a key every time it is asked with it, more than once
//! in one `put` or `get`. The shared-hash cache is there to avoid that.
use vstd::prelude::*;
use vstd::std_specs::hash::obeys_key_model;
use crate::model::{distinct, get, lookup, place_of, present, put, Entry};
use crate::recency::{ascending, RecencyList, Record};
use crate::InsertionIndex;
use std::borrow::Borrow;
use std::collections::HashMap;
use std::hash::Hash;
use std::rc::Rc;
use std::sync::Arc;

verus! {

/// The seal of [`CloneKey`]: nothing outside this file can make one.
pub struct Sealed(());

/// A handle on a key that can be copied at will: the key itself where it
/// clones, or a counted reference to it.
pub trait CloneKey<K>: Borrow<K> + Clone {
    /// The key that the handle stands for.
    spec fn key(&self) -> K;

    /// The handle for `key`.
    fn new(key: K) -> (handle: Self)
        ensures
            handle.key() == key,
    ;

    /// What only this file can write, so that no other can add a handle.
    #[allow(private_interfaces)]
    fn sealed() -> Sealed;
}

impl<K: Clone> CloneKey<K> for K {
    open spec fn key(&self) -> K {
        *self
    }

    fn new(key: K) -> (handle: Self) {
        key
    }

    #[allow(private_interfaces)]
    fn sealed() -> Sealed {
        Sealed(())
    }
}

impl<K> CloneKey<K> for Rc<K> {
    open spec fn key(&self) -> K {
        **self
    }

    fn new(key: K) -> (handle: Self) {
        Rc::new(key)
    }

    #[allow(private_interfaces)]
    fn sealed() -> Sealed {
        Sealed(())
    }
}

impl<K> CloneKey<K> for Arc<K> {
    open spec fn key(&self) -> K {
        **self
    }

    fn new(key: K) -> (handle: Self) {
        Arc::new(key)
    }

    #[allow(private_interfaces)]
    fn sealed() -> Sealed {
        Sealed(())
    }
}

/// Whether a clone of a key of type `K` is that key again. The cache keeps
/// a clone of each key in its table, and finds it by the key that was cloned.
pub open spec fn clones_are_equal<K: Clone>() -> bool {
    forall|a: K, b: K| #[trigger] cloned(a, b) ==> a == b
}

/// The entries in eviction order, as `list` orders their keys and `map`
/// holds their values.
pub open spec fn entries_of<K, V, I: InsertionIndex>(
    map: Map<K, (V, I)>,
    list: Seq<Record<I, K>>,
) -> Seq<Entry<K, V>> {
    Seq::new(list.len(), |i: int| Entry { token: list[i].tag, value: map[list[i].tag].0 })
}

/// Whether table and recency list hold the same keys under the same stamps.
pub open spec fn linked<K, V, I: InsertionIndex>(
    map: Map<K, (V, I)>,
    list: Seq<Record<I, K>>,
) -> bool {
    &&& forall|i: int|
        0 <= i < list.len() ==> {
            &&& map.contains_key((#[trigger] list[i]).tag)
            &&& map[list[i].tag].1.value() == list[i].idx.value()
        }
    &&& forall|key: K| #[trigger]
        map.contains_key(key) ==> exists|i: int|
            0 <= i < list.len() && (#[trigger] list[i]).tag == key
}

/// Where table and list are linked and the list ascends, no key is listed
/// twice: the entries are distinct, and a key is present exactly when the
/// table holds it.
pub proof fn lemma_linked_is_distinct<K, V, I: InsertionIndex>(
    map: Map<K, (V, I)>,
    list: Seq<Record<I, K>>,
)
    requires
        linked(map, list),
        ascending(list),
    ensures
        distinct(entries_of(map, list)),
        forall|i: int, j: int| 0 <= i < j < list.len() ==> list[i].tag != list[j].tag,
        forall|key: K| present(entries_of(map, list), key) <==> map.contains_key(key),
{
    let entries = entries_of(map, list);
    assert forall|i: int, j: int| 0 <= i < j < list.len() implies list[i].tag != list[j].tag by {
        assert(list[i].idx.value() < list[j].idx.value());
    }
    assert forall|i: int, j: int| 0 <= i < j < entries.len() implies entries[i].token
        != entries[j].token by {
        assert(list[i].tag != list[j].tag);
    }
    assert forall|key: K| present(entries, key) <==> map.contains_key(key) by {
        if present(entries, key) {
            let i = place_of(entries, key);
            assert(list[i].tag == key);
        }
        if map.contains_key(key) {
            let i = choose|i: int| 0 <= i < list.len() && (#[trigger] list[i]).tag == key;
            assert(entries[i].token == key);
        }
    }
}

/// Leaving: where the entry at place `p` leaves table and list together,
/// they stay linked, and the entries are what they were, without the one at
/// `p`.
pub proof fn lemma_unlink<K, V, I: InsertionIndex>(
    map: Map<K, (V, I)>,
    list: Seq<Record<I, K>>,
    p: int,
)
    requires
        linked(map, list),
        ascending(list),
        0 <= p < list.len(),
    ensures
        linked(map.remove(list[p].tag), list.remove(p)),
        entries_of(map.remove(list[p].tag), list.remove(p)) == entries_of(map, list).remove(p),
{
    let map2 = map.remove(list[p].tag);
    let list2 = list.remove(p);
    lemma_linked_is_distinct(map, list);
    assert forall|i: int| 0 <= i < list2.len() implies {
        &&& map2.contains_key((#[trigger] list2[i]).tag)
        &&& map2[list2[i].tag].1.value() == list2[i].idx.value()
        &&& entries_of(map2, list2)[i] == entries_of(map, list).remove(p)[i]
    } by {
        let before = if i < p { i } else { i + 1 };
        assert(list2[i] == list[before]);
        assert(list[before].tag != list[p].tag);
    }
    assert forall|key: K| #[trigger] map2.contains_key(key) implies exists|i: int|
        0 <= i < list2.len() && (#[trigger] list2[i]).tag == key by {
        let before = choose|i: int| 0 <= i < list.len() && (#[trigger] list[i]).tag == key;
        let i = if before < p { before } else { before - 1 };
        assert(list2[i] == list[before]);
    }
    assert(entries_of(map2, list2) =~= entries_of(map, list).remove(p));
}

/// Joining: where an entry under a key that the table does not hold joins
/// table and list together, at the back, they stay linked, and the entries
/// are what they were, with the new one as the newest.
pub proof fn lemma_link<K, V, I: InsertionIndex>(
    map: Map<K, (V, I)>,
    list: Seq<Record<I, K>>,
    key: K,
    idx: I,
    value: V,
)
    requires
        linked(map, list),
        !map.contains_key(key),
    ensures
        linked(map.insert(key, (value, idx)), list.push(Record { idx, tag: key })),
        entries_of(map.insert(key, (value, idx)), list.push(Record { idx, tag: key }))
            == entries_of(map, list).push(Entry { token: key, value }),
{
    let map2 = map.insert(key, (value, idx));
    let list2 = list.push(Record { idx, tag: key });
    assert forall|i: int| 0 <= i < list2.len() implies {
        &&& map2.contains_key((#[trigger] list2[i]).tag)
        &&& map2[list2[i].tag].1.value() == list2[i].idx.value()
        &&& entries_of(map2, list2)[i] == entries_of(map, list).push(Entry { token: key, value })[i]
    } by {
        if i < list.len() {
            assert(list2[i] == list[i]);
            assert(map.contains_key(list[i].tag));
        }
    }
    assert forall|other: K| #[trigger] map2.contains_key(other) implies exists|i: int|
        0 <= i < list2.len() && (#[trigger] list2[i]).tag == other by {
        if other == key {
            assert(list2[list.len() as int].tag == other);
        } else {
            let i = choose|i: int| 0 <= i < list.len() && (#[trigger] list[i]).tag == other;
            assert(list2[i] == list[i]);
        }
    }
    assert(entries_of(map2, list2) =~= entries_of(map, list).push(Entry { token: key, value }));
}

/// Restamping: where the entry at place `p` gets another stamp in table
/// and list, they stay linked, and the entries are what they were.
pub proof fn lemma_relink<K, V, I: InsertionIndex>(
    map: Map<K, (V, I)>,
    list: Seq<Record<I, K>>,
    p: int,
    idx: I,
)
    requires
        linked(map, list),
        ascending(list),
        0 <= p < list.len(),
    ensures
        linked(
            map.insert(list[p].tag, (map[list[p].tag].0, idx)),
            list.update(p, Record { idx, tag: list[p].tag }),
        ),
        entries_of(
            map.insert(list[p].tag, (map[list[p].tag].0, idx)),
            list.update(p, Record { idx, tag: list[p].tag }),
        ) == entries_of(map, list),
{
    let map2 = map.insert(list[p].tag, (map[list[p].tag].0, idx));
    let list2 = list.update(p, Record { idx, tag: list[p].tag });
    lemma_linked_is_distinct(map, list);
    assert forall|i: int| 0 <= i < list2.len() implies {
        &&& map2.contains_key((#[trigger] list2[i]).tag)
        &&& map2[list2[i].tag].1.value() == list2[i].idx.value()
        &&& entries_of(map2, list2)[i] == entries_of(map, list)[i]
    } by {
        if i != p {
            assert(list2[i] == list[i]);
            assert(list[i].tag != list[p].tag);
        }
    }
    assert forall|key: K| #[trigger] map2.contains_key(key) implies exists|i: int|
        0 <= i < list2.len() && (#[trigger] list2[i]).tag == key by {
        if key == list[p].tag {
            assert(list2[p].tag == key);
        } else {
            let i = choose|i: int| 0 <= i < list.len() && (#[trigger] list[i]).tag == key;
            assert(list2[i] == list[i]);
        }
    }
    assert(entries_of(map2, list2) =~= entries_of(map, list));
}

/// A cache of at most `capacity` entries that evicts the entry touched
/// longest ago.
#[verifier::reject_recursive_types(K)]
pub struct LRUCache<K, V, I: InsertionIndex> {
    max_size: usize,
    next_insertion_index: I,
    key_to_value_and_index: HashMap<K, (V, I)>,
    /// Always sorted.
    indexes_and_keys: RecencyList<I, K>,
}

impl<K, V, I: InsertionIndex> View for LRUCache<K, V, I> {
    type V = Seq<Entry<K, V>>;

    /// The entries in eviction order, the oldest first.
    closed spec fn view(&self) -> Seq<Entry<K, V>> {
        entries_of(self.key_to_value_and_index@, self.indexes_and_keys@)
    }
}

impl<K: Hash + Eq + Clone, V, I: InsertionIndex> LRUCache<K, V, I> {
    /// The most entries that the cache holds.
    pub closed spec fn capacity(&self) -> nat {
        self.max_size as nat
    }

    /// The table: for each key, its value and its stamp.
    pub closed spec fn stored(&self) -> Map<K, (V, I)> {
        self.key_to_value_and_index@
    }

    /// The recency list: stamp and key of each entry, oldest first.
    pub closed spec fn records(&self) -> Seq<Record<I, K>> {
        self.indexes_and_keys@
    }

    /// The cache's invariant: table and recency list hold the same keys, at
    /// most `capacity` of them, under ascending stamps that the counter has
    /// passed.
    pub closed spec fn wf(&self) -> bool {
        &&& obeys_key_model::<K>()
        &&& clones_are_equal::<K>()
        &&& self.indexes_and_keys.wf()
        &&& linked(self.key_to_value_and_index@, self.indexes_and_keys@)
        &&& self.indexes_and_keys@.len() <= self.max_size <= I::MAX.value()
        &&& forall|i: int|
            0 <= i < self.indexes_and_keys@.len() ==> (
            #[trigger] self.indexes_and_keys@[i]).idx.value() < self.next_insertion_index.value()
    }

    /// No duplication: in a well-formed cache the table and the recency
    /// list hold the same keys. Each key of the table has one record in the
    /// list, with its stamp, and each record has its key in the table; so
    /// both hold as many entries as the view, which are distinct and no
    /// more than `capacity`.
    pub proof fn lemma_table_matches_list(&self)
        requires
            self.wf(),
        ensures
            self@ == entries_of(self.stored(), self.records()),
            self@.len() <= self.capacity(),
            distinct(self@),
            ascending(self.records()),
            linked(self.stored(), self.records()),
            self.stored().dom() == self.records().map_values(|r: Record<I, K>| r.tag).to_set(),
            self.stored().dom().len() == self.records().len(),
    {
        let keys = self.records().map_values(|r: Record<I, K>| r.tag);
        lemma_linked_is_distinct(self.stored(), self.records());
        assert forall|i: int, j: int|
            0 <= i < keys.len() && 0 <= j < keys.len() && i != j implies keys[i] != keys[j] by {
            if i < j {
                assert(self.records()[i].tag != self.records()[j].tag);
            } else {
                assert(self.records()[j].tag != self.records()[i].tag);
            }
        }
        keys.unique_seq_to_set();
        assert forall|key: K|
            self.stored().dom().contains(key) <==> keys.to_set().contains(key) by {
            if self.stored().contains_key(key) {
                let i = choose|i: int|
                    0 <= i < self.records().len() && (#[trigger] self.records()[i]).tag == key;
                assert(keys[i] == key);
            }
            if keys.contains(key) {
                let i = choose|i: int| 0 <= i < keys.len() && keys[i] == key;
                assert(self.records()[i].tag == key);
            }
        }
        assert(self.stored().dom() =~= keys.to_set());
    }

    /// An empty cache of `max_size` entries. The stamps of `I` must be
    /// enough to give each of them its own.
    pub fn new(max_size: usize) -> (cache: Self)
        requires
            max_size <= I::MAX.value(),
            obeys_key_model::<K>(),
            clones_are_equal::<K>(),
        ensures
            cache.wf(),
            cache.capacity() == max_size,
            cache@ == Seq::<Entry<K, V>>::empty(),
    {
        let cache = LRUCache {
            max_size,
            next_insertion_index: I::ZERO,
            key_to_value_and_index: HashMap::new(),
            indexes_and_keys: RecencyList::new(),
        };
        assert(cache@ =~= Seq::<Entry<K, V>>::empty());
        cache
    }

    /// The number of entries.
    pub fn len(&self) -> (n: usize)
        requires
            self.wf(),
        ensures
            n == self@.len(),
            n <= self.capacity(),
    {
        self.indexes_and_keys.len()
    }

    /// Takes the entry under `k` out of the table and its record out of the
    /// recency list.
    fn take(&mut self, k: &K) -> (taken: Option<(K, V)>)
        requires
            old(self).wf(),
        ensures
            final(self).wf(),
            final(self).capacity() == old(self).capacity(),
            present(old(self)@, *k) ==> taken == Some(
                (*k, old(self)@[place_of(old(self)@, *k)].value),
            ) && final(self)@ == old(self)@.remove(place_of(old(self)@, *k)),
            !present(old(self)@, *k) ==> taken is None && final(self)@ == old(self)@,
    {
        let ghost map = self.key_to_value_and_index@;
        let ghost list = self.indexes_and_keys@;
        proof {
            lemma_linked_is_distinct(map, list);
        }
        match self.key_to_value_and_index.remove(k) {
            None => None,
            Some((value, old_idx)) => {
                let ghost p = choose|i: int| 0 <= i < list.len() && (#[trigger] list[i]).tag == *k;
                proof {
                    crate::recency::lemma_place_is_unique(list, p);
                    crate::model::lemma_place_is_unique(entries_of(map, list), p);
                    lemma_unlink(map, list, p);
                }
                let record = self.indexes_and_keys.remove_at(&old_idx).unwrap();
                Some((record.tag, value))
            },
        }
    }

    /// Evicts the entry touched longest ago.
    fn evict_oldest(&mut self)
        requires
            old(self).wf(),
            old(self)@.len() > 0,
        ensures
            final(self).wf(),
            final(self).capacity() == old(self).capacity(),
            final(self)@ == old(self)@.remove(0),
    {
        proof {
            lemma_unlink(self.key_to_value_and_index@, self.indexes_and_keys@, 0);
        }
        let oldest = self.indexes_and_keys.remove_front().unwrap();
        let _evicted = self.key_to_value_and_index.remove(&oldest.tag);
    }

    /// Gives the entries the stamps 0, 1, 2 and so on, in their order, and
    /// sets the counter behind the last of them. Nothing that a caller sees
    /// changes.
    fn renumber(&mut self)
        requires
            old(self).wf(),
            old(self)@.len() < old(self).capacity(),
        ensures
            final(self).wf(),
            final(self).capacity() == old(self).capacity(),
            final(self)@ == old(self)@,
            final(self).next_insertion_index.value() < I::MAX.value(),
    {
        let n = self.indexes_and_keys.len();
        let mut cur = I::ZERO;
        let mut p: usize = 0;
        proof {
            I::stamps_are_numbers(cur, cur);
        }
        while p < n
            invariant
                p <= n == self.indexes_and_keys@.len(),
                n < self.max_size <= I::MAX.value(),
                self.max_size == old(self).max_size,
                cur.value() == p,
                obeys_key_model::<K>(),
                clones_are_equal::<K>(),
                self.indexes_and_keys.wf(),
                linked(self.key_to_value_and_index@, self.indexes_and_keys@),
                forall|i: int|
                    0 <= i < p ==> (#[trigger] self.indexes_and_keys@[i]).idx.value() == i,
                self@ == old(self)@,
            decreases n - p,
        {
            let ghost map = self.key_to_value_and_index@;
            let ghost list = self.indexes_and_keys@;
            proof {
                crate::recency::lemma_stamp_covers_place(list, p as int);
                lemma_relink(map, list, p as int, cur);
                if p > 0 {
                    assert(list[p - 1].idx.value() == p - 1);
                }
                if p + 1 < n {
                    assert(list[p as int].idx.value() < list[p + 1].idx.value());
                }
            }
            let record = self.indexes_and_keys.record(p);
            let (value, _stamp) = self.key_to_value_and_index.remove(&record.tag).unwrap();
            let copy = record.tag.clone();
            assert(cloned(record.tag, copy));
            self.key_to_value_and_index.insert(copy, (value, cur));
            self.indexes_and_keys.restamp(p, cur);
            proof {
                let list2 = self.indexes_and_keys@;
                assert(self.key_to_value_and_index@ =~= map.insert(
                    list[p as int].tag,
                    (map[list[p as int].tag].0, cur),
                ));
                assert forall|i: int| 0 <= i < p + 1 implies (#[trigger] list2[i]).idx.value()
                    == i by {
                    if i < p {
                        assert(list2[i] == list[i]);
                    }
                }
            }
            cur.increment();
            p += 1;
        }
        self.next_insertion_index = cur;
    }

    /// The stamp of the next touch. Where the counter has run out of
    /// stamps, the entries are renumbered first.
    fn fresh_index(&mut self) -> (idx: I)
        requires
            old(self).wf(),
            old(self)@.len() < old(self).capacity(),
        ensures
            final(self).wf(),
            final(self).capacity() == old(self).capacity(),
            final(self)@ == old(self)@,
            final(self).next_insertion_index.value() == idx.value() + 1,
            forall|i: int|
                0 <= i < final(self).indexes_and_keys@.len() ==> (
                #[trigger] final(self).indexes_and_keys@[i]).idx.value() < idx.value(),
    {
        let max = I::MAX;
        if !self.next_insertion_index.precedes(&max) {
            self.renumber();
        }
        let idx = self.next_insertion_index;
        self.next_insertion_index.increment();
        idx
    }

    /// Stores a new entry as the newest.
    fn attach(&mut self, k: K, v: V)
        requires
            old(self).wf(),
            !present(old(self)@, k),
            old(self)@.len() < old(self).capacity(),
        ensures
            final(self).wf(),
            final(self).capacity() == old(self).capacity(),
            final(self)@ == old(self)@.push(Entry { token: k, value: v }),
            final(self).key_to_value_and_index@.contains_key(k),
            final(self).key_to_value_and_index@[k].0 == v,
    {
        let idx = self.fresh_index();
        let ghost map = self.key_to_value_and_index@;
        let ghost list = self.indexes_and_keys@;
        proof {
            lemma_linked_is_distinct(map, list);
            lemma_link(map, list, k, idx, v);
        }
        let ck = <K as CloneKey<K>>::new(k);
        let copy = ck.clone();
        assert(cloned(ck, copy));
        self.key_to_value_and_index.insert(copy, (v, idx));
        self.indexes_and_keys.push_back(idx, ck);
        proof {
            let list2 = self.indexes_and_keys@;
            assert forall|i: int| 0 <= i < list2.len() implies (#[trigger] list2[i]).idx.value()
                < self.next_insertion_index.value() by {
                if i < list.len() {
                    assert(list2[i] == list[i]);
                }
            }
        }
    }

    /// Stores `v` under `k`: see [`put`] of the model. A key that is
    /// present has its value replaced and becomes the newest; a new key
    /// joins as the newest, after the oldest entry has left a full cache.
    pub fn put(&mut self, k: K, v: V)
        requires
            old(self).wf(),
        ensures
            final(self).wf(),
            final(self).capacity() == old(self).capacity(),
            final(self)@ == put(old(self)@, old(self).capacity(), k, v),
    {
        if self.max_size == 0 {
            return ;
        }
        let taken = self.take(&k);
        if taken.is_none() && self.indexes_and_keys.len() == self.max_size {
            self.evict_oldest();
        }
        proof {
            lemma_linked_is_distinct(
                old(self).key_to_value_and_index@,
                old(self).indexes_and_keys@,
            );
            if present(old(self)@, k) {
                crate::model::lemma_remove_keeps_distinct(old(self)@, place_of(old(self)@, k));
            } else {
                if old(self)@.len() >= old(self).capacity() {
                    crate::model::lemma_remove_keeps_distinct(old(self)@, 0);
                }
            }
        }
        self.attach(k, v);
    }

    /// The value stored under `k`, whose entry becomes the newest; `None`,
    /// and no change, where the key is not present.
    pub fn get(&mut self, k: &K) -> (found: Option<&V>)
        requires
            old(self).wf(),
        ensures
            final(self).wf(),
            final(self).capacity() == old(self).capacity(),
            final(self)@ == get(old(self)@, *k),
            match found {
                Some(value) => lookup(old(self)@, *k) == Some(*value),
                None => lookup(old(self)@, *k) is None,
            },
    {
        proof {
            lemma_linked_is_distinct(
                old(self).key_to_value_and_index@,
                old(self).indexes_and_keys@,
            );
        }
        match self.take(k) {
            None => None,
            Some((key, value)) => {
                proof {
                    crate::model::lemma_remove_keeps_distinct(old(self)@, place_of(old(self)@, *k));
                }
                self.attach(key, value);
                match self.key_to_value_and_index.get(k) {
                    Some(value_and_index) => Some(&value_and_index.0),
                    None => None,
                }
            },
        }
    }
}

} // verus!
