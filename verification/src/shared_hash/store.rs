//! The entry store: a hash table that is asked with fingerprinted tokens.
//!
//! The table hashes nothing but tokens, and a token hashes to the
//! fingerprint it carries: the store runs it through the injecting hasher
//! and takes what `finish` returns. Entries whose keys share a fingerprint
//! share a bucket, where the keys themselves tell them apart.
use vstd::prelude::*;
use vstd::std_specs::cmp::PartialEqSpec;
use crate::shared_hash::fingerprint::random_state;
use crate::shared_hash::hasher::SignalledInjectionBuildHasher;
use crate::shared_hash::token::{Idx, Key, KeyAndIdx, KeyRef, Lookup};
use crate::InsertionIndex;
use std::collections::hash_map::{DefaultHasher, RandomState};
use std::collections::HashMap;
use std::hash::Hash;

verus! {

/// Whether `==` on keys of type `K` says what equality says: the store
/// relies on it to tell apart keys that share a fingerprint.
pub open spec fn keys_compare_by_value<K: PartialEq>() -> bool {
    &&& K::obeys_eq_spec()
    &&& forall|a: K, b: K| #[trigger] a.eq_spec(&b) <==> a == b
}

/// An entry as the table holds it: the token of its key and stamp, and its
/// value.
pub open spec fn slot_of<K, V, I: InsertionIndex>(key: Key<K>, entry: (I, V)) -> (
    KeyAndIdx<K, I>,
    V,
) {
    (KeyAndIdx { key, idx: Idx { hash: key.hash, idx: entry.0 } }, entry.1)
}

/// Whether `key` is the token of an entry of `m` that carries the
/// fingerprint and the stamp of `idx`.
pub open spec fn stamped<K, V, I: InsertionIndex>(
    m: Map<Key<K>, (I, V)>,
    idx: Idx<I>,
    key: Key<K>,
) -> bool {
    m.contains_key(key) && key.hash == idx.hash && m[key].0.value() == idx.idx.value()
}

/// The entry of `m` that carries the fingerprint and the stamp of `idx`, by
/// the token of its key.
pub open spec fn answer_by_index<K, V, I: InsertionIndex>(
    m: Map<Key<K>, (I, V)>,
    idx: Idx<I>,
) -> Option<Key<K>> {
    if exists|key: Key<K>| stamped(m, idx, key) {
        Some(choose|key: Key<K>| stamped(m, idx, key))
    } else {
        None
    }
}

/// The entry of `m` that `lookup` asks for, by the token of its key.
pub open spec fn answer<K: Hash, V, I: InsertionIndex>(
    m: Map<Key<K>, (I, V)>,
    lookup: Lookup<K, I>,
) -> Option<Key<K>> {
    match lookup {
        Lookup::ByKey(key) => if m.contains_key(key.owned()) {
            Some(key.owned())
        } else {
            None
        },
        Lookup::ByIndex(idx) => answer_by_index(m, idx),
    }
}

/// Whether no two entries of `m` carry one stamp.
pub open spec fn stamps_differ<K, V, I: InsertionIndex>(m: Map<Key<K>, (I, V)>) -> bool {
    forall|a: Key<K>, b: Key<K>|
        m.contains_key(a) && m.contains_key(b) && m[a].0.value() == m[b].0.value() ==> a == b
}

/// Where no two entries carry one stamp, a question by stamp has one answer.
pub proof fn lemma_answer_by_index<K: Hash, V, I: InsertionIndex>(
    m: Map<Key<K>, (I, V)>,
    idx: Idx<I>,
    key: Key<K>,
)
    requires
        stamps_differ(m),
        stamped(m, idx, key),
    ensures
        answer(m, Lookup::ByIndex(idx)) == Some(key),
{
    let chosen = choose|key: Key<K>| stamped(m, idx, key);
    assert(stamped(m, idx, chosen));
}

/// Whether the slot is what `lookup` asks for, among the slots of the
/// bucket of its fingerprint.
spec fn fits<K: Hash, V, I: InsertionIndex>(
    slot: (KeyAndIdx<K, I>, V),
    lookup: Lookup<K, I>,
) -> bool {
    match lookup {
        Lookup::ByKey(key) => slot.0.key.k == *key.key_ref,
        Lookup::ByIndex(idx) => slot.0.idx.idx.value() == idx.idx.value(),
    }
}

/// Whether the bucket holds a slot for `key`.
spec fn listed<K, V, I: InsertionIndex>(bucket: Seq<(KeyAndIdx<K, I>, V)>, key: Key<K>) -> bool {
    exists|j: int| 0 <= j < bucket.len() && (#[trigger] bucket[j]).0.key == key
}

/// Whether the bucket of the fingerprint `fp` holds entries of `entries`
/// only, as they are there, each under that fingerprint and none twice.
spec fn bucket_agrees<K, V, I: InsertionIndex>(
    fp: u64,
    bucket: Seq<(KeyAndIdx<K, I>, V)>,
    entries: Map<Key<K>, (I, V)>,
) -> bool {
    &&& forall|j: int|
        0 <= j < bucket.len() ==> {
            &&& (#[trigger] bucket[j]).0.key.hash == fp
            &&& entries.contains_key(bucket[j].0.key)
            &&& bucket[j] == slot_of(bucket[j].0.key, entries[bucket[j].0.key])
        }
    &&& forall|i: int, j: int|
        0 <= i < j < bucket.len() ==> (#[trigger] bucket[i]).0.key != (#[trigger] bucket[j]).0.key
}

/// Whether the table holds just the entries of `entries`: each in the
/// bucket of its fingerprint, and nothing else in any bucket.
spec fn agrees<K, V, I: InsertionIndex>(
    buckets: Map<u64, Vec<(KeyAndIdx<K, I>, V)>>,
    entries: Map<Key<K>, (I, V)>,
) -> bool {
    &&& forall|fp: u64| #[trigger]
        buckets.contains_key(fp) ==> bucket_agrees(fp, buckets[fp]@, entries)
    &&& forall|key: Key<K>| #[trigger]
        entries.contains_key(key) ==> buckets.contains_key(key.hash) && listed(
            buckets[key.hash]@,
            key,
        )
}

/// Whether `after` is the table `before` with the bucket of `fp` replaced
/// by `bucket`, or taken away where `bucket` is empty.
spec fn rebucketed<K, V, I: InsertionIndex>(
    before: Map<u64, Vec<(KeyAndIdx<K, I>, V)>>,
    after: Map<u64, Vec<(KeyAndIdx<K, I>, V)>>,
    fp: u64,
    bucket: Seq<(KeyAndIdx<K, I>, V)>,
) -> bool {
    &&& after.contains_key(fp) <==> bucket.len() > 0
    &&& after.contains_key(fp) ==> after[fp]@ == bucket
    &&& forall|g: u64|
        g != fp ==> (#[trigger] after.contains_key(g) <==> before.contains_key(g))
    &&& forall|g: u64| g != fp && #[trigger] after.contains_key(g) ==> after[g] == before[g]
}

/// A table that agrees with its entries says of a question whose bucket
/// holds nothing that fits, or is not there: no entry answers it.
proof fn lemma_no_answer<K: Hash, V, I: InsertionIndex>(
    buckets: Map<u64, Vec<(KeyAndIdx<K, I>, V)>>,
    entries: Map<Key<K>, (I, V)>,
    lookup: Lookup<K, I>,
)
    requires
        agrees(buckets, entries),
        buckets.contains_key(lookup.fingerprint()) ==> forall|j: int|
            0 <= j < buckets[lookup.fingerprint()]@.len() ==> !fits(
                #[trigger] buckets[lookup.fingerprint()]@[j],
                lookup,
            ),
    ensures
        answer(entries, lookup) is None,
{
    let bucket = buckets[lookup.fingerprint()]@;
    match lookup {
        Lookup::ByKey(key) => {
            if entries.contains_key(key.owned()) {
                assert(listed(bucket, key.owned()));
                let j = choose|j: int|
                    0 <= j < bucket.len() && (#[trigger] bucket[j]).0.key == key.owned();
                assert(fits(bucket[j], lookup));
            }
        },
        Lookup::ByIndex(idx) => {
            if exists|key: Key<K>| stamped(entries, idx, key) {
                let key = choose|key: Key<K>| stamped(entries, idx, key);
                assert(listed(bucket, key));
                let j = choose|j: int| 0 <= j < bucket.len() && (#[trigger] bucket[j]).0.key == key;
                assert(bucket[j] == slot_of(key, entries[key]));
                assert(fits(bucket[j], lookup));
            }
        },
    }
}

/// A table that agrees with its entries says of a question that the slot
/// at place `j` of its bucket fits: that slot's entry answers it.
proof fn lemma_the_answer<K: Hash, V, I: InsertionIndex>(
    buckets: Map<u64, Vec<(KeyAndIdx<K, I>, V)>>,
    entries: Map<Key<K>, (I, V)>,
    lookup: Lookup<K, I>,
    j: int,
)
    requires
        agrees(buckets, entries),
        stamps_differ(entries),
        buckets.contains_key(lookup.fingerprint()),
        0 <= j < buckets[lookup.fingerprint()]@.len(),
        fits(buckets[lookup.fingerprint()]@[j], lookup),
    ensures
        answer(entries, lookup) == Some(buckets[lookup.fingerprint()]@[j].0.key),
        entries.contains_key(buckets[lookup.fingerprint()]@[j].0.key),
        buckets[lookup.fingerprint()]@[j] == slot_of(
            buckets[lookup.fingerprint()]@[j].0.key,
            entries[buckets[lookup.fingerprint()]@[j].0.key],
        ),
{
    let slot = buckets[lookup.fingerprint()]@[j];
    match lookup {
        Lookup::ByKey(key) => {
            assert(slot.0.key == key.owned());
        },
        Lookup::ByIndex(idx) => {
            assert(stamped(entries, idx, slot.0.key));
        },
    }
}

/// Where the slot at place `j` leaves the bucket of `fp`, the table agrees
/// with the entries without that slot's entry.
proof fn lemma_agrees_without<K, V, I: InsertionIndex>(
    before: Map<u64, Vec<(KeyAndIdx<K, I>, V)>>,
    after: Map<u64, Vec<(KeyAndIdx<K, I>, V)>>,
    entries: Map<Key<K>, (I, V)>,
    fp: u64,
    j: int,
)
    requires
        agrees(before, entries),
        before.contains_key(fp),
        0 <= j < before[fp]@.len(),
        rebucketed(before, after, fp, before[fp]@.remove(j)),
    ensures
        agrees(after, entries.remove(before[fp]@[j].0.key)),
{
    let full = before[fp]@;
    let rest = full.remove(j);
    let key = full[j].0.key;
    let fewer = entries.remove(key);
    assert forall|g: u64| #[trigger] after.contains_key(g) implies bucket_agrees(
        g,
        after[g]@,
        fewer,
    ) by {
        if g == fp {
            assert forall|i: int| 0 <= i < rest.len() implies {
                &&& (#[trigger] rest[i]).0.key.hash == g
                &&& fewer.contains_key(rest[i].0.key)
                &&& rest[i] == slot_of(rest[i].0.key, fewer[rest[i].0.key])
            } by {
                let was = if i < j { i } else { i + 1 };
                assert(rest[i] == full[was]);
                assert(full[was].0.key != full[j].0.key);
            }
            assert forall|a: int, b: int| 0 <= a < b < rest.len() implies (#[trigger] rest[a]).0.key
                != (#[trigger] rest[b]).0.key by {
                let was_a = if a < j { a } else { a + 1 };
                let was_b = if b < j { b } else { b + 1 };
                assert(rest[a] == full[was_a]);
                assert(rest[b] == full[was_b]);
            }
        } else {
            let other = before[g]@;
            assert(before.contains_key(g));
            assert(bucket_agrees(g, other, entries));
            assert forall|i: int| 0 <= i < other.len() implies (#[trigger] other[i]).0.key != key by {
                assert(other[i].0.key.hash == g);
            }
        }
    }
    assert forall|t: Key<K>| #[trigger] fewer.contains_key(t) implies after.contains_key(t.hash)
        && listed(after[t.hash]@, t) by {
        assert(entries.contains_key(t));
        assert(listed(before[t.hash]@, t));
        if t.hash == fp {
            let was = choose|i: int| 0 <= i < full.len() && (#[trigger] full[i]).0.key == t;
            let i = if was < j { was } else { was - 1 };
            assert(rest[i] == full[was]);
        } else {
            assert(after.contains_key(t.hash));
        }
    }
}

/// Where the slot of a new entry joins the bucket of its fingerprint, at
/// the back, the table agrees with the entries and that entry.
proof fn lemma_agrees_with<K, V, I: InsertionIndex>(
    before: Map<u64, Vec<(KeyAndIdx<K, I>, V)>>,
    after: Map<u64, Vec<(KeyAndIdx<K, I>, V)>>,
    entries: Map<Key<K>, (I, V)>,
    key: Key<K>,
    entry: (I, V),
)
    requires
        agrees(before, entries),
        !entries.contains_key(key),
        rebucketed(
            before,
            after,
            key.hash,
            if before.contains_key(key.hash) {
                before[key.hash]@.push(slot_of(key, entry))
            } else {
                seq![slot_of(key, entry)]
            },
        ),
    ensures
        agrees(after, entries.insert(key, entry)),
{
    let fp = key.hash;
    let earlier = if before.contains_key(fp) {
        before[fp]@
    } else {
        Seq::empty()
    };
    let now = earlier.push(slot_of(key, entry));
    let more = entries.insert(key, entry);
    assert(after[fp]@ =~= now);
    assert(before.contains_key(fp) ==> bucket_agrees(fp, earlier, entries));
    assert forall|g: u64| #[trigger] after.contains_key(g) implies bucket_agrees(
        g,
        after[g]@,
        more,
    ) by {
        if g == fp {
            assert forall|i: int| 0 <= i < now.len() implies {
                &&& (#[trigger] now[i]).0.key.hash == g
                &&& more.contains_key(now[i].0.key)
                &&& now[i] == slot_of(now[i].0.key, more[now[i].0.key])
            } by {
                if i < earlier.len() {
                    assert(now[i] == earlier[i]);
                    assert(entries.contains_key(earlier[i].0.key));
                }
            }
            assert forall|a: int, b: int| 0 <= a < b < now.len() implies (#[trigger] now[a]).0.key
                != (#[trigger] now[b]).0.key by {
                assert(now[a] == earlier[a]);
                assert(entries.contains_key(earlier[a].0.key));
                if b < earlier.len() {
                    assert(now[b] == earlier[b]);
                }
            }
        } else {
            let other = before[g]@;
            assert(before.contains_key(g));
            assert(bucket_agrees(g, other, entries));
            assert forall|i: int| 0 <= i < other.len() implies (#[trigger] other[i]).0.key != key by {
                assert(other[i].0.key.hash == g);
            }
        }
    }
    assert forall|t: Key<K>| #[trigger] more.contains_key(t) implies after.contains_key(t.hash)
        && listed(after[t.hash]@, t) by {
        if t == key {
            assert(now[now.len() - 1].0.key == key);
        } else {
            assert(entries.contains_key(t));
            assert(listed(before[t.hash]@, t));
            if t.hash == fp {
                let i = choose|i: int| 0 <= i < earlier.len() && (#[trigger] earlier[i]).0.key == t;
                assert(now[i] == earlier[i]);
            } else {
                assert(after.contains_key(t.hash));
            }
        }
    }
}

/// A hash table from key tokens to stamped values.
#[verifier::reject_recursive_types(K)]
pub struct EntryStore<K, V, I: InsertionIndex> {
    build: SignalledInjectionBuildHasher<DefaultHasher, RandomState>,
    buckets: HashMap<u64, Vec<(KeyAndIdx<K, I>, V)>>,
    entries: Ghost<Map<Key<K>, (I, V)>>,
}

impl<K, V, I: InsertionIndex> View for EntryStore<K, V, I> {
    type V = Map<Key<K>, (I, V)>;

    /// The entries: for the token of each key, its stamp and its value.
    closed spec fn view(&self) -> Map<Key<K>, (I, V)> {
        self.entries@
    }
}

impl<K: Hash + Eq, V, I: InsertionIndex> EntryStore<K, V, I> {
    /// The store's invariant. Every entry lies in the bucket of its
    /// fingerprint, once; the table holds nothing else; and no two entries
    /// carry one stamp.
    pub closed spec fn wf(&self) -> bool {
        &&& agrees(self.buckets@, self.entries@)
        &&& stamps_differ(self.entries@)
    }

    /// In a well-formed store no two entries carry one stamp.
    pub proof fn lemma_stamps_differ(&self)
        requires
            self.wf(),
        ensures
            stamps_differ(self@),
    {
    }

    /// An empty store.
    pub fn new() -> (store: Self)
        ensures
            store.wf(),
            store@ == Map::<Key<K>, (I, V)>::empty(),
    {
        EntryStore {
            build: SignalledInjectionBuildHasher::new(random_state()),
            buckets: HashMap::new(),
            entries: Ghost(Map::empty()),
        }
    }

    /// What the table hashes `lookup` to: the fingerprint that it carries,
    /// handed through the injecting hasher.
    pub fn bucket_key(&self, lookup: &Lookup<K, I>) -> (fp: u64)
        ensures
            fp == lookup.fingerprint(),
    {
        let mut hasher = self.build.build_hasher();
        lookup.hash(&mut hasher);
        hasher.finish()
    }

    /// The place of the slot that `lookup` asks for, in the bucket of its
    /// fingerprint.
    fn search(bucket: &Vec<(KeyAndIdx<K, I>, V)>, lookup: &Lookup<K, I>) -> (found: Option<usize>)
        requires
            keys_compare_by_value::<K>(),
        ensures
            match found {
                Some(j) => j < bucket@.len() && fits(bucket@[j as int], *lookup),
                None => forall|j: int|
                    0 <= j < bucket@.len() ==> !fits(#[trigger] bucket@[j], *lookup),
            },
    {
        let mut j: usize = 0;
        while j < bucket.len()
            invariant
                j <= bucket@.len(),
                keys_compare_by_value::<K>(),
                forall|i: int| 0 <= i < j ==> !fits(#[trigger] bucket@[i], *lookup),
            decreases bucket@.len() - j,
        {
            let slot = &bucket[j];
            let hit = match lookup {
                Lookup::ByKey(key) => slot.0.key.k == *key.key_ref,
                Lookup::ByIndex(idx) => !slot.0.idx.idx.precedes(&idx.idx) && !idx.idx.precedes(
                    &slot.0.idx.idx,
                ),
            };
            if hit {
                return Some(j);
            }
            j += 1;
        }
        None
    }

    /// The value of the entry that `lookup` asks for.
    pub fn get(&self, lookup: &Lookup<K, I>) -> (found: Option<&V>)
        requires
            self.wf(),
            keys_compare_by_value::<K>(),
        ensures
            match answer(self@, *lookup) {
                Some(key) => found == Some(&self@[key].1),
                None => found is None,
            },
    {
        let fp = self.bucket_key(lookup);
        match self.buckets.get(&fp) {
            None => {
                proof {
                    lemma_no_answer(self.buckets@, self.entries@, *lookup);
                }
                None
            },
            Some(bucket) => {
                match Self::search(bucket, lookup) {
                    None => {
                        proof {
                            lemma_no_answer(self.buckets@, self.entries@, *lookup);
                        }
                        None
                    },
                    Some(j) => {
                        proof {
                            lemma_the_answer(self.buckets@, self.entries@, *lookup, j as int);
                        }
                        Some(&bucket[j].1)
                    },
                }
            },
        }
    }

    /// Removes the entry that `lookup` asks for, and returns it as it was
    /// stored; `None`, and no change, where there is no such entry.
    pub fn remove_entry(&mut self, lookup: &Lookup<K, I>) -> (removed: Option<
        (KeyAndIdx<K, I>, V),
    >)
        requires
            old(self).wf(),
            keys_compare_by_value::<K>(),
        ensures
            final(self).wf(),
            match answer(old(self)@, *lookup) {
                Some(key) => removed == Some(slot_of(key, old(self)@[key])) && final(self)@ == old(
                    self,
                )@.remove(key),
                None => removed is None && final(self)@ == old(self)@,
            },
    {
        let fp = self.bucket_key(lookup);
        let ghost before = self.buckets@;
        let ghost entries = self.entries@;
        match self.buckets.remove(&fp) {
            None => {
                proof {
                    lemma_no_answer(before, entries, *lookup);
                }
                None
            },
            Some(bucket) => {
                let mut bucket = bucket;
                match Self::search(&bucket, lookup) {
                    None => {
                        self.buckets.insert(fp, bucket);
                        proof {
                            assert(self.buckets@ =~= before);
                            lemma_no_answer(before, entries, *lookup);
                        }
                        None
                    },
                    Some(j) => {
                        let slot = bucket.remove(j);
                        if bucket.len() > 0 {
                            self.buckets.insert(fp, bucket);
                        }
                        proof {
                            self.entries@ = entries.remove(slot.0.key);
                            lemma_the_answer(before, entries, *lookup, j as int);
                            lemma_agrees_without(before, self.buckets@, entries, fp, j as int);
                        }
                        Some(slot)
                    },
                }
            },
        }
    }

    /// Stores `value` under `token`. An entry that was stored under the
    /// same key leaves first: a stored pair is replaced as a whole.
    pub fn insert(&mut self, token: KeyAndIdx<K, I>, value: V)
        requires
            old(self).wf(),
            keys_compare_by_value::<K>(),
            token.idx.hash == token.key.hash,
            forall|other: Key<K>|
                old(self)@.contains_key(other) && other != token.key ==> old(self)@[other].0.value()
                    != token.idx.idx.value(),
        ensures
            final(self).wf(),
            final(self)@ == old(self)@.insert(token.key, (token.idx.idx, value)),
    {
        let question = Lookup::ByKey(KeyRef::new(&token.key.k, token.key.hash));
        let _replaced = self.remove_entry(&question);
        let fp = self.bucket_key(&question);
        let ghost before = self.buckets@;
        let ghost entries = self.entries@;
        let ghost key = token.key;
        let ghost entry = (token.idx.idx, value);
        let mut bucket = match self.buckets.remove(&fp) {
            Some(bucket) => bucket,
            None => Vec::new(),
        };
        bucket.push((token, value));
        self.buckets.insert(fp, bucket);
        proof {
            self.entries@ = entries.insert(key, entry);
            assert(entries =~= old(self)@.remove(key));
            assert(self.entries@ =~= old(self)@.insert(key, entry));
            lemma_agrees_with(before, self.buckets@, entries, key, entry);
        }
    }
}

} // verus!
