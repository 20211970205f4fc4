//! What a recency cache is, stated on sequences: the entries in eviction
//! order, the oldest at the front, and what `put` and `get` make of them.
//!
//! Both caches of this crate promise exactly these functions of their views,
//! so what is proved here of the functions holds of the caches.
use vstd::prelude::*;

verus! {

/// One live entry: the token that identifies it, and its value.
pub struct Entry<T, V> {
    pub token: T,
    pub value: V,
}

/// Whether some entry of `s` is identified by `token`.
pub open spec fn present<T, V>(s: Seq<Entry<T, V>>, token: T) -> bool {
    exists|i: int| 0 <= i < s.len() && (#[trigger] s[i]).token == token
}

/// The place of the entry identified by `token`, where there is one.
pub open spec fn place_of<T, V>(s: Seq<Entry<T, V>>, token: T) -> int {
    choose|i: int| 0 <= i < s.len() && (#[trigger] s[i]).token == token
}

/// Whether no token identifies two entries of `s`.
pub open spec fn distinct<T, V>(s: Seq<Entry<T, V>>) -> bool {
    forall|i: int, j: int| 0 <= i < j < s.len() ==> s[i].token != s[j].token
}

/// The entries after the one at place `p` was touched: it leaves its place
/// and becomes the newest.
pub open spec fn touch<T, V>(s: Seq<Entry<T, V>>, p: int) -> Seq<Entry<T, V>> {
    s.remove(p).push(s[p])
}

/// The entries after `put(token, value)` on a cache of `capacity` entries.
///
/// A token that is present has its value replaced and becomes the newest. A
/// new token joins as the newest, and the oldest entry leaves first where
/// the cache is full. A cache of capacity zero stays empty: whatever is put
/// into it is evicted at once.
pub open spec fn put<T, V>(s: Seq<Entry<T, V>>, capacity: nat, token: T, value: V) -> Seq<
    Entry<T, V>,
> {
    if capacity == 0 {
        s
    } else if present(s, token) {
        s.remove(place_of(s, token)).push(Entry { token, value })
    } else if s.len() >= capacity {
        s.remove(0).push(Entry { token, value })
    } else {
        s.push(Entry { token, value })
    }
}

/// What `get(token)` returns: the value of the entry, if there is one.
pub open spec fn lookup<T, V>(s: Seq<Entry<T, V>>, token: T) -> Option<V> {
    if present(s, token) {
        Some(s[place_of(s, token)].value)
    } else {
        None
    }
}

/// The entries after `get(token)`: a hit touches the entry, a miss changes
/// nothing.
pub open spec fn get<T, V>(s: Seq<Entry<T, V>>, token: T) -> Seq<Entry<T, V>> {
    if present(s, token) {
        touch(s, place_of(s, token))
    } else {
        s
    }
}

/// Among distinct entries a token has one place only.
pub proof fn lemma_place_is_unique<T, V>(s: Seq<Entry<T, V>>, p: int)
    requires
        distinct(s),
        0 <= p < s.len(),
    ensures
        present(s, s[p].token),
        place_of(s, s[p].token) == p,
{
    let token = s[p].token;
    assert(present(s, token));
    let q = place_of(s, token);
    if q < p {
        assert(s[q].token != s[p].token);
    }
    if p < q {
        assert(s[p].token != s[q].token);
    }
}

/// Taking one entry out of distinct entries leaves distinct entries, none of
/// them identified by the token that left.
pub proof fn lemma_remove_keeps_distinct<T, V>(s: Seq<Entry<T, V>>, p: int)
    requires
        distinct(s),
        0 <= p < s.len(),
    ensures
        distinct(s.remove(p)),
        !present(s.remove(p), s[p].token),
        forall|t: T| t != s[p].token ==> (present(s.remove(p), t) <==> present(s, t)),
{
    let r = s.remove(p);
    assert forall|i: int, j: int| 0 <= i < j < r.len() implies r[i].token != r[j].token by {
        let si = if i < p { i } else { i + 1 };
        let sj = if j < p { j } else { j + 1 };
        assert(r[i] == s[si]);
        assert(r[j] == s[sj]);
    }
    if present(r, s[p].token) {
        let i = place_of(r, s[p].token);
        let si = if i < p { i } else { i + 1 };
        assert(r[i] == s[si]);
        if si < p {
            assert(s[si].token != s[p].token);
        } else {
            assert(s[p].token != s[si].token);
        }
    }
    assert forall|t: T| t != s[p].token implies (present(r, t) <==> present(s, t)) by {
        if present(r, t) {
            let i = place_of(r, t);
            let si = if i < p { i } else { i + 1 };
            assert(r[i] == s[si]);
            assert(s[si].token == t);
        }
        if present(s, t) {
            let si = place_of(s, t);
            let i = if si < p { si } else { si - 1 };
            assert(r[i] == s[si]);
            assert(r[i].token == t);
        }
    }
}

/// Adding an entry under a token that is not present keeps the entries
/// distinct.
pub proof fn lemma_push_keeps_distinct<T, V>(s: Seq<Entry<T, V>>, e: Entry<T, V>)
    requires
        distinct(s),
        !present(s, e.token),
    ensures
        distinct(s.push(e)),
        present(s.push(e), e.token),
        place_of(s.push(e), e.token) == s.len(),
{
    let r = s.push(e);
    assert forall|i: int, j: int| 0 <= i < j < r.len() implies r[i].token != r[j].token by {
        if j == s.len() {
            assert(r[i] == s[i]);
            if s[i].token == e.token {
                assert(present(s, e.token));
            }
        } else {
            assert(r[i] == s[i]);
            assert(r[j] == s[j]);
        }
    }
    assert(r[s.len() as int] == e);
    lemma_place_is_unique(r, s.len() as int);
}

/// `put` and `get` keep the entries distinct.
pub proof fn lemma_distinct_is_kept<T, V>(s: Seq<Entry<T, V>>, capacity: nat, token: T, value: V)
    requires
        distinct(s),
    ensures
        distinct(put(s, capacity, token, value)),
        distinct(get(s, token)),
{
    if present(s, token) {
        let p = place_of(s, token);
        lemma_remove_keeps_distinct(s, p);
        lemma_push_keeps_distinct(s.remove(p), Entry { token, value });
        lemma_push_keeps_distinct(s.remove(p), s[p]);
    } else if s.len() >= capacity && capacity > 0 {
        lemma_remove_keeps_distinct(s, 0);
        lemma_push_keeps_distinct(s.remove(0), Entry { token, value });
    } else {
        lemma_push_keeps_distinct(s, Entry { token, value });
    }
}

/// The capacity invariant: no `put` and no `get` takes the number of
/// entries above the capacity.
pub proof fn lemma_capacity_is_kept<T, V>(s: Seq<Entry<T, V>>, capacity: nat, token: T, value: V)
    requires
        s.len() <= capacity,
    ensures
        put(s, capacity, token, value).len() <= capacity,
        get(s, token).len() == s.len(),
{
}

/// On a full cache, a `put` under a token that is not present evicts the
/// entry touched longest ago and no other: the oldest token is gone, every
/// other entry keeps its place in the order, and the new entry is the
/// newest.
pub proof fn lemma_full_put_evicts_oldest<T, V>(
    s: Seq<Entry<T, V>>,
    capacity: nat,
    token: T,
    value: V,
)
    requires
        distinct(s),
        capacity > 0,
        s.len() == capacity,
        !present(s, token),
    ensures
        put(s, capacity, token, value) == s.subrange(1, s.len() as int).push(
            Entry { token, value },
        ),
        !present(put(s, capacity, token, value), s[0].token),
        forall|t: T|
            t != s[0].token && present(s, t) ==> lookup(put(s, capacity, token, value), t)
                == lookup(s, t),
        lookup(put(s, capacity, token, value), token) == Some(value),
{
    let e = Entry { token, value };
    let rest = s.remove(0);
    let r = put(s, capacity, token, value);
    assert(rest =~= s.subrange(1, s.len() as int));
    lemma_remove_keeps_distinct(s, 0);
    lemma_push_keeps_distinct(rest, e);
    assert(r[rest.len() as int] == e);
    if present(r, s[0].token) {
        let i = place_of(r, s[0].token);
        if i < rest.len() {
            assert(r[i] == rest[i]);
            assert(present(rest, s[0].token));
        }
    }
    assert forall|t: T| t != s[0].token && present(s, t) implies lookup(r, t) == lookup(s, t) by {
        let si = place_of(s, t);
        assert(si != 0);
        assert(r[si - 1] == s[si]);
        lemma_place_is_unique(r, si - 1);
    }
}

/// Recency ordering: a hit of `get` and a replacing `put` make the touched
/// entry the newest, and leave the others in the order they had.
pub proof fn lemma_touch_moves_to_back<T, V>(s: Seq<Entry<T, V>>, capacity: nat, token: T, value: V)
    requires
        distinct(s),
        s.len() <= capacity,
        present(s, token),
    ensures
        get(s, token).len() == s.len(),
        get(s, token).last() == s[place_of(s, token)],
        get(s, token).drop_last() == s.remove(place_of(s, token)),
        put(s, capacity, token, value).len() == s.len(),
        put(s, capacity, token, value).last() == (Entry { token, value }),
        put(s, capacity, token, value).drop_last() == s.remove(place_of(s, token)),
        place_of(get(s, token), token) == s.len() - 1,
        place_of(put(s, capacity, token, value), token) == s.len() - 1,
{
    let p = place_of(s, token);
    let g = get(s, token);
    let r = put(s, capacity, token, value);
    assert(g.drop_last() =~= s.remove(p));
    assert(r.drop_last() =~= s.remove(p));
    lemma_distinct_is_kept(s, capacity, token, value);
    assert(g[s.len() - 1] == s[p]);
    assert(r[s.len() - 1] == (Entry { token, value }));
    lemma_place_is_unique(g, s.len() - 1);
    lemma_place_is_unique(r, s.len() - 1);
}

/// Idempotent miss: `get` under a token that is not present returns nothing
/// and leaves every entry where it was.
pub proof fn lemma_miss_changes_nothing<T, V>(s: Seq<Entry<T, V>>, token: T)
    requires
        !present(s, token),
    ensures
        lookup(s, token) is None,
        get(s, token) == s,
{
}

/// After a `put` on a cache that can hold anything, the token is present
/// as the newest entry, with the value that was put.
pub proof fn lemma_put_is_present<T, V>(s: Seq<Entry<T, V>>, capacity: nat, token: T, value: V)
    requires
        distinct(s),
        capacity > 0,
    ensures
        present(put(s, capacity, token, value), token),
        place_of(put(s, capacity, token, value), token) == put(s, capacity, token, value).len() - 1,
        lookup(put(s, capacity, token, value), token) == Some(value),
        put(s, capacity, token, value).last() == (Entry { token, value }),
{
    let r = put(s, capacity, token, value);
    lemma_distinct_is_kept(s, capacity, token, value);
    assert(r[r.len() - 1] == (Entry { token, value }));
    lemma_place_is_unique(r, r.len() - 1);
}

/// Replacement: a second `put` under one token leaves the size as the first
/// made it, makes `get` return the second value, and leaves the token's
/// entry the newest.
pub proof fn lemma_put_replaces<T, V>(
    s: Seq<Entry<T, V>>,
    capacity: nat,
    token: T,
    first: V,
    second: V,
)
    requires
        distinct(s),
        capacity > 0,
        s.len() <= capacity,
    ensures
        ({
            let once = put(s, capacity, token, first);
            let twice = put(once, capacity, token, second);
            &&& twice.len() == once.len()
            &&& lookup(twice, token) == Some(second)
            &&& twice.last() == (Entry { token, value: second })
            &&& twice.drop_last() == once.drop_last()
        }),
{
    let once = put(s, capacity, token, first);
    lemma_distinct_is_kept(s, capacity, token, first);
    lemma_put_is_present(s, capacity, token, first);
    lemma_touch_moves_to_back(once, capacity, token, second);
    let twice = put(once, capacity, token, second);
    lemma_put_is_present(once, capacity, token, second);
    assert(place_of(once, token) == once.len() - 1);
    assert(once.remove(once.len() - 1) =~= once.drop_last());
}

/// One call on a cache: a `put` or a `get`.
pub enum Step<T, V> {
    Put(T, V),
    Get(T),
}

/// The entries after one call.
pub open spec fn step<T, V>(s: Seq<Entry<T, V>>, capacity: nat, call: Step<T, V>) -> Seq<
    Entry<T, V>,
> {
    match call {
        Step::Put(token, value) => put(s, capacity, token, value),
        Step::Get(token) => get(s, token),
    }
}

/// The entries after the calls of `calls`, one after the other from the
/// front, on a cache that held `s`.
pub open spec fn run<T, V>(s: Seq<Entry<T, V>>, capacity: nat, calls: Seq<Step<T, V>>) -> Seq<
    Entry<T, V>,
>
    decreases calls.len(),
{
    if calls.len() == 0 {
        s
    } else {
        step(run(s, capacity, calls.drop_last()), capacity, calls.last())
    }
}

/// The capacity invariant, for every sequence of calls: whatever is put
/// and got, in whatever order, the cache never holds more entries than its
/// capacity, and never two under one token.
pub proof fn lemma_every_run_keeps_capacity<T, V>(
    s: Seq<Entry<T, V>>,
    capacity: nat,
    calls: Seq<Step<T, V>>,
)
    requires
        distinct(s),
        s.len() <= capacity,
    ensures
        distinct(run(s, capacity, calls)),
        run(s, capacity, calls).len() <= capacity,
    decreases calls.len(),
{
    if calls.len() > 0 {
        let earlier = run(s, capacity, calls.drop_last());
        lemma_every_run_keeps_capacity(s, capacity, calls.drop_last());
        match calls.last() {
            Step::Put(token, value) => {
                lemma_distinct_is_kept(earlier, capacity, token, value);
                lemma_capacity_is_kept(earlier, capacity, token, value);
            },
            Step::Get(token) => {
                if present(earlier, token) {
                    let p = place_of(earlier, token);
                    lemma_remove_keeps_distinct(earlier, p);
                    lemma_push_keeps_distinct(earlier.remove(p), earlier[p]);
                }
            },
        }
    }
}

/// The entries after the entries of `items` were put, one after the other
/// from the front, into a cache that held `s`.
pub open spec fn put_all<T, V>(s: Seq<Entry<T, V>>, capacity: nat, items: Seq<Entry<T, V>>) -> Seq<
    Entry<T, V>,
>
    decreases items.len(),
{
    if items.len() == 0 {
        s
    } else {
        put(
            put_all(s, capacity, items.drop_last()),
            capacity,
            items.last().token,
            items.last().value,
        )
    }
}

/// Puts under distinct tokens, no more of them than the cache holds, fill
/// an empty cache with just these entries, in the order of the puts.
pub proof fn lemma_distinct_puts_fill<T, V>(capacity: nat, items: Seq<Entry<T, V>>)
    requires
        distinct(items),
        items.len() <= capacity,
    ensures
        put_all(Seq::empty(), capacity, items) == items,
    decreases items.len(),
{
    if items.len() > 0 {
        let front = items.drop_last();
        lemma_distinct_puts_fill(capacity, front);
        if present(front, items.last().token) {
            let i = place_of(front, items.last().token);
            assert(front[i] == items[i]);
            assert(items[i].token != items[items.len() - 1].token);
        }
        assert(front.push(items.last()) =~= items);
    }
}

/// The capacity in use: after `capacity` puts under distinct tokens into an
/// empty cache, one more put under yet another token evicts the entry that
/// was put first, and no other.
pub proof fn lemma_put_beyond_capacity_evicts_first<T, V>(
    capacity: nat,
    items: Seq<Entry<T, V>>,
    token: T,
    value: V,
)
    requires
        capacity > 0,
        distinct(items),
        items.len() == capacity,
        !present(items, token),
    ensures
        put(put_all(Seq::empty(), capacity, items), capacity, token, value) == items.subrange(
            1,
            items.len() as int,
        ).push(Entry { token, value }),
        !present(
            put(put_all(Seq::empty(), capacity, items), capacity, token, value),
            items[0].token,
        ),
{
    lemma_distinct_puts_fill(capacity, items);
    lemma_full_put_evicts_oldest(items, capacity, token, value);
}

} // verus!
