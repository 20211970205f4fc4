//! The recency list: one record per live entry, oldest first.
use vstd::prelude::*;
use crate::InsertionIndex;

verus! {

/// One record of the list: the stamp of an entry's last touch, and what the
/// cache needs to find that entry again.
pub struct Record<I, T> {
    pub idx: I,
    pub tag: T,
}

/// Whether the stamps of `s` rise strictly from front to back.
pub open spec fn ascending<I: InsertionIndex, T>(s: Seq<Record<I, T>>) -> bool {
    forall|i: int, j: int| 0 <= i < j < s.len() ==> s[i].idx.value() < s[j].idx.value()
}

/// Whether some record of `s` carries the stamp `stamp`.
pub open spec fn holds<I: InsertionIndex, T>(s: Seq<Record<I, T>>, stamp: nat) -> bool {
    exists|i: int| 0 <= i < s.len() && #[trigger] s[i].idx.value() == stamp
}

/// The place of the record that carries `stamp`, where there is one.
pub open spec fn place<I: InsertionIndex, T>(s: Seq<Record<I, T>>, stamp: nat) -> int {
    choose|i: int| 0 <= i < s.len() && #[trigger] s[i].idx.value() == stamp
}

/// In an ascending list a stamp has one place only.
pub proof fn lemma_place_is_unique<I: InsertionIndex, T>(s: Seq<Record<I, T>>, p: int)
    requires
        ascending(s),
        0 <= p < s.len(),
    ensures
        holds(s, s[p].idx.value()),
        place(s, s[p].idx.value()) == p,
{
    let stamp = s[p].idx.value();
    assert(holds(s, stamp));
    let q = place(s, stamp);
    if q < p {
        assert(s[q].idx.value() < s[p].idx.value());
    }
    if p < q {
        assert(s[p].idx.value() < s[q].idx.value());
    }
}

/// In an ascending list no stamp is smaller than the number of records in
/// front of it.
pub proof fn lemma_stamp_covers_place<I: InsertionIndex, T>(s: Seq<Record<I, T>>, p: int)
    requires
        ascending(s),
        0 <= p < s.len(),
    ensures
        s[p].idx.value() >= p,
    decreases p,
{
    if p > 0 {
        lemma_stamp_covers_place(s, p - 1);
        assert(s[p - 1].idx.value() < s[p].idx.value());
    }
}

/// An ascending sequence of records, the oldest at the front.
pub struct RecencyList<I: InsertionIndex, T> {
    records: Vec<Record<I, T>>,
}

impl<I: InsertionIndex, T> View for RecencyList<I, T> {
    type V = Seq<Record<I, T>>;

    closed spec fn view(&self) -> Seq<Record<I, T>> {
        self.records@
    }
}

impl<I: InsertionIndex, T> RecencyList<I, T> {
    /// The list's invariant: its stamps rise strictly.
    pub open spec fn wf(&self) -> bool {
        ascending(self@)
    }

    /// An empty list.
    pub fn new() -> (list: Self)
        ensures
            list@ == Seq::<Record<I, T>>::empty(),
            list.wf(),
    {
        RecencyList { records: Vec::new() }
    }

    /// The number of records.
    pub fn len(&self) -> (n: usize)
        ensures
            n == self@.len(),
    {
        self.records.len()
    }

    /// The record at place `i`.
    pub fn record(&self, i: usize) -> (r: &Record<I, T>)
        requires
            i < self@.len(),
        ensures
            *r == self@[i as int],
    {
        &self.records[i]
    }

    /// Appends a record whose stamp is newer than every stamp in the list.
    pub fn push_back(&mut self, idx: I, tag: T)
        requires
            old(self).wf(),
            forall|i: int| 0 <= i < old(self)@.len() ==> old(self)@[i].idx.value() < idx.value(),
        ensures
            final(self)@ == old(self)@.push(Record { idx, tag }),
            final(self).wf(),
    {
        self.records.push(Record { idx, tag });
    }

    /// Removes and returns the oldest record; `None` only on an empty list.
    pub fn remove_front(&mut self) -> (front: Option<Record<I, T>>)
        requires
            old(self).wf(),
        ensures
            final(self).wf(),
            old(self)@.len() == 0 ==> front is None && final(self)@ == old(self)@,
            old(self)@.len() > 0 ==> front == Some(old(self)@[0]) && final(self)@ == old(
                self,
            )@.remove(0),
    {
        if self.records.len() == 0 {
            None
        } else {
            let front = self.records.remove(0);
            Some(front)
        }
    }

    /// Finds the place of the record stamped `idx` by halving the list.
    pub fn position(&self, idx: &I) -> (found: Option<usize>)
        requires
            self.wf(),
        ensures
            match found {
                Some(p) => p < self@.len() && self@[p as int].idx.value() == idx.value() && p
                    == place(self@, idx.value()),
                None => !holds(self@, idx.value()),
            },
    {
        let mut low: usize = 0;
        let mut high: usize = self.records.len();
        while low < high
            invariant
                low <= high <= self.records@.len(),
                ascending(self.records@),
                forall|i: int| 0 <= i < low ==> self.records@[i].idx.value() < idx.value(),
                forall|i: int|
                    high <= i < self.records@.len() ==> idx.value() < self.records@[i].idx.value(),
            decreases high - low,
        {
            let mid: usize = low + (high - low) / 2;
            let probe = &self.records[mid];
            if probe.idx.precedes(idx) {
                low = mid + 1;
            } else if idx.precedes(&probe.idx) {
                high = mid;
            } else {
                proof {
                    lemma_place_is_unique(self@, mid as int);
                }
                return Some(mid);
            }
        }
        None
    }

    /// Removes and returns the record stamped `idx`; `None`, and no change,
    /// where the list holds no such record.
    pub fn remove_at(&mut self, idx: &I) -> (removed: Option<Record<I, T>>)
        requires
            old(self).wf(),
        ensures
            final(self).wf(),
            holds(old(self)@, idx.value()) ==> removed == Some(
                old(self)@[place(old(self)@, idx.value())],
            ) && final(self)@ == old(self)@.remove(place(old(self)@, idx.value())),
            !holds(old(self)@, idx.value()) ==> removed is None && final(self)@ == old(self)@,
    {
        match self.position(idx) {
            Some(p) => {
                let removed = self.records.remove(p);
                Some(removed)
            },
            None => None,
        }
    }

    /// Gives the record at place `pos` the stamp `idx`, which must keep the
    /// list ascending.
    pub fn restamp(&mut self, pos: usize, idx: I)
        requires
            old(self).wf(),
            pos < old(self)@.len(),
            pos > 0 ==> old(self)@[pos - 1].idx.value() < idx.value(),
            pos + 1 < old(self)@.len() ==> idx.value() < old(self)@[pos + 1].idx.value(),
        ensures
            final(self).wf(),
            final(self)@ == old(self)@.update(
                pos as int,
                Record { idx, tag: old(self)@[pos as int].tag },
            ),
    {
        self.records[pos].idx = idx;
    }
}

} // verus!
