//! The bounded in-memory stage: a sorted map from key to value-or-tombstone
//! that absorbs recent writes until it is drained into a run.

use vstd::prelude::*;
use crate::sstable::{
    Entry, sorted_entries, spec_lookup, lemma_lookup_found, lemma_lookup_none,
};

verus! {

/// `es` with `value` recorded under `key`: an existing entry for the key is
/// replaced, otherwise the entry is inserted at its place in key order.
pub open spec fn spec_insert_sorted(es: Seq<Entry>, key: u64, value: Option<u64>) -> Seq<
    Entry,
>
    decreases es.len(),
{
    if es.len() == 0 {
        seq![(key, value)]
    } else if es[0].0 < key {
        seq![es[0]] + spec_insert_sorted(es.skip(1), key, value)
    } else if es[0].0 == key {
        seq![(key, value)] + es.skip(1)
    } else {
        seq![(key, value)] + es
    }
}

/// Where the scan stopped determines the inserted sequence: a matching key
/// is replaced in place, otherwise the entry lands at the scan position.
proof fn lemma_insert_sorted_at(es: Seq<Entry>, key: u64, value: Option<u64>, i: int)
    requires
        sorted_entries(es),
        0 <= i <= es.len(),
        forall|j: int| 0 <= j < i ==> (#[trigger] es[j].0) < key,
        i < es.len() ==> es[i].0 >= key,
    ensures
        (i < es.len() && es[i].0 == key) ==> spec_insert_sorted(es, key, value) == es.update(
            i,
            (key, value),
        ),
        (i == es.len() || es[i].0 > key) ==> spec_insert_sorted(es, key, value) == es.insert(
            i,
            (key, value),
        ),
    decreases i,
{
    if i == 0 {
        if es.len() == 0 {
            assert(spec_insert_sorted(es, key, value) =~= es.insert(0, (key, value)));
        } else if es[0].0 == key {
            assert(seq![(key, value)] + es.skip(1) =~= es.update(0, (key, value)));
        } else {
            assert(seq![(key, value)] + es =~= es.insert(0, (key, value)));
        }
    } else {
        assert(es[0].0 < key);
        lemma_insert_sorted_at(es.skip(1), key, value, i - 1);
        if i < es.len() && es[i].0 == key {
            assert(es.skip(1)[i - 1].0 == key);
            assert(seq![es[0]] + es.skip(1).update(i - 1, (key, value)) =~= es.update(
                i,
                (key, value),
            ));
        } else {
            assert(seq![es[0]] + es.skip(1).insert(i - 1, (key, value)) =~= es.insert(
                i,
                (key, value),
            ));
        }
    }
}

/// A bounded, sorted in-memory map from key to value-or-tombstone.
pub struct MemoryStage {
    entries: Vec<Entry>,
    capacity: usize,
}

impl View for MemoryStage {
    type V = Seq<Entry>;

    closed spec fn view(&self) -> Seq<Entry> {
        self.entries@
    }
}

impl MemoryStage {
    /// The fullness threshold the stage was created with.
    pub closed spec fn spec_capacity(self) -> nat {
        self.capacity as nat
    }

    /// Keys are strictly increasing and the threshold is positive.
    pub open spec fn wf(self) -> bool {
        &&& sorted_entries(self@)
        &&& self.spec_capacity() >= 1
    }

    /// Creates an empty stage that reports itself full at `capacity` entries.
    pub fn new(capacity: usize) -> (r: Self)
        requires
            capacity >= 1,
        ensures
            r.wf(),
            r@ == Seq::<Entry>::empty(),
            r.spec_capacity() == capacity,
    {
        MemoryStage { entries: Vec::new(), capacity }
    }

    /// Records `value` (or a tombstone, for `None`) under `key`, returning
    /// what the stage previously held for the key.
    pub fn insert(&mut self, key: u64, value: Option<u64>) -> (r: Option<Option<u64>>)
        requires
            old(self).wf(),
        ensures
            final(self).wf(),
            final(self).spec_capacity() == old(self).spec_capacity(),
            r == spec_lookup(old(self)@, key),
            spec_lookup(final(self)@, key) == Some(value),
            forall|k2: u64| k2 != key ==> spec_lookup(final(self)@, k2) == spec_lookup(
                old(self)@,
                k2,
            ),
            final(self)@.len() == old(self)@.len() + (if spec_lookup(old(self)@, key) is Some {
                0int
            } else {
                1int
            }),
            final(self)@ == spec_insert_sorted(old(self)@, key, value),
    {
        let ghost es_old = self@;
        let mut i: usize = 0;
        while i < self.entries.len()
            invariant
                i <= self.entries@.len(),
                self.wf(),
                self@ == es_old,
                forall|j: int| 0 <= j < i ==> (#[trigger] self.entries@[j].0) < key,
            ensures
                i == self.entries@.len() || (i < self.entries@.len()
                    && self.entries@[i as int].0 >= key),
                i <= self.entries@.len(),
                self@ == es_old,
                forall|j: int| 0 <= j < i ==> (#[trigger] self.entries@[j].0) < key,
            decreases self.entries@.len() - i,
        {
            if self.entries[i].0 >= key {
                break;
            }
            i += 1;
        }
        proof {
            assert(forall|j: int| i <= j < es_old.len() && j > i ==> es_old[i as int].0 < (
            #[trigger] es_old[j].0));
        }
        if i < self.entries.len() && self.entries[i].0 == key {
            // replace in place
            let old_value = self.entries[i].1;
            self.entries.remove(i);
            self.entries.insert(i, (key, value));
            proof {
                assert(self@ =~= es_old.update(i as int, (key, value)));
                lemma_insert_sorted_at(es_old, key, value, i as int);
                lemma_lookup_found(es_old, i as int);
                lemma_lookup_found(self@, i as int);
                assert forall|k2: u64| k2 != key implies spec_lookup(self@, k2) == spec_lookup(
                    es_old,
                    k2,
                ) by {
                    Self::lemma_lookup_pointwise(es_old, self@, i as int, k2);
                }
            }
            Some(old_value)
        } else {
            proof {
                assert forall|m: int| 0 <= m < es_old.len() implies (#[trigger] es_old[m].0)
                    != key by {
                    if m > i {
                        assert(es_old[i as int].0 < es_old[m].0);
                    }
                }
                lemma_lookup_none(es_old, key);
            }
            self.entries.insert(i, (key, value));
            proof {
                assert(self@ =~= es_old.insert(i as int, (key, value)));
                lemma_insert_sorted_at(es_old, key, value, i as int);
                lemma_lookup_found(self@, i as int);
                assert forall|k2: u64| k2 != key implies spec_lookup(self@, k2) == spec_lookup(
                    es_old,
                    k2,
                ) by {
                    Self::lemma_lookup_inserted(es_old, self@, i as int, k2);
                }
            }
            None
        }
    }

    /// Looks the key up in the stage alone.
    pub fn get(&self, key: u64) -> (r: Option<Option<u64>>)
        requires
            self.wf(),
        ensures
            r == spec_lookup(self@, key),
    {
        let mut i: usize = 0;
        while i < self.entries.len()
            invariant
                i <= self.entries@.len(),
                self.wf(),
                forall|j: int| 0 <= j < i ==> (#[trigger] self.entries@[j].0) != key,
            decreases self.entries@.len() - i,
        {
            if self.entries[i].0 == key {
                proof {
                    lemma_lookup_found(self@, i as int);
                }
                return Some(self.entries[i].1);
            }
            i += 1;
        }
        proof {
            lemma_lookup_none(self@, key);
        }
        None
    }

    /// Number of entries (tombstones included).
    pub fn len(&self) -> (r: usize)
        ensures
            r == self@.len(),
    {
        self.entries.len()
    }

    /// The stage is full once it reached its threshold; a full stage is the
    /// sole trigger for a flush.
    pub fn is_full(&self) -> (r: bool)
        ensures
            r == (self@.len() >= self.spec_capacity()),
    {
        self.entries.len() >= self.capacity
    }

    /// Removes and returns all entries in key order, leaving the stage empty.
    pub fn drain_sorted(&mut self) -> (r: Vec<Entry>)
        requires
            old(self).wf(),
        ensures
            final(self).wf(),
            final(self)@ == Seq::<Entry>::empty(),
            final(self).spec_capacity() == old(self).spec_capacity(),
            r@ == old(self)@,
    {
        let mut out: Vec<Entry> = Vec::new();
        core::mem::swap(&mut out, &mut self.entries);
        out
    }

    /// In two sequences that agree everywhere except at position `i`, where
    /// both hold the same key, lookups of other keys agree.
    proof fn lemma_lookup_pointwise(a: Seq<Entry>, b: Seq<Entry>, i: int, k2: u64)
        requires
            sorted_entries(a),
            sorted_entries(b),
            a.len() == b.len(),
            0 <= i < a.len(),
            a[i].0 == b[i].0,
            forall|m: int| 0 <= m < a.len() && m != i ==> a[m] == b[m],
            k2 != a[i].0,
        ensures
            spec_lookup(a, k2) == spec_lookup(b, k2),
    {
        if exists|m: int| 0 <= m < a.len() && (#[trigger] a[m].0) == k2 {
            let m = choose|m: int| 0 <= m < a.len() && (#[trigger] a[m].0) == k2;
            assert(m != i);
            lemma_lookup_found(a, m);
            lemma_lookup_found(b, m);
        } else {
            assert(forall|m: int| 0 <= m < a.len() ==> (#[trigger] a[m].0) != k2);
            assert forall|m: int| 0 <= m < b.len() implies (#[trigger] b[m].0) != k2 by {
                if m != i {
                    assert(a[m] == b[m]);
                }
            }
            lemma_lookup_none(a, k2);
            lemma_lookup_none(b, k2);
        }
    }

    /// Inserting an entry at position `i` leaves lookups of other keys
    /// unchanged.
    proof fn lemma_lookup_inserted(a: Seq<Entry>, b: Seq<Entry>, i: int, k2: u64)
        requires
            sorted_entries(a),
            sorted_entries(b),
            0 <= i <= a.len(),
            b == a.insert(i, b[i]),
            k2 != b[i].0,
        ensures
            spec_lookup(a, k2) == spec_lookup(b, k2),
    {
        if exists|m: int| 0 <= m < a.len() && (#[trigger] a[m].0) == k2 {
            let m = choose|m: int| 0 <= m < a.len() && (#[trigger] a[m].0) == k2;
            lemma_lookup_found(a, m);
            if m < i {
                assert(b[m] == a[m]);
                lemma_lookup_found(b, m);
            } else {
                assert(b[m + 1] == a[m]);
                lemma_lookup_found(b, m + 1);
            }
        } else {
            assert(forall|m: int| 0 <= m < a.len() ==> (#[trigger] a[m].0) != k2);
            assert forall|m: int| 0 <= m < b.len() implies (#[trigger] b[m].0) != k2 by {
                if m < i {
                    assert(b[m] == a[m]);
                } else if m > i {
                    assert(b[m] == a[m - 1]);
                }
            }
            lemma_lookup_none(a, k2);
            lemma_lookup_none(b, k2);
        }
    }
}

} // verus!
