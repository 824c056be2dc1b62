//! An ordered set of `u64` keys.
//!
//! The set keeps its keys in a strictly increasing vector, so membership,
//! nearest-key queries, and in-order iteration all follow from one
//! well-formedness invariant. It is one of the ordered containers a store's
//! in-memory stage can be built on.

use vstd::prelude::*;

verus! {

/// An ordered set of `u64` keys.
pub struct SplaySet {
    items: Vec<u64>,
}

/// An owning in-order iterator for `SplaySet`.
pub struct SplaySetIntoIter {
    items: Vec<u64>,
    pos: usize,
}

/// A borrowing in-order iterator for `SplaySet` (the keys are copied out).
pub struct SplaySetIter {
    items: Vec<u64>,
    pos: usize,
}

impl View for SplaySet {
    type V = Seq<u64>;

    closed spec fn view(&self) -> Seq<u64> {
        self.items@
    }
}

impl SplaySet {
    /// The keys are strictly increasing.
    pub open spec fn wf(self) -> bool {
        forall|i: int, j: int| 0 <= i < j < self@.len() ==> self@[i] < self@[j]
    }

    /// Constructs a new, empty `SplaySet`.
    pub fn new() -> (r: Self)
        ensures
            r.wf(),
            r@ == Seq::<u64>::empty(),
    {
        SplaySet { items: Vec::new() }
    }

    /// Inserts a key into the set. If the key already exists in the set, it
    /// returns the key and the set is unchanged.
    pub fn insert(&mut self, key: u64) -> (r: Option<u64>)
        requires
            old(self).wf(),
        ensures
            final(self).wf(),
            r == if old(self)@.contains(key) {
                Some(key)
            } else {
                None::<u64>
            },
            forall|y: u64| final(self)@.contains(y) <==> (old(self)@.contains(y) || y == key),
            old(self)@.contains(key) ==> final(self)@ == old(self)@,
            !old(self)@.contains(key) ==> final(self)@.len() == old(self)@.len() + 1,
    {
        let mut i: usize = 0;
        while i < self.items.len()
            invariant
                i <= self.items@.len(),
                self.wf(),
                self@ == old(self)@,
                forall|j: int| 0 <= j < i ==> self.items@[j] < key,
            ensures
                i == self.items@.len() || (i < self.items@.len() && self.items@[i as int] > key),
            decreases self.items@.len() - i,
        {
            if self.items[i] == key {
                assert(self@.contains(key));
                return Some(key);
            }
            if self.items[i] > key {
                break;
            }
            i += 1;
        }
        assert(forall|j: int| i <= j < self.items@.len() ==> key < self.items@[j]) by {
            assert(forall|j: int| i < j < self.items@.len() ==> self.items@[i as int] < self.items@[j]);
        }
        assert(!self@.contains(key)) by {
            if self@.contains(key) {
                let k = choose|k: int| 0 <= k < self@.len() && self@[k] == key;
                assert(self@[k] == key);
            }
        }
        self.items.insert(i, key);
        assert forall|y: u64| self@.contains(y) implies (old(self)@.contains(y) || y == key) by {
            let k = choose|k: int| 0 <= k < self@.len() && self@[k] == y;
            if k < i {
                assert(old(self)@[k] == y);
            } else if k > i {
                assert(old(self)@[k - 1] == y);
            }
        }
        assert forall|y: u64| old(self)@.contains(y) implies self@.contains(y) by {
            let k = choose|k: int| 0 <= k < old(self)@.len() && old(self)@[k] == y;
            if k < i {
                assert(self@[k] == y);
            } else {
                assert(self@[k + 1] == y);
            }
        }
        assert(self@.contains(key)) by {
            assert(self@[i as int] == key);
        }
        None
    }

    /// Removes a key from the set. If the key exists in the set, it returns
    /// the key; otherwise it returns `None`.
    pub fn remove(&mut self, key: &u64) -> (r: Option<u64>)
        requires
            old(self).wf(),
        ensures
            final(self).wf(),
            r == if old(self)@.contains(*key) {
                Some(*key)
            } else {
                None::<u64>
            },
            forall|y: u64| final(self)@.contains(y) <==> (old(self)@.contains(y) && y != *key),
            !old(self)@.contains(*key) ==> final(self)@ == old(self)@,
            old(self)@.contains(*key) ==> final(self)@.len() + 1 == old(self)@.len(),
    {
        let k = *key;
        let mut i: usize = 0;
        while i < self.items.len()
            invariant
                i <= self.items@.len(),
                self.wf(),
                self@ == old(self)@,
                k == *key,
                forall|j: int| 0 <= j < i ==> self.items@[j] != k,
            decreases self.items@.len() - i,
        {
            if self.items[i] == k {
                self.items.remove(i);
                assert forall|y: u64| self@.contains(y) implies (old(self)@.contains(y) && y != k) by {
                    let m = choose|m: int| 0 <= m < self@.len() && self@[m] == y;
                    if m < i {
                        assert(old(self)@[m] == y);
                        assert(y != k);
                    } else {
                        assert(old(self)@[m + 1] == y);
                        assert(old(self)@[i as int] < old(self)@[m + 1]);
                    }
                }
                assert forall|y: u64| old(self)@.contains(y) && y != k implies self@.contains(y) by {
                    let m = choose|m: int| 0 <= m < old(self)@.len() && old(self)@[m] == y;
                    if m < i {
                        assert(self@[m] == y);
                    } else {
                        assert(m != i);
                        assert(self@[m - 1] == y);
                    }
                }
                assert(old(self)@.contains(k)) by {
                    assert(old(self)@[i as int] == k);
                }
                return Some(k);
            }
            i += 1;
        }
        assert(!self@.contains(k)) by {
            if self@.contains(k) {
                let m = choose|m: int| 0 <= m < self@.len() && self@[m] == k;
                assert(self@[m] == k);
            }
        }
        None
    }

    /// Checks if a key exists in the set.
    pub fn contains(&self, key: &u64) -> (r: bool)
        requires
            self.wf(),
        ensures
            r == self@.contains(*key),
    {
        let k = *key;
        let mut i: usize = 0;
        while i < self.items.len()
            invariant
                i <= self.items@.len(),
                k == *key,
                forall|j: int| 0 <= j < i ==> self.items@[j] != k,
            decreases self.items@.len() - i,
        {
            if self.items[i] == k {
                assert(self@.contains(k));
                return true;
            }
            i += 1;
        }
        assert(!self@.contains(k)) by {
            if self@.contains(k) {
                let m = choose|m: int| 0 <= m < self@.len() && self@[m] == k;
                assert(self@[m] == k);
            }
        }
        false
    }

    /// Returns the number of keys in the set.
    pub fn len(&self) -> (r: usize)
        ensures
            r == self@.len(),
    {
        self.items.len()
    }

    /// Returns `true` if the set is empty.
    pub fn is_empty(&self) -> (r: bool)
        ensures
            r == (self@.len() == 0),
    {
        self.items.len() == 0
    }

    /// Clears the set, removing all keys.
    pub fn clear(&mut self)
        ensures
            final(self).wf(),
            final(self)@ == Seq::<u64>::empty(),
    {
        self.items.clear();
    }

    /// Returns the greatest key in the set that is less than or equal to
    /// `key`, or `None` if every key is greater than `key`.
    pub fn floor(&self, key: &u64) -> (r: Option<u64>)
        requires
            self.wf(),
        ensures
            match r {
                Some(x) => self@.contains(x) && x <= *key
                    && forall|y: u64| self@.contains(y) && y <= *key ==> y <= x,
                None => forall|y: u64| self@.contains(y) ==> y > *key,
            },
    {
        let k = *key;
        let mut i: usize = self.items.len();
        while i > 0
            invariant
                i <= self.items@.len(),
                self.wf(),
                k == *key,
                forall|j: int| i <= j < self.items@.len() ==> self.items@[j] > k,
            decreases i,
        {
            i -= 1;
            if self.items[i] <= k {
                let x = self.items[i];
                assert(self@.contains(x));
                assert forall|y: u64| self@.contains(y) && y <= k implies y <= x by {
                    let m = choose|m: int| 0 <= m < self@.len() && self@[m] == y;
                    if m > i {
                        assert(self@[m] > k);
                    } else if m < i {
                        assert(self@[m] < self@[i as int]);
                    }
                }
                return Some(x);
            }
        }
        assert forall|y: u64| self@.contains(y) implies y > k by {
            let m = choose|m: int| 0 <= m < self@.len() && self@[m] == y;
        }
        None
    }

    /// Returns the least key in the set that is greater than or equal to
    /// `key`, or `None` if every key is less than `key`.
    pub fn ceil(&self, key: &u64) -> (r: Option<u64>)
        requires
            self.wf(),
        ensures
            match r {
                Some(x) => self@.contains(x) && x >= *key
                    && forall|y: u64| self@.contains(y) && y >= *key ==> y >= x,
                None => forall|y: u64| self@.contains(y) ==> y < *key,
            },
    {
        let k = *key;
        let mut i: usize = 0;
        while i < self.items.len()
            invariant
                i <= self.items@.len(),
                self.wf(),
                k == *key,
                forall|j: int| 0 <= j < i ==> self.items@[j] < k,
            decreases self.items@.len() - i,
        {
            if self.items[i] >= k {
                let x = self.items[i];
                assert(self@.contains(x));
                assert forall|y: u64| self@.contains(y) && y >= k implies y >= x by {
                    let m = choose|m: int| 0 <= m < self@.len() && self@[m] == y;
                    if m < i {
                        assert(self@[m] < k);
                    } else if m > i {
                        assert(self@[i as int] < self@[m]);
                    }
                }
                return Some(x);
            }
            i += 1;
        }
        assert forall|y: u64| self@.contains(y) implies y < k by {
            let m = choose|m: int| 0 <= m < self@.len() && self@[m] == y;
        }
        None
    }

    /// Returns the minimum key of the set, or `None` if the set is empty.
    pub fn min(&self) -> (r: Option<u64>)
        requires
            self.wf(),
        ensures
            match r {
                Some(x) => self@.len() > 0 && x == self@[0]
                    && forall|y: u64| self@.contains(y) ==> x <= y,
                None => self@.len() == 0,
            },
    {
        if self.items.len() == 0 {
            None
        } else {
            let x = self.items[0];
            assert forall|y: u64| self@.contains(y) implies x <= y by {
                let m = choose|m: int| 0 <= m < self@.len() && self@[m] == y;
                if m > 0 {
                    assert(self@[0] < self@[m]);
                }
            }
            Some(x)
        }
    }

    /// Returns the maximum key of the set, or `None` if the set is empty.
    pub fn max(&self) -> (r: Option<u64>)
        requires
            self.wf(),
        ensures
            match r {
                Some(x) => self@.len() > 0 && x == self@[self@.len() - 1]
                    && forall|y: u64| self@.contains(y) ==> y <= x,
                None => self@.len() == 0,
            },
    {
        if self.items.len() == 0 {
            None
        } else {
            let x = self.items[self.items.len() - 1];
            assert forall|y: u64| self@.contains(y) implies y <= x by {
                let m = choose|m: int| 0 <= m < self@.len() && self@[m] == y;
                if m < self@.len() - 1 {
                    assert(self@[m] < self@[self@.len() - 1]);
                }
            }
            Some(x)
        }
    }

    /// Returns an iterator that yields the keys in increasing order.
    pub fn iter(&self) -> (r: SplaySetIter)
        ensures
            r.wf(),
            r.remaining() == self@,
    {
        let mut copy: Vec<u64> = Vec::new();
        let mut i: usize = 0;
        while i < self.items.len()
            invariant
                i <= self.items@.len(),
                copy@ == self.items@.take(i as int),
            decreases self.items@.len() - i,
        {
            copy.push(self.items[i]);
            assert(copy@ =~= self.items@.take(i as int + 1));
            i += 1;
        }
        assert(copy@ =~= self.items@);
        SplaySetIter { items: copy, pos: 0 }
    }

    /// Consumes the set and returns an iterator that yields the keys in
    /// increasing order.
    pub fn into_iter(self) -> (r: SplaySetIntoIter)
        ensures
            r.wf(),
            r.remaining() == self@,
    {
        SplaySetIntoIter { items: self.items, pos: 0 }
    }
}

impl SplaySetIntoIter {
    /// The cursor has not run past the end.
    pub closed spec fn wf(self) -> bool {
        self.pos <= self.items@.len()
    }

    /// The keys not yet yielded, in order.
    pub closed spec fn remaining(self) -> Seq<u64> {
        self.items@.skip(self.pos as int)
    }

    /// Yields the next key, or `None` when the keys are exhausted.
    pub fn next(&mut self) -> (r: Option<u64>)
        requires
            old(self).wf(),
        ensures
            final(self).wf(),
            match r {
                Some(x) => old(self).remaining().len() > 0 && x == old(self).remaining()[0]
                    && final(self).remaining() == old(self).remaining().skip(1),
                None => old(self).remaining().len() == 0
                    && final(self).remaining() == old(self).remaining(),
            },
    {
        if self.pos < self.items.len() {
            let x = self.items[self.pos];
            self.pos += 1;
            assert(self.remaining() =~= old(self).remaining().skip(1));
            Some(x)
        } else {
            None
        }
    }
}

impl SplaySetIter {
    /// The cursor has not run past the end.
    pub closed spec fn wf(self) -> bool {
        self.pos <= self.items@.len()
    }

    /// The keys not yet yielded, in order.
    pub closed spec fn remaining(self) -> Seq<u64> {
        self.items@.skip(self.pos as int)
    }

    /// Yields the next key, or `None` when the keys are exhausted.
    pub fn next(&mut self) -> (r: Option<u64>)
        requires
            old(self).wf(),
        ensures
            final(self).wf(),
            match r {
                Some(x) => old(self).remaining().len() > 0 && x == old(self).remaining()[0]
                    && final(self).remaining() == old(self).remaining().skip(1),
                None => old(self).remaining().len() == 0
                    && final(self).remaining() == old(self).remaining(),
            },
    {
        if self.pos < self.items.len() {
            let x = self.items[self.pos];
            self.pos += 1;
            assert(self.remaining() =~= old(self).remaining().skip(1));
            Some(x)
        } else {
            None
        }
    }
}

} // verus!
