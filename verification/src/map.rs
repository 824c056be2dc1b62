//! The engine: owns the memory stage and the ordered run collection,
//! answers point reads and writes, flushes a full stage into a new run, and
//! merges runs when the compaction policy selects some.
//!
//! Reads consult the stage first and then the runs newest to oldest; the
//! first frame that knows the key answers, and a tombstone answers "miss"
//! without consulting older frames. The surrounding program drives
//! maintenance by calling `compact_once` after writes.

use vstd::prelude::*;
use crate::Error;
use crate::memory_stage::{MemoryStage, spec_insert_sorted};
use crate::sstable::{
    Entry, SSTable, sorted_entries, wf_entries, spec_lookup, spec_tombstones,
    is_run_encoding, spec_encode_run,
};
use crate::compaction::{
    SizeTieredStrategy, RunMeta, merge_two, drop_tombstones, or_else, spec_live,
};

verus! {

/// One published run with its sequence number.
pub struct Run {
    /// Sequence number; newer runs carry greater numbers.
    pub id: u64,
    /// The immutable sorted run.
    pub table: SSTable,
}

/// The answer of a stack of sources, newest first: the first source that
/// knows the key answers.
pub open spec fn spec_lookup_frames(fs: Seq<Seq<Entry>>, key: u64) -> Option<Option<u64>>
    decreases fs.len(),
{
    if fs.len() == 0 {
        None
    } else {
        or_else(spec_lookup(fs[0], key), spec_lookup_frames(fs.skip(1), key))
    }
}

/// The stack's answer distributes over concatenation, newer part first.
pub proof fn lemma_lookup_frames_concat(a: Seq<Seq<Entry>>, b: Seq<Seq<Entry>>, key: u64)
    ensures
        spec_lookup_frames(a + b, key) == or_else(
            spec_lookup_frames(a, key),
            spec_lookup_frames(b, key),
        ),
    decreases a.len(),
{
    if a.len() == 0 {
        assert(a + b =~= b);
    } else {
        assert((a + b).skip(1) =~= a.skip(1) + b);
        lemma_lookup_frames_concat(a.skip(1), b, key);
    }
}

/// The persisted runs can be restored: valid parameters, strictly
/// decreasing sequence numbers below the maximum, and each byte image
/// exactly a run's encoding.
pub open spec fn spec_runs_restorable(
    stage_capacity: usize,
    strategy: SizeTieredStrategy,
    raw: Seq<(u64, Vec<u8>)>,
) -> bool {
    &&& stage_capacity >= 1
    &&& strategy.wf()
    &&& forall|i: int, j: int| 0 <= i < j < raw.len() ==> raw[i].0 > raw[j].0
    &&& forall|i: int| 0 <= i < raw.len() ==> (#[trigger] raw[i].0) < u64::MAX
    &&& forall|i: int|
        0 <= i < raw.len() ==> exists|es: Seq<Entry>|
            is_run_encoding(#[trigger] raw[i].1@, es)
}

/// The run collection after one compaction pass that merged the selected
/// positions `[slo, hi)` of `pre`'s runs (newest first): one merged run
/// stands in their place — answering as the replaced range did, with
/// tombstones suppressed when the range reached the oldest run — under the
/// sequence number of the newest merged member; or, when suppression left
/// nothing, the range is simply gone.
pub open spec fn spec_compacted(pre: LsmMap, post: LsmMap, slo: int, hi: int) -> bool {
    let rv = pre.spec_run_views();
    let dropped = hi == rv.len();
    ||| {
        &&& post.spec_run_views() == rv.take(slo) + seq![post.spec_run_views()[slo]]
            + rv.skip(hi)
        &&& forall|k: u64| #[trigger] spec_lookup(post.spec_run_views()[slo], k) == (
        if dropped {
            spec_live(spec_lookup_frames(rv.subrange(slo, hi), k))
        } else {
            spec_lookup_frames(rv.subrange(slo, hi), k)
        })
        &&& post.spec_metas()[slo].id == pre.spec_metas()[slo].id
    }
    ||| {
        &&& dropped
        &&& forall|k: u64| spec_live(
            #[trigger] spec_lookup_frames(rv.subrange(slo, hi), k),
        ) is None
        &&& post.spec_run_views() == rv.take(slo) + rv.skip(hi)
    }
}

/// A sorted key-value store: a bounded in-memory stage in front of a
/// newest-first collection of immutable sorted runs.
pub struct LsmMap {
    stage: MemoryStage,
    runs: Vec<Run>,
    strategy: SizeTieredStrategy,
    next_id: u64,
}

impl LsmMap {
    /// The entries currently in the memory stage, in key order.
    pub closed spec fn spec_stage(self) -> Seq<Entry> {
        self.stage@
    }

    /// The entries of each run, newest run first.
    pub closed spec fn spec_run_views(self) -> Seq<Seq<Entry>> {
        Seq::new(self.runs@.len(), |i: int| self.runs@[i].table@)
    }

    /// The metadata of each run, newest first, as the policy sees it.
    pub closed spec fn spec_metas(self) -> Seq<RunMeta> {
        Seq::new(
            self.runs@.len(),
            |i: int|
                RunMeta {
                    id: self.runs@[i].id,
                    size: self.runs@[i].table.byte_view().len() as u64,
                    entry_count: self.runs@[i].table@.len() as u64,
                    tombstone_count: spec_tombstones(self.runs@[i].table@) as u64,
                    min_key: self.runs@[i].table@[0].0,
                    max_key: self.runs@[i].table@[self.runs@[i].table@.len() - 1].0,
                },
        )
    }

    /// The compaction policy in force.
    pub closed spec fn spec_strategy(self) -> SizeTieredStrategy {
        self.strategy
    }

    /// The next run sequence number to be assigned.
    pub closed spec fn spec_next_id(self) -> u64 {
        self.next_id
    }

    /// The stage's fullness threshold.
    pub closed spec fn spec_capacity(self) -> nat {
        self.stage.spec_capacity()
    }

    /// Number of published runs.
    pub open spec fn spec_run_count(self) -> nat {
        self.spec_run_views().len()
    }

    /// The stack of sources a read consults, newest first: the stage, then
    /// each run.
    pub open spec fn spec_frames(self) -> Seq<Seq<Entry>> {
        seq![self.spec_stage()] + self.spec_run_views()
    }

    /// The logical value of `key`: the answer of the newest source that
    /// knows it, with a tombstone answering "miss".
    pub open spec fn spec_get(self, key: u64) -> Option<u64> {
        match spec_lookup_frames(self.spec_frames(), key) {
            Some(Some(v)) => Some(v),
            _ => None,
        }
    }

    /// Whether recording `key` would leave the stage at or over its
    /// threshold, which triggers a flush.
    pub open spec fn spec_write_fills_stage(self, key: u64) -> bool {
        self.spec_stage().len() + (if spec_lookup(self.spec_stage(), key) is Some {
            0int
        } else {
            1int
        }) >= self.spec_capacity()
    }

    /// The well-formedness every operation preserves: a well-formed stage
    /// and policy, well-formed runs with strictly decreasing sequence
    /// numbers, all below the next number to assign.
    pub closed spec fn wf(self) -> bool {
        &&& self.stage.wf()
        &&& self.strategy.wf()
        &&& forall|i: int| 0 <= i < self.runs@.len() ==> (#[trigger] self.runs@[i].table).wf()
        &&& forall|i: int, j: int|
            0 <= i < j < self.runs@.len() ==> self.runs@[i].id > self.runs@[j].id
        &&& forall|i: int| 0 <= i < self.runs@.len() ==> (#[trigger] self.runs@[i].id)
            < self.next_id
    }

    /// Opens an empty store. The stage threshold must be positive and the
    /// policy parameters valid; anything else is a `ConfigurationError`.
    pub fn new(stage_capacity: usize, strategy: SizeTieredStrategy) -> (r: Result<Self, Error>)
        ensures
            match r {
                Ok(m) => {
                    &&& stage_capacity >= 1
                    &&& strategy.wf()
                    &&& m.wf()
                    &&& m.spec_stage() == Seq::<Entry>::empty()
                    &&& m.spec_run_count() == 0
                    &&& m.spec_capacity() == stage_capacity
                    &&& m.spec_strategy() == strategy
                    &&& m.spec_next_id() == 0
                    &&& forall|k: u64| m.spec_get(k) == None::<u64>
                },
                Err(e) => e == Error::ConfigurationError && (stage_capacity < 1
                    || !strategy.wf()),
            },
    {
        if stage_capacity < 1 {
            return Err(Error::ConfigurationError);
        }
        if !strategy.is_valid() {
            return Err(Error::ConfigurationError);
        }
        let m = LsmMap {
            stage: MemoryStage::new(stage_capacity),
            runs: Vec::new(),
            strategy,
            next_id: 0,
        };
        proof {
            assert(m.spec_run_views() =~= Seq::<Seq<Entry>>::empty());
            assert forall|k: u64| m.spec_get(k) == None::<u64> by {
                assert(m.spec_frames().len() == 1);
                assert(m.spec_frames()[0] =~= Seq::<Entry>::empty());
                assert(spec_lookup(m.spec_frames()[0], k) == None::<Option<u64>>);
                assert(m.spec_frames().skip(1) =~= Seq::<Seq<Entry>>::empty());
                assert(spec_lookup_frames(Seq::<Seq<Entry>>::empty(), k) == None::<Option<u64>>);
                assert(spec_lookup_frames(m.spec_frames(), k) == or_else(
                    spec_lookup(m.spec_frames()[0], k),
                    spec_lookup_frames(m.spec_frames().skip(1), k),
                ));
            }
        }
        Ok(m)
    }


    /// Number of published runs.
    pub fn run_count(&self) -> (r: usize)
        requires
            self.wf(),
        ensures
            r == self.spec_run_count(),
    {
        self.runs.len()
    }

    /// Reads the logical value of `key`: the stage first, then the runs
    /// newest to oldest; the first hit answers, and a tombstone hit is a
    /// definite miss.
    pub fn get(&self, key: u64) -> (r: Result<Option<u64>, Error>)
        requires
            self.wf(),
        ensures
            r == Ok::<Option<u64>, Error>(self.spec_get(key)),
    {
        proof {
            assert(self.spec_frames()[0] == self.spec_stage());
            assert(self.spec_frames().skip(1) =~= self.spec_run_views());
        }
        match self.stage.get(key) {
            Some(Some(v)) => {
                return Ok(Some(v));
            }
            Some(None) => {
                return Ok(None);
            }
            None => {}
        }
        let ghost rv = self.spec_run_views();
        proof {
            assert(rv.skip(0) =~= rv);
            assert(spec_lookup_frames(self.spec_frames(), key) == or_else(
                spec_lookup(self.spec_frames()[0], key),
                spec_lookup_frames(self.spec_frames().skip(1), key),
            ));
        }
        let mut i: usize = 0;
        while i < self.runs.len()
            invariant
                self.wf(),
                i <= self.runs@.len(),
                rv == self.spec_run_views(),
                spec_lookup_frames(self.spec_frames(), key) == spec_lookup_frames(
                    rv.skip(i as int),
                    key,
                ),
            decreases self.runs@.len() - i,
        {
            proof {
                assert(rv.skip(i as int)[0] == self.runs@[i as int].table@);
            }
            match self.runs[i].table.get(key) {
                Some(Some(v)) => {
                    return Ok(Some(v));
                }
                Some(None) => {
                    return Ok(None);
                }
                None => {
                    proof {
                        assert(rv.skip(i as int).skip(1) =~= rv.skip(i as int + 1));
                    }
                }
            }
            i += 1;
        }
        proof {
            assert(rv.skip(self.runs@.len() as int) =~= Seq::<Seq<Entry>>::empty());
        }
        Ok(None)
    }

    /// Builds a run from the drained stage and publishes it as the newest.
    fn flush_inner(&mut self)
        requires
            old(self).wf(),
            old(self).spec_next_id() < u64::MAX,
            old(self).spec_stage().len() > 0,
        ensures
            final(self).wf(),
            final(self).spec_capacity() == old(self).spec_capacity(),
            final(self).spec_strategy() == old(self).spec_strategy(),
            final(self).spec_stage() == Seq::<Entry>::empty(),
            final(self).spec_run_views() == seq![old(self).spec_stage()]
                + old(self).spec_run_views(),
            final(self).spec_next_id() == old(self).spec_next_id() + 1,
            forall|k2: u64| final(self).spec_get(k2) == old(self).spec_get(k2),
    {
        let ghost m0 = *self;
        let entries = self.stage.drain_sorted();
        let table = SSTable::from_sorted(&entries);
        let run = Run { id: self.next_id, table };
        self.next_id += 1;
        self.runs.insert(0, run);
        proof {
            let m1 = *self;
            assert forall|i2: int| 0 <= i2 < m1.runs@.len() implies (
            #[trigger] m1.runs@[i2].table).wf() by {
                if i2 > 0 {
                    assert(m1.runs@[i2] == m0.runs@[i2 - 1]);
                }
            }
            assert forall|i2: int, j2: int|
                0 <= i2 < j2 < m1.runs@.len() implies m1.runs@[i2].id > m1.runs@[j2].id by {
                if i2 > 0 {
                    assert(m1.runs@[i2] == m0.runs@[i2 - 1]);
                    assert(m1.runs@[j2] == m0.runs@[j2 - 1]);
                }
            }
            assert forall|i2: int| 0 <= i2 < m1.runs@.len() implies (#[trigger] m1.runs@[i2].id)
                < m1.next_id by {
                if i2 > 0 {
                    assert(m1.runs@[i2] == m0.runs@[i2 - 1]);
                }
            }
            assert(m1.spec_run_views() =~= seq![m0.spec_stage()] + m0.spec_run_views());
            assert forall|k2: u64| m1.spec_get(k2) == m0.spec_get(k2) by {
                assert(m1.spec_frames().skip(1) =~= m0.spec_frames());
                assert(m1.spec_frames()[0] =~= Seq::<Entry>::empty());
                assert(spec_lookup(m1.spec_frames()[0], k2) == None::<Option<u64>>);
                assert(spec_lookup_frames(m1.spec_frames(), k2) == or_else(
                    spec_lookup(m1.spec_frames()[0], k2),
                    spec_lookup_frames(m1.spec_frames().skip(1), k2),
                ));
            }
        }
    }

    /// Records `value` (or a tombstone) under `key` and flushes if the stage
    /// is then full. The write always lands in the stage; only the triggered
    /// flush can fail, when the sequence-number space is exhausted, and the
    /// write then stays in the stage for a later flush.
    fn write_entry(&mut self, key: u64, value: Option<u64>) -> (r: Result<Option<u64>, Error>)
        requires
            old(self).wf(),
        ensures
            final(self).wf(),
            final(self).spec_capacity() == old(self).spec_capacity(),
            final(self).spec_strategy() == old(self).spec_strategy(),
            final(self).spec_get(key) == value,
            forall|k2: u64| k2 != key ==> final(self).spec_get(k2) == old(self).spec_get(k2),
            r matches Ok(prev) ==> prev == old(self).spec_get(key),
            r is Err <==> (old(self).spec_write_fills_stage(key) && old(self).spec_next_id()
                == u64::MAX),
            r is Err ==> r == Err::<Option<u64>, Error>(Error::IOError),
            (r is Ok && old(self).spec_write_fills_stage(key)) ==> final(self).spec_stage()
                == Seq::<Entry>::empty() && final(self).spec_run_views() == seq![
                spec_insert_sorted(old(self).spec_stage(), key, value),
            ] + old(self).spec_run_views() && final(self).spec_next_id() == old(self).spec_next_id() + 1,
            (r is Err || !old(self).spec_write_fills_stage(key)) ==> final(self).spec_stage()
                == spec_insert_sorted(old(self).spec_stage(), key, value),
            !old(self).spec_write_fills_stage(key) ==> final(self).spec_run_views() == old(self).spec_run_views() && final(self).spec_next_id() == old(self).spec_next_id(),
            r is Err ==> final(self).spec_run_views() == old(self).spec_run_views()
                && final(self).spec_next_id() == old(self).spec_next_id(),
    {
        let ghost m0 = *self;
        let prev = match self.get(key) {
            Ok(v) => v,
            Err(_) => None,
        };
        let _ = self.stage.insert(key, value);
        proof {
            let m1 = *self;
            assert(m1.spec_frames().skip(1) =~= m1.spec_run_views());
            assert(m0.spec_frames().skip(1) =~= m0.spec_run_views());
            assert(m1.spec_run_views() =~= m0.spec_run_views());
            assert(m1.spec_frames()[0] == m1.spec_stage());
            assert(m0.spec_frames()[0] == m0.spec_stage());
            assert(spec_lookup_frames(m1.spec_frames(), key) == or_else(
                spec_lookup(m1.spec_frames()[0], key),
                spec_lookup_frames(m1.spec_frames().skip(1), key),
            ));
            assert(m1.spec_get(key) == value);
            assert forall|k2: u64| k2 != key implies m1.spec_get(k2) == m0.spec_get(k2) by {
                assert(spec_lookup_frames(m1.spec_frames(), k2) == or_else(
                    spec_lookup(m1.spec_frames()[0], k2),
                    spec_lookup_frames(m1.spec_frames().skip(1), k2),
                ));
                assert(spec_lookup_frames(m0.spec_frames(), k2) == or_else(
                    spec_lookup(m0.spec_frames()[0], k2),
                    spec_lookup_frames(m0.spec_frames().skip(1), k2),
                ));
            }
        }
        if self.stage.is_full() {
            if self.next_id == u64::MAX {
                return Err(Error::IOError);
            }
            self.flush_inner();
        }
        Ok(prev)
    }

    /// Inserts `value` under `key`, returning the previous logical value.
    /// The write is immediately visible to reads; a full stage is flushed as
    /// part of the call.
    pub fn insert(&mut self, key: u64, value: u64) -> (r: Result<Option<u64>, Error>)
        requires
            old(self).wf(),
        ensures
            final(self).wf(),
            final(self).spec_capacity() == old(self).spec_capacity(),
            final(self).spec_strategy() == old(self).spec_strategy(),
            final(self).spec_get(key) == Some(value),
            forall|k2: u64| k2 != key ==> final(self).spec_get(k2) == old(self).spec_get(k2),
            r matches Ok(prev) ==> prev == old(self).spec_get(key),
            r is Err <==> (old(self).spec_write_fills_stage(key) && old(self).spec_next_id()
                == u64::MAX),
            r is Err ==> r == Err::<Option<u64>, Error>(Error::IOError),
            (r is Ok && old(self).spec_write_fills_stage(key)) ==> final(self).spec_stage()
                == Seq::<Entry>::empty() && final(self).spec_run_views() == seq![
                spec_insert_sorted(old(self).spec_stage(), key, Some(value)),
            ] + old(self).spec_run_views() && final(self).spec_next_id() == old(self).spec_next_id() + 1,
            (r is Err || !old(self).spec_write_fills_stage(key)) ==> final(self).spec_stage()
                == spec_insert_sorted(old(self).spec_stage(), key, Some(value)) && final(self).spec_run_views() == old(self).spec_run_views() && final(self).spec_next_id()
                == old(self).spec_next_id(),
    {
        self.write_entry(key, Some(value))
    }

    /// Records a tombstone for `key`, returning the previous logical value.
    /// No prior insert is needed; the tombstone shadows any older value
    /// until compacted away.
    pub fn remove(&mut self, key: u64) -> (r: Result<Option<u64>, Error>)
        requires
            old(self).wf(),
        ensures
            final(self).wf(),
            final(self).spec_capacity() == old(self).spec_capacity(),
            final(self).spec_strategy() == old(self).spec_strategy(),
            final(self).spec_get(key) == None::<u64>,
            forall|k2: u64| k2 != key ==> final(self).spec_get(k2) == old(self).spec_get(k2),
            r matches Ok(prev) ==> prev == old(self).spec_get(key),
            r is Err <==> (old(self).spec_write_fills_stage(key) && old(self).spec_next_id()
                == u64::MAX),
            r is Err ==> r == Err::<Option<u64>, Error>(Error::IOError),
            (r is Ok && old(self).spec_write_fills_stage(key)) ==> final(self).spec_stage()
                == Seq::<Entry>::empty() && final(self).spec_run_views() == seq![
                spec_insert_sorted(old(self).spec_stage(), key, None),
            ] + old(self).spec_run_views() && final(self).spec_next_id() == old(self).spec_next_id() + 1,
            (r is Err || !old(self).spec_write_fills_stage(key)) ==> final(self).spec_stage()
                == spec_insert_sorted(old(self).spec_stage(), key, None) && final(self).spec_run_views() == old(self).spec_run_views() && final(self).spec_next_id()
                == old(self).spec_next_id(),
    {
        self.write_entry(key, None)
    }

    /// Drains the stage into a new run published as the newest. An empty
    /// stage makes the call a no-op; the flush fails only when the
    /// sequence-number space is exhausted, and then changes nothing.
    pub fn flush(&mut self) -> (r: Result<(), Error>)
        requires
            old(self).wf(),
        ensures
            final(self).wf(),
            final(self).spec_capacity() == old(self).spec_capacity(),
            final(self).spec_strategy() == old(self).spec_strategy(),
            forall|k2: u64| final(self).spec_get(k2) == old(self).spec_get(k2),
            r is Err <==> (old(self).spec_stage().len() > 0 && old(self).spec_next_id()
                == u64::MAX),
            r is Err ==> r == Err::<(), Error>(Error::IOError) && *final(self) == *old(self),
            r is Ok ==> final(self).spec_stage().len() == 0,
            (r is Ok && old(self).spec_stage().len() > 0) ==> final(self).spec_run_views()
                == seq![old(self).spec_stage()] + old(self).spec_run_views(),
            old(self).spec_stage().len() == 0 ==> r is Ok && *final(self) == *old(self),
    {
        if self.stage.len() == 0 {
            return Ok(());
        }
        if self.next_id == u64::MAX {
            return Err(Error::IOError);
        }
        self.flush_inner();
        Ok(())
    }

    /// The byte image of run `i` (newest first).
    pub closed spec fn spec_run_bytes(self, i: int) -> Seq<u8> {
        self.runs@[i].table.byte_view()
    }

    /// The sequence numbers of the published runs, newest first.
    pub fn run_ids(&self) -> (r: Vec<u64>)
        requires
            self.wf(),
        ensures
            r@.len() == self.spec_run_count(),
            forall|i: int| 0 <= i < r@.len() ==> r@[i] == self.spec_metas()[i].id,
    {
        let mut out: Vec<u64> = Vec::new();
        let mut i: usize = 0;
        while i < self.runs.len()
            invariant
                i <= self.runs@.len(),
                out@.len() == i,
                forall|j: int| 0 <= j < i ==> out@[j] == self.runs@[j].id,
            decreases self.runs@.len() - i,
        {
            out.push(self.runs[i].id);
            i += 1;
        }
        out
    }

    /// A copy of the byte image of run `i`, for persisting it. The bytes are
    /// exactly the encoding of that run's entries.
    pub fn run_bytes(&self, i: usize) -> (r: Vec<u8>)
        requires
            self.wf(),
            i < self.spec_run_count(),
        ensures
            r@ == self.spec_run_bytes(i as int),
            is_run_encoding(r@, self.spec_run_views()[i as int]),
    {
        proof {
            assert(self.runs@[i as int].table.wf());
            self.runs@[i as int].table.lemma_bytes_encode();
            assert(self.spec_run_views()[i as int] == self.runs@[i as int].table@);
        }
        self.runs[i].table.to_bytes()
    }

    /// Rebuilds a store from the persisted runs, given newest first (by
    /// strictly decreasing sequence number below the maximum). Each byte
    /// image must be exactly a run's encoding; anything else is rejected
    /// with the error its validation reports, and bad parameters or a bad
    /// ordering with `ConfigurationError` and `CorruptionError`.
    pub fn from_runs(
        stage_capacity: usize,
        strategy: SizeTieredStrategy,
        raw: Vec<(u64, Vec<u8>)>,
    ) -> (r: Result<LsmMap, Error>)
        ensures
            match r {
                Ok(m) => {
                    &&& stage_capacity >= 1
                    &&& strategy.wf()
                    &&& m.wf()
                    &&& m.spec_stage() == Seq::<Entry>::empty()
                    &&& m.spec_capacity() == stage_capacity
                    &&& m.spec_strategy() == strategy
                    &&& m.spec_run_count() == raw@.len()
                    &&& m.spec_next_id() == (if raw@.len() == 0 {
                        0int
                    } else {
                        raw@[0].0 + 1
                    })
                    &&& forall|i: int| 0 <= i < raw@.len() ==> m.spec_metas()[i].id == raw@[i].0
                        && is_run_encoding(raw@[i].1@, #[trigger] m.spec_run_views()[i])
                },
                Err(e) => e == Error::ConfigurationError || e == Error::CorruptionError
                    || e == Error::SerializationError,
            },
            spec_runs_restorable(stage_capacity, strategy, raw@) ==> (r is Ok),
    {
        if stage_capacity < 1 || !strategy.is_valid() {
            proof {
                assert(!spec_runs_restorable(stage_capacity, strategy, raw@));
            }
            return Err(Error::ConfigurationError);
        }
        let ghost raw0 = raw@;
        let mut pending = raw;
        let mut runs: Vec<Run> = Vec::new();
        let next_id: u64 = if pending.len() == 0 {
            0
        } else {
            if pending[0].0 == u64::MAX {
                proof {
                    if spec_runs_restorable(stage_capacity, strategy, raw0) {
                        assert(raw0[0].0 < u64::MAX);
                    }
                }
                return Err(Error::CorruptionError);
            }
            pending[0].0 + 1
        };
        let mut i: usize = 0;
        while pending.len() > 0
            invariant
                stage_capacity >= 1,
                strategy.wf(),
                raw0 == raw@,
                raw0.len() <= usize::MAX,
                i + pending@.len() == raw0.len(),
                pending@ == raw0.skip(i as int),
                runs@.len() == i,
                raw0.len() > 0 ==> (raw0[0].0 < u64::MAX && next_id == raw0[0].0 + 1),
                forall|j: int| 0 <= j < i ==> (#[trigger] runs@[j].id) == raw0[j].0,
                forall|j: int| 0 <= j < i ==> (#[trigger] runs@[j].table).wf(),
                forall|j: int| 0 <= j < i ==> (#[trigger] runs@[j].table).byte_view()
                    == raw0[j].1@,
                forall|j: int, j2: int| 0 <= j < j2 < i ==> runs@[j].id > runs@[j2].id,
                forall|j: int| 0 <= j < i ==> (#[trigger] runs@[j].id) < next_id,
            decreases pending@.len(),
        {
            let (id, bytes) = pending.remove(0);
            proof {
                assert(raw0.skip(i as int)[0] == raw0[i as int]);
                assert(pending@ =~= raw0.skip(i as int + 1));
            }
            if i > 0 {
                let prev = runs[i - 1].id;
                if id >= prev {
                    proof {
                        if spec_runs_restorable(stage_capacity, strategy, raw0) {
                            assert(raw0[i as int - 1].0 > raw0[i as int].0);
                            assert(prev == raw0[i as int - 1].0);
                            assert(id == raw0[i as int].0);
                        }
                        assert(!spec_runs_restorable(stage_capacity, strategy, raw0));
                    }
                    return Err(Error::CorruptionError);
                }
            }
            let ghost bview = bytes@;
            let table = match SSTable::open(bytes) {
                Ok(t) => t,
                Err(e) => {
                    proof {
                        if spec_runs_restorable(stage_capacity, strategy, raw0) {
                            let es = choose|es: Seq<Entry>|
                                is_run_encoding(raw0[i as int].1@, es);
                            assert(is_run_encoding(bview, es));
                        }
                    }
                    return Err(e);
                }
            };
            runs.push(Run { id, table });
            i += 1;
        }
        let m = LsmMap {
            stage: MemoryStage::new(stage_capacity),
            runs,
            strategy,
            next_id,
        };
        proof {
            assert forall|idx: int| 0 <= idx < raw0.len() implies m.spec_metas()[idx].id
                == raw0[idx].0 && is_run_encoding(
                raw0[idx].1@,
                #[trigger] m.spec_run_views()[idx],
            ) by {
                assert(m.runs@[idx].table.wf());
                m.runs@[idx].table.lemma_bytes_encode();
            }
        }
        Ok(m)
    }

    /// The answer of a one-source stack is that source's answer.
    proof fn lemma_frames_singleton(x: Seq<Entry>, key: u64)
        ensures
            spec_lookup_frames(seq![x], key) == spec_lookup(x, key),
    {
        assert(seq![x].skip(1) =~= Seq::<Seq<Entry>>::empty());
        assert(spec_lookup_frames(Seq::<Seq<Entry>>::empty(), key) == None::<Option<u64>>);
        assert(spec_lookup_frames(seq![x], key) == or_else(
            spec_lookup(seq![x][0], key),
            spec_lookup_frames(seq![x].skip(1), key),
        ));
    }

    /// Asks the policy for a merge set and, if one is selected, replaces the
    /// selected runs with their merge. The merge reads the members newest to
    /// oldest, keeps the newest entry per key, and drops tombstones only
    /// when the set reaches the oldest run, so that nothing older is left
    /// for them to shadow. With no eligible set the call changes nothing.
    #[verifier::rlimit(80)]
    pub fn compact_once(&mut self) -> (r: Result<(), Error>)
        requires
            old(self).wf(),
        ensures
            final(self).wf(),
            r == Ok::<(), Error>(()),
            final(self).spec_capacity() == old(self).spec_capacity(),
            final(self).spec_strategy() == old(self).spec_strategy(),
            final(self).spec_stage() == old(self).spec_stage(),
            final(self).spec_next_id() == old(self).spec_next_id(),
            forall|k2: u64| final(self).spec_get(k2) == old(self).spec_get(k2),
            match old(self).spec_strategy().spec_select(old(self).spec_metas()) {
                None => *final(self) == *old(self),
                Some(c) => spec_compacted(*old(self), *final(self), c.1, c.2),
            },
    {
        let ghost m0 = *self;
        let mut metas: Vec<RunMeta> = Vec::new();
        let mut i: usize = 0;
        while i < self.runs.len()
            invariant
                self.wf(),
                *self == m0,
                i <= self.runs@.len(),
                metas@ == m0.spec_metas().take(i as int),
            decreases self.runs@.len() - i,
        {
            proof {
                assert(self.runs@[i as int].table.wf());
            }
            let rm = RunMeta {
                id: self.runs[i].id,
                size: self.runs[i].table.size_bytes() as u64,
                entry_count: self.runs[i].table.entry_count() as u64,
                tombstone_count: self.runs[i].table.tombstone_count() as u64,
                min_key: self.runs[i].table.min_key(),
                max_key: self.runs[i].table.max_key(),
            };
            metas.push(rm);
            proof {
                assert(metas@ =~= m0.spec_metas().take(i as int + 1));
            }
            i += 1;
        }
        proof {
            assert(metas@ =~= m0.spec_metas());
        }
        let sel = self.strategy.select_merge_range(&metas);
        let (slo, hi) = match sel {
            None => {
                return Ok(());
            }
            Some(p) => p,
        };
        let ghost rv = m0.spec_run_views();
        let new_id = self.runs[slo].id;
        proof {
            assert(self.runs@[slo as int].table.wf());
            assert(rv[slo as int] == self.runs@[slo as int].table@);
        }
        let mut merged = self.runs[slo].table.read_entries();
        proof {
            assert(rv.subrange(slo as int, slo as int + 1) =~= seq![rv[slo as int]]);
            assert forall|k: u64| #[trigger] spec_lookup(merged@, k) == spec_lookup_frames(
                rv.subrange(slo as int, slo as int + 1),
                k,
            ) by {
                Self::lemma_frames_singleton(rv[slo as int], k);
            }
        }
        let mut j = slo + 1;
        while j < hi
            invariant
                self.wf(),
                *self == m0,
                slo + 1 <= j <= hi <= self.runs@.len(),
                rv == m0.spec_run_views(),
                sorted_entries(merged@),
                forall|k: u64| #[trigger] spec_lookup(merged@, k) == spec_lookup_frames(
                    rv.subrange(slo as int, j as int),
                    k,
                ),
            decreases hi - j,
        {
            proof {
                assert(self.runs@[j as int].table.wf());
                assert(rv[j as int] == self.runs@[j as int].table@);
            }
            let older = self.runs[j].table.read_entries();
            let merged2 = merge_two(&merged, &older);
            proof {
                assert(rv.subrange(slo as int, j as int + 1) =~= rv.subrange(
                    slo as int,
                    j as int,
                ) + seq![rv[j as int]]);
                assert forall|k: u64| #[trigger] spec_lookup(merged2@, k) == spec_lookup_frames(
                    rv.subrange(slo as int, j as int + 1),
                    k,
                ) by {
                    lemma_lookup_frames_concat(
                        rv.subrange(slo as int, j as int),
                        seq![rv[j as int]],
                        k,
                    );
                    Self::lemma_frames_singleton(rv[j as int], k);
                }
            }
            merged = merged2;
            j += 1;
        }
        let drop_dead = hi == self.runs.len();
        let out_entries = if drop_dead {
            drop_tombstones(&merged)
        } else {
            merged
        };
        let ghost lm = |k: u64| spec_lookup_frames(rv.subrange(slo as int, hi as int), k);
        let ghost runs0 = self.runs@;
        let count = hi - slo;
        let mut t: usize = 0;
        while t < count
            invariant
                t <= count,
                count == hi - slo,
                slo + count <= runs0.len(),
                self.runs@ == runs0.take(slo as int) + runs0.skip(slo as int + t as int),
                self.stage == m0.stage,
                self.strategy == m0.strategy,
                self.next_id == m0.next_id,
            decreases count - t,
        {
            self.runs.remove(slo);
            t += 1;
            proof {
                assert(self.runs@ =~= runs0.take(slo as int) + runs0.skip(
                    slo as int + t as int,
                ));
            }
        }
        if out_entries.len() > 0 {
            let table = SSTable::from_sorted(&out_entries);
            self.runs.insert(slo, Run { id: new_id, table });
            proof {
                let m1 = *self;
                assert(m1.runs@ =~= runs0.take(slo as int) + seq![
                    Run { id: new_id, table: table },
                ] + runs0.skip(hi as int));
                self.lemma_compact_state(m0, slo as int, hi as int, Some(table@), drop_dead);
            }
        } else {
            proof {
                let m1 = *self;
                assert(m1.runs@ =~= runs0.take(slo as int) + runs0.skip(hi as int));
                // an empty merge output can only arise when tombstones were
                // dropped, since every run holds at least one entry
                if !drop_dead {
                    let k0 = rv[slo as int][0].0;
                    assert(wf_entries(rv[slo as int]));
                    crate::sstable::lemma_lookup_found(rv[slo as int], 0);
                    assert(spec_lookup(merged@, k0) == spec_lookup_frames(
                        rv.subrange(slo as int, hi as int),
                        k0,
                    ));
                    assert(rv.subrange(slo as int, hi as int)[0] == rv[slo as int]);
                    assert(spec_lookup_frames(rv.subrange(slo as int, hi as int), k0)
                        == or_else(
                        spec_lookup(rv[slo as int], k0),
                        spec_lookup_frames(rv.subrange(slo as int, hi as int).skip(1), k0),
                    ));
                    assert(spec_lookup(merged@, k0) is Some);
                    assert(false);
                }
                assert forall|k: u64| spec_live(
                    #[trigger] spec_lookup_frames(rv.subrange(slo as int, hi as int), k),
                ) is None by {
                    assert(spec_lookup(out_entries@, k) == spec_live(spec_lookup(merged@, k)));
                    assert(spec_lookup(out_entries@, k) == None::<Option<u64>>);
                }
                self.lemma_compact_state(m0, slo as int, hi as int, None, drop_dead);
            }
        }
        Ok(())
    }

    /// After replacing the runs in `[slo, hi)` with their merge (or with
    /// nothing, when the merge emptied out), the store is well formed and
    /// every logical value is unchanged.
    proof fn lemma_compact_state(
        self,
        m0: LsmMap,
        slo: int,
        hi: int,
        out: Option<Seq<Entry>>,
        dropped: bool,
    )
        requires
            m0.wf(),
            0 <= slo,
            slo + 2 <= hi <= m0.runs@.len(),
            dropped <==> hi == m0.runs@.len(),
            self.stage == m0.stage,
            self.strategy == m0.strategy,
            self.next_id == m0.next_id,
            match out {
                Some(es) => {
                    &&& self.runs@ =~= m0.runs@.take(slo) + seq![self.runs@[slo]]
                        + m0.runs@.skip(hi)
                    &&& self.runs@[slo].id == m0.runs@[slo].id
                    &&& self.runs@[slo].table.wf()
                    &&& self.runs@[slo].table@ == es
                    &&& forall|k: u64| #[trigger] spec_lookup(es, k) == (if dropped {
                        spec_live(
                            spec_lookup_frames(m0.spec_run_views().subrange(slo, hi), k),
                        )
                    } else {
                        spec_lookup_frames(m0.spec_run_views().subrange(slo, hi), k)
                    })
                },
                None => {
                    &&& self.runs@ =~= m0.runs@.take(slo) + m0.runs@.skip(hi)
                    &&& dropped
                    &&& forall|k: u64| spec_live(
                        #[trigger] spec_lookup_frames(
                            m0.spec_run_views().subrange(slo, hi),
                            k,
                        ),
                    ) is None
                },
            },
        ensures
            self.wf(),
            forall|k2: u64| self.spec_get(k2) == m0.spec_get(k2),
            spec_compacted(m0, self, slo, hi),
    {
        let rv = m0.spec_run_views();
        let av = rv.take(slo);
        let mv = rv.subrange(slo, hi);
        let bv = rv.skip(hi);
        // well-formedness of the new run list
        match out {
            Some(es) => {
                assert forall|i: int| 0 <= i < self.runs@.len() implies (
                #[trigger] self.runs@[i].table).wf() by {
                    if i < slo {
                        assert(self.runs@[i] == m0.runs@[i]);
                    } else if i > slo {
                        assert(self.runs@[i] == m0.runs@[i + (hi - slo) - 1]);
                    }
                }
                assert forall|i: int, j: int|
                    0 <= i < j < self.runs@.len() implies self.runs@[i].id
                    > self.runs@[j].id by {
                    let i0 = if i <= slo {
                        i
                    } else {
                        i + (hi - slo) - 1
                    };
                    let j0 = if j <= slo {
                        j
                    } else {
                        j + (hi - slo) - 1
                    };
                    assert(self.runs@[i].id == m0.runs@[i0].id);
                    assert(self.runs@[j].id == m0.runs@[j0].id);
                }
                assert forall|i: int| 0 <= i < self.runs@.len() implies (
                #[trigger] self.runs@[i].id) < self.next_id by {
                    let i0 = if i <= slo {
                        i
                    } else {
                        i + (hi - slo) - 1
                    };
                    assert(self.runs@[i].id == m0.runs@[i0].id);
                }
            }
            None => {
                assert forall|i: int| 0 <= i < self.runs@.len() implies (
                #[trigger] self.runs@[i].table).wf() by {
                    if i < slo {
                        assert(self.runs@[i] == m0.runs@[i]);
                    } else {
                        assert(self.runs@[i] == m0.runs@[i + (hi - slo)]);
                    }
                }
                assert forall|i: int, j: int|
                    0 <= i < j < self.runs@.len() implies self.runs@[i].id
                    > self.runs@[j].id by {
                    let i0 = if i < slo {
                        i
                    } else {
                        i + (hi - slo)
                    };
                    let j0 = if j < slo {
                        j
                    } else {
                        j + (hi - slo)
                    };
                    assert(self.runs@[i].id == m0.runs@[i0].id);
                    assert(self.runs@[j].id == m0.runs@[j0].id);
                }
                assert forall|i: int| 0 <= i < self.runs@.len() implies (
                #[trigger] self.runs@[i].id) < self.next_id by {
                    let i0 = if i < slo {
                        i
                    } else {
                        i + (hi - slo)
                    };
                    assert(self.runs@[i].id == m0.runs@[i0].id);
                }
            }
        }
        // the replacement shape the contract publishes
        let rv1 = self.spec_run_views();
        match out {
            Some(es) => {
                assert(rv1.len() == rv.len() - (hi - slo) + 1);
                assert(rv1[slo] == self.runs@[slo].table@);
                assert(rv1[slo] == es);
                assert(rv1 =~= rv.take(slo) + seq![rv1[slo]] + rv.skip(hi)) by {
                    assert forall|i: int| 0 <= i < rv1.len() implies rv1[i] == (rv.take(slo)
                        + seq![rv1[slo]] + rv.skip(hi))[i] by {
                        if i < slo {
                            assert(self.runs@[i] == m0.runs@[i]);
                        } else if i > slo {
                            assert(self.runs@[i] == m0.runs@[i + (hi - slo) - 1]);
                        }
                    }
                }
                assert(self.spec_metas()[slo].id == self.runs@[slo].id);
                assert(m0.spec_metas()[slo].id == m0.runs@[slo].id);
            }
            None => {
                assert(rv1 =~= rv.take(slo) + rv.skip(hi)) by {
                    assert forall|i: int| 0 <= i < rv1.len() implies rv1[i] == (rv.take(slo)
                        + rv.skip(hi))[i] by {
                        if i < slo {
                            assert(self.runs@[i] == m0.runs@[i]);
                        } else {
                            assert(self.runs@[i] == m0.runs@[i + (hi - slo)]);
                        }
                    }
                }
            }
        }
        assert(rv =~= av + (mv + bv));
        match out {
            Some(es) => {
                assert(rv1 =~= av + (seq![es] + bv));
            }
            None => {
                assert(rv1 =~= av + bv);
            }
        }
        assert forall|k2: u64| self.spec_get(k2) == m0.spec_get(k2) by {
            let st = spec_lookup(m0.spec_stage(), k2);
            lemma_lookup_frames_concat(av, mv + bv, k2);
            lemma_lookup_frames_concat(mv, bv, k2);
            let la = spec_lookup_frames(av, k2);
            let lmv = spec_lookup_frames(mv, k2);
            let lb = spec_lookup_frames(bv, k2);
            assert(spec_lookup_frames(rv, k2) == or_else(la, or_else(lmv, lb)));
            assert(m0.spec_frames().skip(1) =~= rv);
            assert(m0.spec_frames()[0] == m0.spec_stage());
            assert(spec_lookup_frames(m0.spec_frames(), k2) == or_else(
                st,
                spec_lookup_frames(rv, k2),
            ));
            assert(self.spec_frames().skip(1) =~= rv1);
            assert(self.spec_frames()[0] == m0.spec_stage());
            assert(spec_lookup_frames(self.spec_frames(), k2) == or_else(
                st,
                spec_lookup_frames(rv1, k2),
            ));
            if dropped {
                assert(bv =~= Seq::<Seq<Entry>>::empty());
                assert(lb == None::<Option<u64>>);
            }
            match out {
                Some(es) => {
                    lemma_lookup_frames_concat(av, seq![es] + bv, k2);
                    lemma_lookup_frames_concat(seq![es], bv, k2);
                    Self::lemma_frames_singleton(es, k2);
                    assert(spec_lookup_frames(rv1, k2) == or_else(
                        la,
                        or_else(spec_lookup(es, k2), lb),
                    ));
                }
                None => {
                    lemma_lookup_frames_concat(av, bv, k2);
                    assert(spec_lookup_frames(rv1, k2) == or_else(la, lb));
                }
            }
        }
    }
}

} // verus!
