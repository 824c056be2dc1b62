//! Compaction: merging sorted runs (newest entry wins, tombstones shadow)
//! and the size-tiered policy that decides which runs to merge.

use vstd::prelude::*;
use crate::sstable::{
    Entry, sorted_entries, spec_lookup, lemma_lookup_found, lemma_lookup_none,
};
use crate::Error;

verus! {

/// First answer wins: the combined answer of a newer and an older source.
pub open spec fn or_else(a: Option<Option<u64>>, b: Option<Option<u64>>) -> Option<
    Option<u64>,
> {
    match a {
        Some(v) => Some(v),
        None => b,
    }
}

/// Pushing preserves membership and adds the pushed entry.
proof fn lemma_push_contains(s: Seq<Entry>, e: Entry)
    ensures
        forall|x: Entry| s.contains(x) ==> #[trigger] s.push(e).contains(x),
        s.push(e).contains(e),
{
    assert(s.push(e)[s.len() as int] == e);
    assert forall|x: Entry| s.contains(x) implies s.push(e).contains(x) by {
        let p = choose|p: int| 0 <= p < s.len() && s[p] == x;
        assert(s.push(e)[p] == x);
    }
}

/// Merges two sorted entry sequences into one; on a key held by both, the
/// entry of `newer` wins (tombstones included).
pub fn merge_two(newer: &Vec<Entry>, older: &Vec<Entry>) -> (r: Vec<Entry>)
    requires
        sorted_entries(newer@),
        sorted_entries(older@),
    ensures
        sorted_entries(r@),
        forall|k: u64| #[trigger] spec_lookup(r@, k) == or_else(
            spec_lookup(newer@, k),
            spec_lookup(older@, k),
        ),
        r@.len() <= newer@.len() + older@.len(),
{
    let mut out: Vec<Entry> = Vec::new();
    let mut i: usize = 0;
    let mut j: usize = 0;
    while i < newer.len() || j < older.len()
        invariant
            i <= newer@.len(),
            j <= older@.len(),
            sorted_entries(newer@),
            sorted_entries(older@),
            sorted_entries(out@),
            out@.len() <= i + j,
            forall|m: int| 0 <= m < i ==> out@.contains(#[trigger] newer@[m]),
            forall|m: int|
                0 <= m < j ==> (out@.contains(#[trigger] older@[m]) || exists|q: int|
                    0 <= q < newer@.len() && (#[trigger] newer@[q].0) == older@[m].0),
            forall|q: int|
                0 <= q < out@.len() ==> ((exists|m: int|
                    0 <= m < i && newer@[m] == #[trigger] out@[q]) || (exists|m: int|
                    0 <= m < j && older@[m] == out@[q])),
            forall|q: int|
                0 <= q < out@.len() ==> ((i < newer@.len() ==> (#[trigger] out@[q].0)
                    < newer@[i as int].0) && (j < older@.len() ==> out@[q].0
                    < older@[j as int].0)),
        decreases newer@.len() - i + older@.len() - j,
    {
        let ghost out0 = out@;
        if i >= newer.len() {
            let e = older[j];
            out.push(e);
            proof {
                lemma_push_contains(out0, e);
            }
            j += 1;
        } else if j >= older.len() {
            let e = newer[i];
            out.push(e);
            proof {
                lemma_push_contains(out0, e);
            }
            i += 1;
        } else if newer[i].0 < older[j].0 {
            let e = newer[i];
            out.push(e);
            proof {
                lemma_push_contains(out0, e);
            }
            i += 1;
        } else if newer[i].0 > older[j].0 {
            let e = older[j];
            out.push(e);
            proof {
                lemma_push_contains(out0, e);
            }
            j += 1;
        } else {
            let e = newer[i];
            out.push(e);
            proof {
                lemma_push_contains(out0, e);
                assert((newer@[i as int].0) == older@[j as int].0);
            }
            i += 1;
            j += 1;
        }
    }
    proof {
        assert forall|k: u64| #[trigger] spec_lookup(out@, k) == or_else(
            spec_lookup(newer@, k),
            spec_lookup(older@, k),
        ) by {
            if exists|m: int| 0 <= m < newer@.len() && (#[trigger] newer@[m].0) == k {
                let m = choose|m: int| 0 <= m < newer@.len() && (#[trigger] newer@[m].0) == k;
                lemma_lookup_found(newer@, m);
                assert(out@.contains(newer@[m]));
                let p = choose|p: int| 0 <= p < out@.len() && out@[p] == newer@[m];
                lemma_lookup_found(out@, p);
            } else {
                assert(forall|m: int| 0 <= m < newer@.len() ==> (#[trigger] newer@[m].0) != k);
                lemma_lookup_none(newer@, k);
                if exists|m: int| 0 <= m < older@.len() && (#[trigger] older@[m].0) == k {
                    let m = choose|m: int|
                        0 <= m < older@.len() && (#[trigger] older@[m].0) == k;
                    lemma_lookup_found(older@, m);
                    assert(out@.contains(older@[m]));
                    let p = choose|p: int| 0 <= p < out@.len() && out@[p] == older@[m];
                    lemma_lookup_found(out@, p);
                } else {
                    assert(forall|m: int|
                        0 <= m < older@.len() ==> (#[trigger] older@[m].0) != k);
                    lemma_lookup_none(older@, k);
                    assert forall|p: int| 0 <= p < out@.len() implies (#[trigger] out@[p].0)
                        != k by {
                        assert((exists|m: int|
                            0 <= m < newer@.len() && newer@[m] == out@[p]) || (exists|m: int|
                            0 <= m < older@.len() && older@[m] == out@[p]));
                    }
                    lemma_lookup_none(out@, k);
                }
            }
        }
    }
    out
}

/// The answer of a source once tombstones are dropped: hits on values stay,
/// hits on tombstones become misses.
pub open spec fn spec_live(a: Option<Option<u64>>) -> Option<Option<u64>> {
    match a {
        Some(Some(v)) => Some(Some(v)),
        _ => None,
    }
}

/// Removes the tombstone entries; only allowed when no older source remains
/// that the tombstones would have to shadow.
pub fn drop_tombstones(es: &Vec<Entry>) -> (r: Vec<Entry>)
    requires
        sorted_entries(es@),
    ensures
        sorted_entries(r@),
        forall|k: u64| #[trigger] spec_lookup(r@, k) == spec_live(spec_lookup(es@, k)),
        r@.len() <= es@.len(),
{
    let mut out: Vec<Entry> = Vec::new();
    let mut i: usize = 0;
    while i < es.len()
        invariant
            i <= es@.len(),
            sorted_entries(es@),
            sorted_entries(out@),
            out@.len() <= i,
            forall|m: int| 0 <= m < i && (#[trigger] es@[m].1) is Some ==> out@.contains(es@[m]),
            forall|q: int|
                0 <= q < out@.len() ==> (exists|m: int|
                    0 <= m < i && es@[m] == #[trigger] out@[q]) && out@[q].1 is Some,
            forall|q: int|
                0 <= q < out@.len() && i < es@.len() ==> (#[trigger] out@[q].0)
                    < es@[i as int].0,
        decreases es@.len() - i,
    {
        let e = es[i];
        if e.1.is_some() {
            let ghost out0 = out@;
            out.push(e);
            proof {
                lemma_push_contains(out0, e);
            }
        }
        i += 1;
    }
    proof {
        assert forall|k: u64| #[trigger] spec_lookup(out@, k) == spec_live(
            spec_lookup(es@, k),
        ) by {
            if exists|m: int| 0 <= m < es@.len() && (#[trigger] es@[m].0) == k {
                let m = choose|m: int| 0 <= m < es@.len() && (#[trigger] es@[m].0) == k;
                lemma_lookup_found(es@, m);
                if es@[m].1 is Some {
                    assert(out@.contains(es@[m]));
                    let p = choose|p: int| 0 <= p < out@.len() && out@[p] == es@[m];
                    lemma_lookup_found(out@, p);
                } else {
                    assert forall|p: int| 0 <= p < out@.len() implies (#[trigger] out@[p].0)
                        != k by {
                        let m2 = choose|m2: int| 0 <= m2 < es@.len() && es@[m2] == out@[p];
                        if m2 != m {
                            assert(es@[m2].0 != es@[m].0);
                        }
                    }
                    lemma_lookup_none(out@, k);
                }
            } else {
                assert(forall|m: int| 0 <= m < es@.len() ==> (#[trigger] es@[m].0) != k);
                lemma_lookup_none(es@, k);
                assert forall|p: int| 0 <= p < out@.len() implies (#[trigger] out@[p].0)
                    != k by {
                    let m2 = choose|m2: int| 0 <= m2 < es@.len() && es@[m2] == out@[p];
                }
                lemma_lookup_none(out@, k);
            }
        }
    }
    out
}

/// Metadata of one on-disk run, as the policy sees it.
#[derive(Clone, Copy, Debug, PartialEq, Eq, Structural)]
pub struct RunMeta {
    /// Sequence number of the run; newer runs carry greater numbers.
    pub id: u64,
    /// Size of the run's byte image.
    pub size: u64,
    /// Number of entries in the run.
    pub entry_count: u64,
    /// Number of tombstone entries in the run.
    pub tombstone_count: u64,
    /// Smallest key.
    pub min_key: u64,
    /// Greatest key.
    pub max_key: u64,
}

/// The size-tiered compaction policy: groups recency-adjacent runs of
/// similar size into buckets and proposes the oldest members of the best
/// bucket as one merge set.
#[derive(Clone, Copy, Debug)]
pub struct SizeTieredStrategy {
    /// A bucket is eligible once it holds this many runs (at least two).
    pub min_merge_width: usize,
    /// At most this many runs are merged in one pass.
    pub max_merge_width: usize,
    /// Lower size-ratio bound, as numerator over denominator.
    pub bucket_low_num: u64,
    /// Lower size-ratio bound denominator.
    pub bucket_low_den: u64,
    /// Upper size-ratio bound, as numerator over denominator.
    pub bucket_high_num: u64,
    /// Upper size-ratio bound denominator.
    pub bucket_high_den: u64,
    /// A bucket whose combined size or combined tombstone count exceeds this
    /// is merged even below `min_merge_width`.
    pub max_compaction_threshold: u64,
}

/// Product of two `u64` values, exact in 128 bits.
fn mul_u64(a: u64, b: u64) -> (r: u128)
    ensures
        r == a as int * b as int,
{
    proof {
        vstd::arithmetic::mul::lemma_mul_upper_bound(
            a as int,
            u64::MAX as int,
            b as int,
            u64::MAX as int,
        );
    }
    (a as u128) * (b as u128)
}

impl SizeTieredStrategy {
    /// The parameters make sense: widths at least two and ordered, ratio
    /// denominators positive, and the lower ratio strictly below the upper.
    pub open spec fn wf(self) -> bool {
        &&& self.min_merge_width >= 2
        &&& self.max_merge_width >= self.min_merge_width
        &&& self.bucket_low_den > 0
        &&& self.bucket_high_den > 0
        &&& self.bucket_low_num * self.bucket_high_den < self.bucket_high_num
            * self.bucket_low_den
    }

    /// Validates the parameters; invalid ones are rejected with
    /// `ConfigurationError`, and exactly those.
    pub fn new(
        min_merge_width: usize,
        max_merge_width: usize,
        bucket_low_num: u64,
        bucket_low_den: u64,
        bucket_high_num: u64,
        bucket_high_den: u64,
        max_compaction_threshold: u64,
    ) -> (r: Result<Self, Error>)
        ensures
            match r {
                Ok(s) => s.wf() && s == (SizeTieredStrategy {
                    min_merge_width,
                    max_merge_width,
                    bucket_low_num,
                    bucket_low_den,
                    bucket_high_num,
                    bucket_high_den,
                    max_compaction_threshold,
                }),
                Err(e) => e == Error::ConfigurationError && !(SizeTieredStrategy {
                    min_merge_width,
                    max_merge_width,
                    bucket_low_num,
                    bucket_low_den,
                    bucket_high_num,
                    bucket_high_den,
                    max_compaction_threshold,
                }).wf(),
            },
    {
        if min_merge_width < 2 || max_merge_width < min_merge_width {
            return Err(Error::ConfigurationError);
        }
        if bucket_low_den == 0 || bucket_high_den == 0 {
            return Err(Error::ConfigurationError);
        }
        if mul_u64(bucket_low_num, bucket_high_den) >= mul_u64(bucket_high_num, bucket_low_den) {
            return Err(Error::ConfigurationError);
        }
        Ok(
            SizeTieredStrategy {
                min_merge_width,
                max_merge_width,
                bucket_low_num,
                bucket_low_den,
                bucket_high_num,
                bucket_high_den,
                max_compaction_threshold,
            },
        )
    }

    /// Reports whether the parameters are valid.
    pub fn is_valid(&self) -> (r: bool)
        ensures
            r == self.wf(),
    {
        self.min_merge_width >= 2 && self.max_merge_width >= self.min_merge_width
            && self.bucket_low_den > 0 && self.bucket_high_den > 0 && mul_u64(
            self.bucket_low_num,
            self.bucket_high_den,
        ) < mul_u64(self.bucket_high_num, self.bucket_low_den)
    }

    /// Two sizes are similar when their ratio lies within the configured
    /// bounds: `s / base` in `[bucket_low, bucket_high]`.
    pub open spec fn spec_similar(self, base: u64, s: u64) -> bool {
        &&& s * self.bucket_low_den >= base * self.bucket_low_num
        &&& s * self.bucket_high_den <= base * self.bucket_high_num
    }

    fn similar(&self, base: u64, s: u64) -> (r: bool)
        ensures
            r == self.spec_similar(base, s),
    {
        mul_u64(s, self.bucket_low_den) >= mul_u64(base, self.bucket_low_num) && mul_u64(
            s,
            self.bucket_high_den,
        ) <= mul_u64(base, self.bucket_high_num)
    }

    /// Start of the bucket that ends just after position `lo` (runs are
    /// newest-first; the bucket's base size is its oldest member's).
    pub open spec fn spec_bucket_lo(self, metas: Seq<RunMeta>, base: u64, lo: int) -> int
        decreases lo,
    {
        if lo <= 0 {
            0
        } else if self.spec_similar(base, metas[lo - 1].size) {
            self.spec_bucket_lo(metas, base, lo - 1)
        } else {
            lo
        }
    }

    /// The bucket start lies between zero and the scan start.
    pub proof fn lemma_bucket_lo_range(self, metas: Seq<RunMeta>, base: u64, lo: int)
        requires
            lo >= 0,
        ensures
            0 <= self.spec_bucket_lo(metas, base, lo) <= lo,
        decreases lo,
    {
        if lo > 0 && self.spec_similar(base, metas[lo - 1].size) {
            self.lemma_bucket_lo_range(metas, base, lo - 1);
        }
    }

    /// Combined byte size of the runs in `[lo, hi)`.
    pub open spec fn spec_size_sum(metas: Seq<RunMeta>, lo: int, hi: int) -> int
        decreases hi - lo,
    {
        if lo >= hi {
            0
        } else {
            metas[lo].size + Self::spec_size_sum(metas, lo + 1, hi)
        }
    }

    /// Combined tombstone count of the runs in `[lo, hi)`.
    pub open spec fn spec_tomb_sum(metas: Seq<RunMeta>, lo: int, hi: int) -> int
        decreases hi - lo,
    {
        if lo >= hi {
            0
        } else {
            metas[lo].tombstone_count + Self::spec_tomb_sum(metas, lo + 1, hi)
        }
    }

    /// The sums are bounded by the number of summands times the largest
    /// possible value.
    pub proof fn lemma_sums_bounds(metas: Seq<RunMeta>, lo: int, hi: int)
        requires
            0 <= lo <= hi,
        ensures
            0 <= Self::spec_size_sum(metas, lo, hi) <= (hi - lo) * (u64::MAX as int),
            0 <= Self::spec_tomb_sum(metas, lo, hi) <= (hi - lo) * (u64::MAX as int),
        decreases hi - lo,
    {
        if lo < hi {
            Self::lemma_sums_bounds(metas, lo + 1, hi);
        }
    }

    /// A bucket triggers a major compaction when its combined size or
    /// combined tombstone count exceeds the threshold.
    pub open spec fn spec_major(self, metas: Seq<RunMeta>, lo: int, hi: int) -> bool {
        ||| Self::spec_size_sum(metas, lo, hi) > self.max_compaction_threshold
        ||| Self::spec_tomb_sum(metas, lo, hi) > self.max_compaction_threshold
    }

    /// A bucket may be merged when it is wide enough, or over the major
    /// threshold with at least two members.
    pub open spec fn spec_eligible(self, metas: Seq<RunMeta>, lo: int, hi: int) -> bool {
        ||| hi - lo >= self.min_merge_width
        ||| (self.spec_major(metas, lo, hi) && hi - lo >= 2)
    }

    /// Start of the selected range: the bucket's oldest members, capped at
    /// `max_merge_width`.
    pub open spec fn spec_sel_lo(self, blo: int, hi: int) -> int {
        if hi - blo > self.max_merge_width {
            hi - self.max_merge_width
        } else {
            blo
        }
    }

    /// Preference between two candidate buckets `(bucket start, selection
    /// start, end)`: a major bucket first, then the smaller base size, then
    /// the wider bucket, then the older one.
    pub open spec fn spec_prefer(
        self,
        metas: Seq<RunMeta>,
        x: (int, int, int),
        y: (int, int, int),
    ) -> bool {
        let xm = self.spec_major(metas, x.0, x.2);
        let ym = self.spec_major(metas, y.0, y.2);
        if xm != ym {
            xm
        } else if metas[x.2 - 1].size != metas[y.2 - 1].size {
            metas[x.2 - 1].size < metas[y.2 - 1].size
        } else if x.2 - x.0 != y.2 - y.0 {
            x.2 - x.0 > y.2 - y.0
        } else {
            x.2 >= y.2
        }
    }

    /// The preferred of two optional candidates.
    pub open spec fn spec_better(
        self,
        metas: Seq<RunMeta>,
        a: Option<(int, int, int)>,
        b: Option<(int, int, int)>,
    ) -> Option<(int, int, int)> {
        if a is None {
            b
        } else if b is None {
            a
        } else if self.spec_prefer(metas, a->0, b->0) {
            a
        } else {
            b
        }
    }

    /// The candidate chosen among the buckets tiling `[0, hi)`.
    pub open spec fn spec_select_from(self, metas: Seq<RunMeta>, hi: int) -> Option<
        (int, int, int),
    >
        decreases hi,
        via Self::select_from_decreases
    {
        if hi <= 0 {
            None
        } else {
            let base = metas[hi - 1].size;
            let blo = self.spec_bucket_lo(metas, base, hi - 1);
            let cand: Option<(int, int, int)> = if self.spec_eligible(metas, blo, hi) {
                Some((blo, self.spec_sel_lo(blo, hi), hi))
            } else {
                None
            };
            self.spec_better(metas, cand, self.spec_select_from(metas, blo))
        }
    }

    #[via_fn]
    proof fn select_from_decreases(self, metas: Seq<RunMeta>, hi: int) {
        if hi > 0 {
            self.lemma_bucket_lo_range(metas, metas[hi - 1].size, hi - 1);
        }
    }

    /// The policy's whole decision for a run list: at most one merge set.
    pub open spec fn spec_select(self, metas: Seq<RunMeta>) -> Option<(int, int, int)> {
        self.spec_select_from(metas, metas.len() as int)
    }

    /// A selected candidate is a contiguous range of at least two runs, its
    /// selection being the oldest members of its bucket.
    pub proof fn lemma_select_props(self, metas: Seq<RunMeta>, hi: int)
        requires
            self.wf(),
            0 <= hi <= metas.len(),
        ensures
            match self.spec_select_from(metas, hi) {
                Some(c) => 0 <= c.0 <= c.1 && c.1 + 2 <= c.2 <= hi && c.1 == self.spec_sel_lo(
                    c.0,
                    c.2,
                ) && self.spec_eligible(metas, c.0, c.2),
                None => true,
            },
        decreases hi,
    {
        if hi > 0 {
            let base = metas[hi - 1].size;
            let blo = self.spec_bucket_lo(metas, base, hi - 1);
            self.lemma_bucket_lo_range(metas, base, hi - 1);
            self.lemma_select_props(metas, blo);
        }
    }

    /// One pass of the scan: the selected range `(start, end)` of positions
    /// in `metas` (newest-first), or `None` when no bucket is eligible.
    pub(crate) fn select_merge_range(&self, metas: &Vec<RunMeta>) -> (r: Option<
        (usize, usize),
    >)
        requires
            self.wf(),
        ensures
            match (r, self.spec_select(metas@)) {
                (None, None) => true,
                (Some(p), Some(c)) => p.0 == c.1 && p.1 == c.2,
                _ => false,
            },
            r matches Some(p) ==> p.0 + 2 <= p.1 <= metas@.len(),
    {
        let r = self.select_from(metas, metas.len());
        proof {
            self.lemma_select_props(metas@, metas@.len() as int);
        }
        match r {
            None => None,
            Some(c) => Some((c.slo, c.hi)),
        }
    }

    /// The merge sets for the current run metadata, each a list of run
    /// sequence numbers, oldest bucket members first in recency order.
    pub fn select_merge_sets(&self, metas: &Vec<RunMeta>) -> (r: Vec<Vec<u64>>)
        requires
            self.wf(),
        ensures
            match self.spec_select(metas@) {
                None => r@.len() == 0,
                Some(c) => r@.len() == 1 && r@[0].len() == c.2 - c.1 && forall|p: int|
                    0 <= p < r@[0].len() ==> r@[0][p] == metas@[c.1 + p].id,
            },
    {
        let mut out: Vec<Vec<u64>> = Vec::new();
        if let Some((slo, hi)) = self.select_merge_range(metas) {
            let mut ids: Vec<u64> = Vec::new();
            let mut p = slo;
            while p < hi
                invariant
                    slo <= p <= hi <= metas@.len(),
                    ids@.len() == p - slo,
                    forall|q: int| 0 <= q < ids@.len() ==> ids@[q] == metas@[slo + q].id,
                decreases hi - p,
            {
                ids.push(metas[p].id);
                p += 1;
            }
            out.push(ids);
        }
        out
    }

    /// Recursive mirror of the selection: processes the bucket ending at
    /// `hi`, then the newer rest.
    fn select_from(&self, metas: &Vec<RunMeta>, hi: usize) -> (r: Option<Candidate>)
        requires
            self.wf(),
            hi <= metas@.len(),
        ensures
            match (r, self.spec_select_from(metas@, hi as int)) {
                (None, None) => true,
                (Some(c), Some(t)) => c.blo == t.0 && c.slo == t.1 && c.hi == t.2 && c.major
                    == self.spec_major(metas@, t.0, t.2) && c.base == metas@[t.2 - 1].size,
                _ => false,
            },
        decreases hi,
    {
        if hi == 0 {
            return None;
        }
        let base = metas[hi - 1].size;
        let mut lo = hi - 1;
        while lo > 0 && self.similar(base, metas[lo - 1].size)
            invariant
                0 <= lo <= hi - 1,
                hi <= metas@.len(),
                self.spec_bucket_lo(metas@, base, lo as int) == self.spec_bucket_lo(
                    metas@,
                    base,
                    hi as int - 1,
                ),
            decreases lo,
        {
            lo -= 1;
        }
        proof {
            assert(self.spec_bucket_lo(metas@, base, lo as int) == lo as int);
        }
        let ghost blo = self.spec_bucket_lo(metas@, base, hi as int - 1);
        let mut size_sum: u128 = 0;
        let mut tomb_sum: u128 = 0;
        let mut t = lo;
        while t < hi
            invariant
                lo <= t <= hi <= metas@.len(),
                size_sum == Self::spec_size_sum(metas@, lo as int, t as int),
                tomb_sum == Self::spec_tomb_sum(metas@, lo as int, t as int),
            decreases hi - t,
        {
            proof {
                Self::lemma_sums_bounds(metas@, lo as int, t as int);
                Self::lemma_sums_step(metas@, lo as int, t as int);
                vstd::arithmetic::mul::lemma_mul_inequality(
                    t as int - lo as int,
                    u64::MAX as int,
                    u64::MAX as int,
                );
            }
            size_sum += metas[t].size as u128;
            tomb_sum += metas[t].tombstone_count as u128;
            t += 1;
        }
        let major = size_sum > self.max_compaction_threshold as u128 || tomb_sum
            > self.max_compaction_threshold as u128;
        let count = hi - lo;
        let eligible = count >= self.min_merge_width || (major && count >= 2);
        let cand: Option<Candidate> = if eligible {
            let slo = if count > self.max_merge_width {
                hi - self.max_merge_width
            } else {
                lo
            };
            Some(Candidate { blo: lo, slo, hi, major, base })
        } else {
            None
        };
        let rest = self.select_from(metas, lo);
        proof {
            self.lemma_select_props(metas@, lo as int);
        }
        match (cand, rest) {
            (None, r2) => r2,
            (c1, None) => c1,
            (Some(cx), Some(cy)) => {
                let keep_x = if cx.major != cy.major {
                    cx.major
                } else if cx.base != cy.base {
                    cx.base < cy.base
                } else if cx.hi - cx.blo != cy.hi - cy.blo {
                    cx.hi - cx.blo > cy.hi - cy.blo
                } else {
                    cx.hi >= cy.hi
                };
                if keep_x {
                    Some(cx)
                } else {
                    Some(cy)
                }
            }
        }
    }

    /// One more summand extends the range sums by the run at `t`.
    pub proof fn lemma_sums_step(metas: Seq<RunMeta>, lo: int, t: int)
        requires
            0 <= lo <= t,
        ensures
            Self::spec_size_sum(metas, lo, t + 1) == Self::spec_size_sum(metas, lo, t)
                + metas[t].size,
            Self::spec_tomb_sum(metas, lo, t + 1) == Self::spec_tomb_sum(metas, lo, t)
                + metas[t].tombstone_count,
        decreases t - lo,
    {
        assert(Self::spec_size_sum(metas, t + 1, t + 1) == 0);
        assert(Self::spec_tomb_sum(metas, t + 1, t + 1) == 0);
        if lo < t {
            Self::lemma_sums_step(metas, lo + 1, t);
        }
    }
}

/// An evaluated candidate bucket carried through the scan.
struct Candidate {
    blo: usize,
    slo: usize,
    hi: usize,
    major: bool,
    base: u64,
}

} // verus!
