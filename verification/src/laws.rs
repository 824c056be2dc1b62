//! The store's general laws, stated and proved once over the models that
//! the operation contracts speak of.

use vstd::prelude::*;
use crate::sstable::{
    Entry, spec_lookup, spec_encode_entries, spec_entry_len, is_run_encoding,
    lemma_footer_facts, lemma_entry_fields, lemma_encode_entries_len_lower,
};
use crate::codec::{u64_from_le, lemma_u64_le_round_trip};
use crate::compaction::{or_else, spec_live};
use crate::map::{LsmMap, spec_lookup_frames, lemma_lookup_frames_concat};

verus! {

/// The most recent write to a key decides every later read: once a store
/// reflects a write of `w` under `key`, any maintenance that preserves the
/// logical view (flushes and compactions do, by their contracts) keeps
/// `key` at `w` and every other key unchanged.
pub proof fn lemma_round_trip(m0: LsmMap, m1: LsmMap, m2: LsmMap, key: u64, w: Option<u64>)
    requires
        forall|k: u64| m1.spec_get(k) == (if k == key {
            w
        } else {
            m0.spec_get(k)
        }),
        forall|k: u64| m2.spec_get(k) == m1.spec_get(k),
    ensures
        m2.spec_get(key) == w,
        forall|k: u64| k != key ==> m2.spec_get(k) == m0.spec_get(k),
{
}

/// A tombstone in the newest source shadows every older source: the stack's
/// answer is the tombstone, whatever older runs hold for the key.
pub proof fn lemma_tombstone_shadows(fs: Seq<Seq<Entry>>, key: u64)
    requires
        fs.len() > 0,
        spec_lookup(fs[0], key) == Some(None::<u64>),
    ensures
        spec_lookup_frames(fs, key) == Some(None::<u64>),
{
    assert(spec_lookup_frames(fs, key) == or_else(
        spec_lookup(fs[0], key),
        spec_lookup_frames(fs.skip(1), key),
    ));
}

/// Replacing adjacent sources by one source with the same combined answer
/// preserves the whole stack's answer, whatever newer and older sources
/// surround them: merging runs and publishing the output in their place
/// changes no read.
pub proof fn lemma_merge_replacement(
    a: Seq<Seq<Entry>>,
    mid: Seq<Seq<Entry>>,
    b: Seq<Seq<Entry>>,
    m: Seq<Entry>,
    key: u64,
)
    requires
        forall|k: u64| #[trigger] spec_lookup(m, k) == spec_lookup_frames(mid, k),
    ensures
        spec_lookup_frames(a + seq![m] + b, key) == spec_lookup_frames(a + mid + b, key),
{
    lemma_lookup_frames_concat(a + seq![m], b, key);
    lemma_lookup_frames_concat(a, seq![m], key);
    lemma_lookup_frames_concat(a + mid, b, key);
    lemma_lookup_frames_concat(a, mid, key);
    assert(seq![m].skip(1) =~= Seq::<Seq<Entry>>::empty());
    assert(spec_lookup_frames(seq![m], key) == or_else(
        spec_lookup(m, key),
        spec_lookup_frames(seq![m].skip(1), key),
    ));
}

/// When the merged sources are the oldest in the stack, tombstones may be
/// dropped from the merge: after suppressing tombstones at the top, the
/// stack answers as before.
pub proof fn lemma_merge_replacement_drop(
    a: Seq<Seq<Entry>>,
    mid: Seq<Seq<Entry>>,
    m: Seq<Entry>,
    key: u64,
)
    requires
        forall|k: u64| #[trigger] spec_lookup(m, k) == spec_live(spec_lookup_frames(mid, k)),
    ensures
        spec_live(spec_lookup_frames(a + seq![m], key)) == spec_live(
            spec_lookup_frames(a + mid, key),
        ),
{
    lemma_lookup_frames_concat(a, seq![m], key);
    lemma_lookup_frames_concat(a, mid, key);
    assert(seq![m].skip(1) =~= Seq::<Seq<Entry>>::empty());
    assert(spec_lookup_frames(seq![m], key) == or_else(
        spec_lookup(m, key),
        spec_lookup_frames(seq![m].skip(1), key),
    ));
}

/// Entry sequences of equal length with equal encodings are equal.
proof fn lemma_encode_entries_injective(a: Seq<Entry>, b: Seq<Entry>)
    requires
        a.len() == b.len(),
        spec_encode_entries(a) == spec_encode_entries(b),
    ensures
        a == b,
    decreases a.len(),
{
    if a.len() > 0 {
        lemma_entry_fields(a, 0);
        lemma_entry_fields(b, 0);
        assert(a.take(0) =~= Seq::<Entry>::empty());
        assert(b.take(0) =~= Seq::<Entry>::empty());
        let enc = spec_encode_entries(a);
        lemma_u64_le_round_trip(a[0].0);
        lemma_u64_le_round_trip(b[0].0);
        lemma_u64_le_round_trip(crate::sstable::TOMBSTONE_MARKER);
        lemma_u64_le_round_trip(crate::sstable::VALUE_LEN);
        assert(a[0].0 == b[0].0) by {
            assert(u64_from_le(enc.subrange(8, 16)) == a[0].0);
            assert(u64_from_le(enc.subrange(8, 16)) == b[0].0);
        }
        if a[0].1 is None && b[0].1 is Some {
            assert(u64_from_le(enc.subrange(16, 24)) == crate::sstable::TOMBSTONE_MARKER);
            assert(u64_from_le(enc.subrange(16, 24)) == crate::sstable::VALUE_LEN);
            assert(false);
        }
        if a[0].1 is Some && b[0].1 is None {
            assert(u64_from_le(enc.subrange(16, 24)) == crate::sstable::TOMBSTONE_MARKER);
            assert(u64_from_le(enc.subrange(16, 24)) == crate::sstable::VALUE_LEN);
            assert(false);
        }
        if a[0].1 is Some && b[0].1 is Some {
            lemma_u64_le_round_trip(a[0].1->0);
            lemma_u64_le_round_trip(b[0].1->0);
            assert(u64_from_le(enc.subrange(24, 32)) == a[0].1->0);
            assert(u64_from_le(enc.subrange(24, 32)) == b[0].1->0);
        }
        assert(a[0] == b[0]);
        assert(spec_encode_entries(a.skip(1)) =~= spec_encode_entries(b.skip(1))) by {
            assert(spec_encode_entries(a) == crate::sstable::spec_encode_entry(a[0])
                + spec_encode_entries(a.skip(1)));
            assert(spec_encode_entries(b) == crate::sstable::spec_encode_entry(b[0])
                + spec_encode_entries(b.skip(1)));
            assert(spec_encode_entries(a.skip(1)) =~= spec_encode_entries(a).subrange(
                spec_entry_len(a[0]) as int,
                spec_encode_entries(a).len() as int,
            ));
            assert(spec_encode_entries(b.skip(1)) =~= spec_encode_entries(b).subrange(
                spec_entry_len(b[0]) as int,
                spec_encode_entries(b).len() as int,
            ));
        }
        lemma_encode_entries_injective(a.skip(1), b.skip(1));
        assert forall|i: int| 0 <= i < a.len() implies a[i] == b[i] by {
            if i > 0 {
                assert(a[i] == a.skip(1)[i - 1]);
                assert(b[i] == b.skip(1)[i - 1]);
            }
        }
        assert(a =~= b);
    } else {
        assert(a =~= b);
    }
}

/// A published run is immutable, and its byte image determines its entries:
/// two well-formed runs with the same bytes hold the same entries, so
/// repeated reads of one key from one image always return the same answer.
pub proof fn lemma_run_image_determines_entries(b: Seq<u8>, es1: Seq<Entry>, es2: Seq<Entry>)
    requires
        is_run_encoding(b, es1),
        is_run_encoding(b, es2),
        b.len() <= usize::MAX,
    ensures
        es1 == es2,
        forall|key: u64| spec_lookup(es1, key) == spec_lookup(es2, key),
{
    lemma_footer_facts(b, es1);
    lemma_footer_facts(b, es2);
    lemma_encode_entries_len_lower(es1);
    lemma_encode_entries_len_lower(es2);
    assert(es1.len() as u64 == es2.len() as u64);
    assert(es1.len() == es2.len());
    assert(spec_encode_entries(es1) == b.subrange(0, spec_encode_entries(es1).len() as int));
    assert(spec_encode_entries(es2) == b.subrange(0, spec_encode_entries(es2).len() as int));
    lemma_encode_entries_injective(es1, es2);
}

} // verus!
