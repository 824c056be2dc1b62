//! The durable run format: an immutable sorted sequence of entries encoded
//! as one byte region, followed by a sparse index and a fixed-size footer.
//!
//! Layout, all numbers eight little-endian bytes:
//!   - per entry: `[key_len][key][value_len or tombstone marker][value]`
//!     (the value field is absent for a tombstone);
//!   - sparse index: for every `SPARSE_INDEX_INTERVAL`-th entry, its key and
//!     its byte offset in the data region;
//!   - footer: data region length, index entry count, entry count, minimum
//!     key, maximum key.

use vstd::prelude::*;
use crate::codec::{
    u64_le_bytes, u64_from_le, encode_u64, decode_u64, lemma_u64_le_round_trip,
    lemma_u64_le_bytes_of,
};
use crate::Error;

verus! {

/// Byte length of an encoded key.
pub const KEY_LEN: u64 = 8;

/// Byte length of an encoded value.
pub const VALUE_LEN: u64 = 8;

/// Marker stored in the value-length field of a tombstone entry.
pub const TOMBSTONE_MARKER: u64 = 0xffff_ffff_ffff_ffff;

/// Byte length of the footer.
pub const FOOTER_LEN: usize = 40;

/// Byte length of one sparse-index entry.
pub const INDEX_ENTRY_LEN: usize = 16;

/// One sparse-index entry is recorded for every this many data entries.
pub const SPARSE_INDEX_INTERVAL: usize = 8;

/// An entry pairs a key with either a value or a tombstone (`None`).
pub type Entry = (u64, Option<u64>);

/// The bytes of the value field of an entry.
pub open spec fn spec_encode_value(v: Option<u64>) -> Seq<u8> {
    match v {
        Some(x) => u64_le_bytes(VALUE_LEN) + u64_le_bytes(x),
        None => u64_le_bytes(TOMBSTONE_MARKER),
    }
}

/// The bytes of one entry.
pub open spec fn spec_encode_entry(e: Entry) -> Seq<u8> {
    u64_le_bytes(KEY_LEN) + u64_le_bytes(e.0) + spec_encode_value(e.1)
}

/// Encoded byte length of one entry.
pub open spec fn spec_entry_len(e: Entry) -> nat {
    if e.1 is Some {
        32
    } else {
        24
    }
}

/// The bytes of the data region: each entry's encoding, in order.
pub open spec fn spec_encode_entries(es: Seq<Entry>) -> Seq<u8>
    decreases es.len(),
{
    if es.len() == 0 {
        Seq::empty()
    } else {
        spec_encode_entry(es[0]) + spec_encode_entries(es.skip(1))
    }
}

/// Byte offset of entry `i` within the data region.
pub open spec fn spec_offset(es: Seq<Entry>, i: int) -> nat {
    spec_encode_entries(es.take(i)).len()
}

/// Number of sparse-index entries for `n` data entries.
pub open spec fn spec_index_count(n: nat) -> nat {
    (n + (SPARSE_INDEX_INTERVAL - 1) as nat) / (SPARSE_INDEX_INTERVAL as nat)
}

/// The sparse index: key and offset of every `SPARSE_INDEX_INTERVAL`-th entry.
pub open spec fn spec_index_of(es: Seq<Entry>) -> Seq<(u64, u64)> {
    Seq::new(
        spec_index_count(es.len()),
        |j: int| (
            es[j * (SPARSE_INDEX_INTERVAL as int)].0,
            spec_offset(es, j * (SPARSE_INDEX_INTERVAL as int)) as u64,
        ),
    )
}

/// The bytes of the sparse index region.
pub open spec fn spec_encode_index(ix: Seq<(u64, u64)>) -> Seq<u8>
    decreases ix.len(),
{
    if ix.len() == 0 {
        Seq::empty()
    } else {
        u64_le_bytes(ix[0].0) + u64_le_bytes(ix[0].1) + spec_encode_index(ix.skip(1))
    }
}

/// The bytes of the footer.
pub open spec fn spec_footer(
    data_len: u64,
    index_count: u64,
    entry_count: u64,
    min_key: u64,
    max_key: u64,
) -> Seq<u8> {
    u64_le_bytes(data_len) + u64_le_bytes(index_count) + u64_le_bytes(entry_count)
        + u64_le_bytes(min_key) + u64_le_bytes(max_key)
}

/// A run's entries are well formed when there is at least one and the keys
/// are strictly increasing.
pub open spec fn wf_entries(es: Seq<Entry>) -> bool {
    &&& es.len() > 0
    &&& forall|i: int, j: int| 0 <= i < j < es.len() ==> es[i].0 < es[j].0
}

/// The complete byte image of a run holding the entries `es`.
pub open spec fn spec_encode_run(es: Seq<Entry>) -> Seq<u8>
    recommends
        wf_entries(es),
{
    spec_encode_entries(es) + spec_encode_index(spec_index_of(es)) + spec_footer(
        spec_encode_entries(es).len() as u64,
        spec_index_of(es).len() as u64,
        es.len() as u64,
        es[0].0,
        es[es.len() - 1].0,
    )
}

/// The run's answer for `key`: `None` when the key is absent, otherwise the
/// stored value or tombstone.
pub open spec fn spec_lookup(es: Seq<Entry>, key: u64) -> Option<Option<u64>>
    decreases es.len(),
{
    if es.len() == 0 {
        None
    } else if es[0].0 == key {
        Some(es[0].1)
    } else {
        spec_lookup(es.skip(1), key)
    }
}

/// Number of tombstone entries.
pub open spec fn spec_tombstones(es: Seq<Entry>) -> nat
    decreases es.len(),
{
    if es.len() == 0 {
        0
    } else {
        (if es[0].1 is None {
            1nat
        } else {
            0nat
        }) + spec_tombstones(es.skip(1))
    }
}

/// Encoding distributes over concatenation of entry sequences.
pub proof fn lemma_encode_entries_concat(a: Seq<Entry>, b: Seq<Entry>)
    ensures
        spec_encode_entries(a + b) == spec_encode_entries(a) + spec_encode_entries(b),
    decreases a.len(),
{
    if a.len() == 0 {
        assert(a + b =~= b);
        assert(spec_encode_entries(a) + spec_encode_entries(b) =~= spec_encode_entries(b));
    } else {
        assert((a + b).skip(1) =~= a.skip(1) + b);
        lemma_encode_entries_concat(a.skip(1), b);
        assert(spec_encode_entries(a + b) =~= spec_encode_entries(a) + spec_encode_entries(b));
    }
}

/// Index-region encoding distributes over concatenation.
pub proof fn lemma_encode_index_concat(a: Seq<(u64, u64)>, b: Seq<(u64, u64)>)
    ensures
        spec_encode_index(a + b) == spec_encode_index(a) + spec_encode_index(b),
    decreases a.len(),
{
    if a.len() == 0 {
        assert(a + b =~= b);
        assert(spec_encode_index(a) + spec_encode_index(b) =~= spec_encode_index(b));
    } else {
        assert((a + b).skip(1) =~= a.skip(1) + b);
        lemma_encode_index_concat(a.skip(1), b);
        assert(spec_encode_index(a + b) =~= spec_encode_index(a) + spec_encode_index(b));
    }
}

/// The length of an entry's encoding.
pub proof fn lemma_encode_entry_len(e: Entry)
    ensures
        spec_encode_entry(e).len() == spec_entry_len(e),
{
}

/// Appending one entry extends the data region by that entry's encoding.
pub proof fn lemma_encode_entries_push(es: Seq<Entry>, e: Entry)
    ensures
        spec_encode_entries(es.push(e)) == spec_encode_entries(es) + spec_encode_entry(e),
{
    assert(es.push(e) =~= es + seq![e]);
    lemma_encode_entries_concat(es, seq![e]);
    assert(seq![e].skip(1) =~= Seq::<Entry>::empty());
    assert(spec_encode_entries(seq![e])
        == spec_encode_entry(seq![e][0]) + spec_encode_entries(seq![e].skip(1)));
    assert(seq![e][0] == e);
    assert(spec_encode_entry(e) + spec_encode_entries(Seq::<Entry>::empty())
        =~= spec_encode_entry(e));
}

/// Offsets step by the entry length, and the slice between two consecutive
/// offsets is exactly that entry's encoding.
pub proof fn lemma_offset_step(es: Seq<Entry>, i: int)
    requires
        0 <= i < es.len(),
    ensures
        spec_offset(es, i + 1) == spec_offset(es, i) + spec_entry_len(es[i]),
        spec_encode_entries(es).subrange(
            spec_offset(es, i) as int,
            spec_offset(es, i + 1) as int,
        ) == spec_encode_entry(es[i]),
        spec_offset(es, i + 1) <= spec_encode_entries(es).len(),
{
    assert(es.take(i + 1) =~= es.take(i).push(es[i]));
    lemma_encode_entries_push(es.take(i), es[i]);
    lemma_encode_entry_len(es[i]);
    // the whole data region is the first i + 1 entries followed by the rest
    assert(es =~= es.take(i + 1) + es.skip(i + 1));
    lemma_encode_entries_concat(es.take(i + 1), es.skip(i + 1));
    assert(spec_encode_entries(es).subrange(
        spec_offset(es, i) as int,
        spec_offset(es, i + 1) as int,
    ) =~= spec_encode_entry(es[i]));
}

/// The offset of the first entry is zero and the offset after the last entry
/// is the data region's length.
pub proof fn lemma_offset_bounds(es: Seq<Entry>)
    ensures
        spec_offset(es, 0) == 0,
        spec_offset(es, es.len() as int) == spec_encode_entries(es).len(),
{
    assert(es.take(0) =~= Seq::<Entry>::empty());
    assert(es.take(es.len() as int) =~= es);
}

/// If a key equals the key of entry `i` of a strictly sorted sequence, the
/// lookup finds entry `i`.
pub proof fn lemma_lookup_found(es: Seq<Entry>, i: int)
    requires
        forall|p: int, q: int| 0 <= p < q < es.len() ==> es[p].0 < es[q].0,
        0 <= i < es.len(),
    ensures
        spec_lookup(es, es[i].0) == Some(es[i].1),
    decreases es.len(),
{
    if i == 0 {
    } else {
        assert(es[0].0 < es[i].0);
        lemma_lookup_found(es.skip(1), i - 1);
    }
}

/// If no entry has the key, the lookup misses.
pub proof fn lemma_lookup_none(es: Seq<Entry>, key: u64)
    requires
        forall|m: int| 0 <= m < es.len() ==> (#[trigger] es[m].0) != key,
    ensures
        spec_lookup(es, key) == None::<Option<u64>>,
    decreases es.len(),
{
    if es.len() > 0 {
        assert(es[0].0 != key);
        assert(forall|m: int| 0 <= m < es.skip(1).len() ==> (#[trigger] es.skip(1)[m].0) != key);
        lemma_lookup_none(es.skip(1), key);
    }
}

/// In a strictly sorted sequence a key below the first or above the last key
/// is absent.
pub proof fn lemma_lookup_out_of_range(es: Seq<Entry>, key: u64)
    requires
        wf_entries(es),
        key < es[0].0 || key > es[es.len() - 1].0,
    ensures
        spec_lookup(es, key) == None::<Option<u64>>,
{
    assert forall|m: int| 0 <= m < es.len() implies (#[trigger] es[m].0) != key by {
        if m > 0 {
            assert(es[0].0 < es[m].0);
        }
        if m < es.len() - 1 {
            assert(es[m].0 < es[es.len() - 1].0);
        }
    }
    lemma_lookup_none(es, key);
}

/// The index region's length is sixteen bytes per index entry.
pub proof fn lemma_encode_index_len(ix: Seq<(u64, u64)>)
    ensures
        spec_encode_index(ix).len() == 16 * ix.len(),
    decreases ix.len(),
{
    if ix.len() > 0 {
        lemma_encode_index_len(ix.skip(1));
    }
}

/// The data region holds at least twenty-four bytes per entry.
pub proof fn lemma_encode_entries_len_lower(es: Seq<Entry>)
    ensures
        spec_encode_entries(es).len() >= 24 * es.len(),
    decreases es.len(),
{
    if es.len() > 0 {
        lemma_encode_entries_len_lower(es.skip(1));
    }
}

/// How the sparse index grows when one entry is appended.
pub proof fn lemma_index_of_push(es: Seq<Entry>, e: Entry)
    ensures
        spec_index_of(es.push(e)) == if es.len() % (SPARSE_INDEX_INTERVAL as nat) == 0 {
            spec_index_of(es).push((e.0, spec_encode_entries(es).len() as u64))
        } else {
            spec_index_of(es)
        },
{
    let n = es.len();
    let w = SPARSE_INDEX_INTERVAL as nat;
    let es2 = es.push(e);
    vstd::arithmetic::div_mod::lemma_fundamental_div_mod(n as int, w as int);
    vstd::arithmetic::div_mod::lemma_fundamental_div_mod((n + 7) as int, w as int);
    vstd::arithmetic::div_mod::lemma_fundamental_div_mod((n + 8) as int, w as int);
    vstd::arithmetic::div_mod::lemma_mod_bound(n as int, w as int);
    vstd::arithmetic::div_mod::lemma_mod_bound((n + 7) as int, w as int);
    vstd::arithmetic::div_mod::lemma_mod_bound((n + 8) as int, w as int);
    assert(spec_index_count(n + 1) == spec_index_count(n) + if n % w == 0 {
        1nat
    } else {
        0nat
    });
    // entries and offsets referenced by surviving index slots are unchanged
    assert forall|j: int| 0 <= j < spec_index_count(n) implies {
        &&& 0 <= #[trigger] (j * (SPARSE_INDEX_INTERVAL as int)) < n
        &&& es2[j * (SPARSE_INDEX_INTERVAL as int)] == es[j * (SPARSE_INDEX_INTERVAL as int)]
        &&& spec_offset(es2, j * (SPARSE_INDEX_INTERVAL as int)) == spec_offset(
            es,
            j * (SPARSE_INDEX_INTERVAL as int),
        )
    } by {
        let wi = SPARSE_INDEX_INTERVAL as int;
        vstd::arithmetic::div_mod::lemma_fundamental_div_mod((n + 7) as int, wi);
        vstd::arithmetic::div_mod::lemma_mod_bound((n + 7) as int, wi);
        assert(wi * spec_index_count(n) <= n + 7);
        vstd::arithmetic::mul::lemma_mul_inequality(j + 1, spec_index_count(n) as int, wi);
        assert(j * wi + wi <= spec_index_count(n) * wi) by (nonlinear_arith)
            requires (j + 1) * wi <= spec_index_count(n) * wi;
        assert(j * wi >= 0) by (nonlinear_arith)
            requires j >= 0, wi > 0;
        assert(es2.take(j * wi) =~= es.take(j * wi));
    }
    if n % w == 0 {
        let wi = SPARSE_INDEX_INTERVAL as int;
        assert(spec_index_count(n) * wi == n) by {
            vstd::arithmetic::div_mod::lemma_fundamental_div_mod((n + 7) as int, wi);
            vstd::arithmetic::div_mod::lemma_fundamental_div_mod(n as int, wi);
            vstd::arithmetic::div_mod::lemma_mod_bound((n + 7) as int, wi);
        }
        assert(es2.take(n as int) =~= es);
        assert(spec_index_of(es2) =~= spec_index_of(es).push(
            (e.0, spec_encode_entries(es).len() as u64),
        ));
    } else {
        assert(spec_index_of(es2) =~= spec_index_of(es));
    }
}

/// How the tombstone count changes when one entry is appended.
pub proof fn lemma_tombstones_push(es: Seq<Entry>, e: Entry)
    ensures
        spec_tombstones(es.push(e)) == spec_tombstones(es) + if e.1 is None {
            1nat
        } else {
            0nat
        },
    decreases es.len(),
{
    if es.len() == 0 {
        assert(es.push(e).skip(1) =~= Seq::<Entry>::empty());
        assert(es.push(e)[0] == e);
        assert(spec_tombstones(Seq::<Entry>::empty()) == 0);
    } else {
        assert(es.push(e).skip(1) =~= es.skip(1).push(e));
        assert(es.push(e)[0] == es[0]);
        lemma_tombstones_push(es.skip(1), e);
    }
}

/// The fields of entry `i` as byte slices of the data region.
pub proof fn lemma_entry_fields(es: Seq<Entry>, i: int)
    requires
        0 <= i < es.len(),
    ensures
        spec_offset(es, i) + spec_entry_len(es[i]) <= spec_encode_entries(es).len(),
        spec_offset(es, i + 1) == spec_offset(es, i) + spec_entry_len(es[i]),
        spec_encode_entries(es).subrange(
            spec_offset(es, i) as int,
            spec_offset(es, i) as int + 8,
        ) == u64_le_bytes(KEY_LEN),
        spec_encode_entries(es).subrange(
            spec_offset(es, i) as int + 8,
            spec_offset(es, i) as int + 16,
        ) == u64_le_bytes(es[i].0),
        es[i].1 is None ==> spec_encode_entries(es).subrange(
            spec_offset(es, i) as int + 16,
            spec_offset(es, i) as int + 24,
        ) == u64_le_bytes(TOMBSTONE_MARKER),
        es[i].1 is Some ==> spec_encode_entries(es).subrange(
            spec_offset(es, i) as int + 16,
            spec_offset(es, i) as int + 24,
        ) == u64_le_bytes(VALUE_LEN) && spec_encode_entries(es).subrange(
            spec_offset(es, i) as int + 24,
            spec_offset(es, i) as int + 32,
        ) == u64_le_bytes(es[i].1->0),
{
    lemma_offset_step(es, i);
    let enc = spec_encode_entries(es);
    let o = spec_offset(es, i) as int;
    let e = es[i];
    let ee = spec_encode_entry(e);
    assert(enc.subrange(o, o + spec_entry_len(e) as int) == ee);
    assert(enc.subrange(o, o + 8) =~= ee.subrange(0, 8));
    assert(enc.subrange(o + 8, o + 16) =~= ee.subrange(8, 16));
    assert(enc.subrange(o + 16, o + 24) =~= ee.subrange(16, 24));
    assert(ee.subrange(0, 8) =~= u64_le_bytes(KEY_LEN));
    assert(ee.subrange(8, 16) =~= u64_le_bytes(e.0));
    match e.1 {
        None => {
            assert(ee.subrange(16, 24) =~= u64_le_bytes(TOMBSTONE_MARKER));
        }
        Some(x) => {
            assert(ee.subrange(16, 24) =~= u64_le_bytes(VALUE_LEN));
            assert(enc.subrange(o + 24, o + 32) =~= ee.subrange(24, 32));
            assert(ee.subrange(24, 32) =~= u64_le_bytes(x));
        }
    }
}

/// An offset that reaches the data region's length marks the end of the
/// entries.
pub proof fn lemma_offset_at_end(es: Seq<Entry>, p: int)
    requires
        0 <= p <= es.len(),
        spec_offset(es, p) == spec_encode_entries(es).len(),
    ensures
        p == es.len(),
{
    if p < es.len() {
        lemma_offset_step(es, p);
        assert(false);
    }
}


/// Appending one pair extends the index region by its encoding.
pub proof fn lemma_encode_index_push(ix: Seq<(u64, u64)>, pr: (u64, u64))
    ensures
        spec_encode_index(ix.push(pr)) == spec_encode_index(ix) + u64_le_bytes(pr.0)
            + u64_le_bytes(pr.1),
{
    assert(ix.push(pr) =~= ix + seq![pr]);
    lemma_encode_index_concat(ix, seq![pr]);
    assert(seq![pr].skip(1) =~= Seq::<(u64, u64)>::empty());
    assert(spec_encode_index(seq![pr]) == u64_le_bytes(seq![pr][0].0) + u64_le_bytes(
        seq![pr][0].1,
    ) + spec_encode_index(seq![pr].skip(1)));
    assert(spec_encode_index(ix.push(pr)) =~= spec_encode_index(ix) + u64_le_bytes(pr.0)
        + u64_le_bytes(pr.1));
}

/// The two fields of index entry `j` as byte slices of the index region.
pub proof fn lemma_index_entry_at(ix: Seq<(u64, u64)>, j: int)
    requires
        0 <= j < ix.len(),
    ensures
        spec_encode_index(ix).len() == 16 * ix.len(),
        spec_encode_index(ix).subrange(16 * j, 16 * j + 8) == u64_le_bytes(ix[j].0),
        spec_encode_index(ix).subrange(16 * j + 8, 16 * j + 16) == u64_le_bytes(ix[j].1),
    decreases j,
{
    lemma_encode_index_len(ix);
    if j == 0 {
        assert(spec_encode_index(ix).subrange(0, 8) =~= u64_le_bytes(ix[0].0));
        assert(spec_encode_index(ix).subrange(8, 16) =~= u64_le_bytes(ix[0].1));
    } else {
        lemma_index_entry_at(ix.skip(1), j - 1);
        assert(ix.skip(1)[j - 1] == ix[j]);
        assert(spec_encode_index(ix).subrange(16 * j, 16 * j + 8) =~= spec_encode_index(
            ix.skip(1),
        ).subrange(16 * (j - 1), 16 * (j - 1) + 8));
        assert(spec_encode_index(ix).subrange(16 * j + 8, 16 * j + 16) =~= spec_encode_index(
            ix.skip(1),
        ).subrange(16 * (j - 1) + 8, 16 * (j - 1) + 16));
    }
}

/// The footer's five fields, read back from the byte image of a run.
pub proof fn lemma_footer_facts(bytes: Seq<u8>, es: Seq<Entry>)
    requires
        wf_entries(es),
        bytes == spec_encode_run(es),
    ensures
        bytes.len() == spec_encode_entries(es).len() + 16 * spec_index_of(es).len() + 40,
        u64_from_le(bytes.subrange(bytes.len() - 40, bytes.len() - 32))
            == spec_encode_entries(es).len() as u64,
        u64_from_le(bytes.subrange(bytes.len() - 32, bytes.len() - 24)) == spec_index_of(
            es,
        ).len() as u64,
        u64_from_le(bytes.subrange(bytes.len() - 24, bytes.len() - 16)) == es.len() as u64,
        u64_from_le(bytes.subrange(bytes.len() - 16, bytes.len() - 8)) == es[0].0,
        u64_from_le(bytes.subrange(bytes.len() - 8, bytes.len() as int)) == es[
            es.len() - 1
        ].0,
        bytes.subrange(0, spec_encode_entries(es).len() as int) == spec_encode_entries(es),
        bytes.subrange(
            spec_encode_entries(es).len() as int,
            spec_encode_entries(es).len() as int + 16 * spec_index_of(es).len() as int,
        ) == spec_encode_index(spec_index_of(es)),
{
    lemma_encode_index_len(spec_index_of(es));
    let dl = spec_encode_entries(es).len() as int;
    let il = 16 * spec_index_of(es).len() as int;
    let n = bytes.len() as int;
    assert(n == dl + il + 40);
    assert(bytes.subrange(n - 40, n - 32) =~= u64_le_bytes(
        spec_encode_entries(es).len() as u64,
    ));
    assert(bytes.subrange(n - 32, n - 24) =~= u64_le_bytes(spec_index_of(es).len() as u64));
    assert(bytes.subrange(n - 24, n - 16) =~= u64_le_bytes(es.len() as u64));
    assert(bytes.subrange(n - 16, n - 8) =~= u64_le_bytes(es[0].0));
    assert(bytes.subrange(n - 8, n) =~= u64_le_bytes(es[es.len() - 1].0));
    lemma_u64_le_round_trip(spec_encode_entries(es).len() as u64);
    lemma_u64_le_round_trip(spec_index_of(es).len() as u64);
    lemma_u64_le_round_trip(es.len() as u64);
    lemma_u64_le_round_trip(es[0].0);
    lemma_u64_le_round_trip(es[es.len() - 1].0);
    assert(bytes.subrange(0, dl) =~= spec_encode_entries(es));
    assert(bytes.subrange(dl, dl + il) =~= spec_encode_index(spec_index_of(es)));
}


/// `b` is exactly the byte image of a well-formed run holding `es`.
pub open spec fn is_run_encoding(b: Seq<u8>, es: Seq<Entry>) -> bool {
    &&& wf_entries(es)
    &&& b == spec_encode_run(es)
}

/// There are at most as many tombstones as entries.
pub proof fn lemma_tombstones_le_len(es: Seq<Entry>)
    ensures
        spec_tombstones(es) <= es.len(),
    decreases es.len(),
{
    if es.len() > 0 {
        lemma_tombstones_le_len(es.skip(1));
    }
}

/// Every entry offset lies within the data region.
pub proof fn lemma_offset_le_total(es: Seq<Entry>, p: int)
    requires
        0 <= p <= es.len(),
    ensures
        spec_offset(es, p) <= spec_encode_entries(es).len(),
    decreases es.len(),
{
    assert(es.take(p) + es.skip(p) =~= es);
    lemma_encode_entries_concat(es.take(p), es.skip(p));
}

/// Appending an entry with a greater key keeps the keys strictly sorted.
pub proof fn lemma_sorted_push(a: Seq<Entry>, e: Entry)
    requires
        sorted_entries(a),
        a.len() > 0 ==> a[a.len() - 1].0 < e.0,
    ensures
        sorted_entries(a.push(e)),
{
    assert forall|m: int, m2: int|
        0 <= m < m2 < a.push(e).len() implies a.push(e)[m].0 < a.push(e)[m2].0 by {
        if m2 < a.len() {
            assert(a.push(e)[m] == a[m]);
            assert(a.push(e)[m2] == a[m2]);
        } else {
            assert(a.push(e)[m] == a[m]);
            if m < a.len() - 1 {
                assert(a[m].0 < a[a.len() - 1].0);
            }
        }
    }
}

/// The decoded fields of entry `p`, read at its offset in the byte image of
/// a run.
pub proof fn lemma_open_entry_fields(bytes: Seq<u8>, es: Seq<Entry>, p: int, off: int)
    requires
        is_run_encoding(bytes, es),
        0 <= p < es.len(),
        off == spec_offset(es, p),
    ensures
        off + spec_entry_len(es[p]) <= spec_encode_entries(es).len(),
        u64_from_le(bytes.subrange(off, off + 8)) == KEY_LEN,
        u64_from_le(bytes.subrange(off + 8, off + 16)) == es[p].0,
        es[p].1 is None ==> u64_from_le(bytes.subrange(off + 16, off + 24))
            == TOMBSTONE_MARKER,
        es[p].1 is Some ==> u64_from_le(bytes.subrange(off + 16, off + 24)) == VALUE_LEN
            && u64_from_le(bytes.subrange(off + 24, off + 32)) == es[p].1->0,
{
    lemma_footer_facts(bytes, es);
    lemma_entry_fields(es, p);
    let enc = spec_encode_entries(es);
    assert(bytes.subrange(off, off + 8) =~= enc.subrange(off, off + 8));
    assert(bytes.subrange(off + 8, off + 16) =~= enc.subrange(off + 8, off + 16));
    assert(bytes.subrange(off + 16, off + 24) =~= enc.subrange(off + 16, off + 24));
    lemma_u64_le_round_trip(KEY_LEN);
    lemma_u64_le_round_trip(es[p].0);
    lemma_u64_le_round_trip(TOMBSTONE_MARKER);
    lemma_u64_le_round_trip(VALUE_LEN);
    if es[p].1 is Some {
        assert(bytes.subrange(off + 24, off + 32) =~= enc.subrange(off + 24, off + 32));
        lemma_u64_le_round_trip(es[p].1->0);
    }
}

/// An index region parsed back from a run's byte image matches the sparse
/// index of the run's entries.
pub proof fn lemma_parsed_index_matches(bytes: Seq<u8>, es: Seq<Entry>, ix: Seq<(u64, u64)>)
    requires
        is_run_encoding(bytes, es),
        ix.len() == spec_index_of(es).len(),
        spec_encode_index(ix) == bytes.subrange(
            spec_encode_entries(es).len() as int,
            spec_encode_entries(es).len() as int + 16 * ix.len() as int,
        ),
    ensures
        ix == spec_index_of(es),
{
    let dl = spec_encode_entries(es).len() as int;
    lemma_footer_facts(bytes, es);
    assert forall|jj: int| 0 <= jj < ix.len() implies ix[jj] == spec_index_of(es)[jj] by {
        lemma_index_entry_at(spec_index_of(es), jj);
        lemma_index_entry_at(ix, jj);
        assert(spec_encode_index(ix).subrange(16 * jj, 16 * jj + 8) =~= spec_encode_index(
            spec_index_of(es),
        ).subrange(16 * jj, 16 * jj + 8));
        assert(spec_encode_index(ix).subrange(16 * jj + 8, 16 * jj + 16)
            =~= spec_encode_index(spec_index_of(es)).subrange(16 * jj + 8, 16 * jj + 16));
        lemma_u64_le_round_trip(ix[jj].0);
        lemma_u64_le_round_trip(ix[jj].1);
        lemma_u64_le_round_trip(spec_index_of(es)[jj].0);
        lemma_u64_le_round_trip(spec_index_of(es)[jj].1);
        assert(u64_from_le(u64_le_bytes(ix[jj].0)) == u64_from_le(
            u64_le_bytes(spec_index_of(es)[jj].0),
        ));
        assert(u64_from_le(u64_le_bytes(ix[jj].1)) == u64_from_le(
            u64_le_bytes(spec_index_of(es)[jj].1),
        ));
    }
    assert(ix =~= spec_index_of(es));
}

/// A byte image whose regions decode consistently is exactly the encoding
/// of the decoded entries.
pub proof fn lemma_open_assemble(
    bytes: Seq<u8>,
    es: Seq<Entry>,
    ix: Seq<(u64, u64)>,
    data_len: int,
    icount: int,
    min_f: u64,
    max_f: u64,
)
    requires
        wf_entries(es),
        data_len >= 0,
        bytes.len() == data_len + 16 * icount + 40,
        ix.len() == icount,
        8 * icount >= es.len(),
        8 * icount <= es.len() + 7,
        spec_encode_entries(es) == bytes.subrange(0, data_len),
        spec_encode_index(ix) == bytes.subrange(data_len, data_len + 16 * icount),
        forall|jj: int|
            0 <= jj < ix.len() && #[trigger] (jj * 8) < es.len() ==> ix[jj] == (
                es[jj * 8].0,
                spec_encode_entries(es.take(jj * 8)).len() as u64,
            ),
        u64_from_le(bytes.subrange(bytes.len() - 40, bytes.len() - 32)) == data_len as u64,
        u64_from_le(bytes.subrange(bytes.len() - 32, bytes.len() - 24)) == icount as u64,
        u64_from_le(bytes.subrange(bytes.len() - 24, bytes.len() - 16)) == es.len() as u64,
        u64_from_le(bytes.subrange(bytes.len() - 16, bytes.len() - 8)) == min_f,
        u64_from_le(bytes.subrange(bytes.len() - 8, bytes.len() as int)) == max_f,
        min_f == es[0].0,
        max_f == es[es.len() - 1].0,
    ensures
        ix == spec_index_of(es),
        bytes == spec_encode_run(es),
{
    let n = bytes.len() as int;
    vstd::arithmetic::div_mod::lemma_fundamental_div_mod(
        es.len() as int + 7,
        SPARSE_INDEX_INTERVAL as int,
    );
    vstd::arithmetic::div_mod::lemma_mod_bound(
        es.len() as int + 7,
        SPARSE_INDEX_INTERVAL as int,
    );
    assert(icount == spec_index_count(es.len()) as int);
    assert forall|jj: int| 0 <= jj < icount implies #[trigger] (jj * 8) < es.len() by {
        assert(8 * (jj + 1) <= 8 * icount);
    }
    assert(ix =~= spec_index_of(es));
    lemma_u64_le_bytes_of(bytes.subrange(n - 40, n - 32));
    lemma_u64_le_bytes_of(bytes.subrange(n - 32, n - 24));
    lemma_u64_le_bytes_of(bytes.subrange(n - 24, n - 16));
    lemma_u64_le_bytes_of(bytes.subrange(n - 16, n - 8));
    lemma_u64_le_bytes_of(bytes.subrange(n - 8, n));
    lemma_encode_index_len(ix);
    assert(bytes =~= spec_encode_entries(es) + spec_encode_index(spec_index_of(es))
        + spec_footer(
        spec_encode_entries(es).len() as u64,
        spec_index_of(es).len() as u64,
        es.len() as u64,
        es[0].0,
        es[es.len() - 1].0,
    ));
}

/// One decoded entry extends the validated prefix: order, tombstone count,
/// re-encoding, and the sparse-index correspondence all carry over.
pub proof fn lemma_open_push_step(
    bytes: Seq<u8>,
    acc0: Seq<Entry>,
    ix: Seq<(u64, u64)>,
    e: Entry,
    off0: int,
    p: int,
)
    requires
        acc0.len() == p,
        p >= 0,
        0 <= off0,
        sorted_entries(acc0),
        p > 0 ==> acc0[p - 1].0 < e.0,
        spec_encode_entries(acc0) == bytes.subrange(0, off0),
        off0 + spec_entry_len(e) <= bytes.len(),
        u64_from_le(bytes.subrange(off0, off0 + 8)) == KEY_LEN,
        u64_from_le(bytes.subrange(off0 + 8, off0 + 16)) == e.0,
        e.1 is None ==> u64_from_le(bytes.subrange(off0 + 16, off0 + 24))
            == TOMBSTONE_MARKER,
        e.1 is Some ==> u64_from_le(bytes.subrange(off0 + 16, off0 + 24)) == VALUE_LEN
            && u64_from_le(bytes.subrange(off0 + 24, off0 + 32)) == e.1->0,
        forall|jj: int|
            0 <= jj < ix.len() && #[trigger] (jj * 8) < p ==> ix[jj] == (
                acc0[jj * 8].0,
                spec_encode_entries(acc0.take(jj * 8)).len() as u64,
            ),
        p % 8 == 0 ==> (p / 8 < ix.len() && ix[p / 8] == (e.0, off0 as u64)),
    ensures
        sorted_entries(acc0.push(e)),
        spec_tombstones(acc0.push(e)) == spec_tombstones(acc0) + (if e.1 is None {
            1nat
        } else {
            0nat
        }),
        spec_encode_entries(acc0.push(e)) == bytes.subrange(0, off0 + spec_entry_len(e)),
        forall|jj: int|
            0 <= jj < ix.len() && #[trigger] (jj * 8) < p + 1 ==> ix[jj] == (
                acc0.push(e)[jj * 8].0,
                spec_encode_entries(acc0.push(e).take(jj * 8)).len() as u64,
            ),
{
    lemma_sorted_push(acc0, e);
    lemma_tombstones_push(acc0, e);
    lemma_encode_entries_push(acc0, e);
    lemma_u64_le_bytes_of(bytes.subrange(off0, off0 + 8));
    lemma_u64_le_bytes_of(bytes.subrange(off0 + 8, off0 + 16));
    lemma_u64_le_bytes_of(bytes.subrange(off0 + 16, off0 + 24));
    if e.1 is Some {
        lemma_u64_le_bytes_of(bytes.subrange(off0 + 24, off0 + 32));
    }
    assert(spec_encode_entries(acc0.push(e)) =~= bytes.subrange(
        0,
        off0 + spec_entry_len(e) as int,
    ));
    let acc1 = acc0.push(e);
    assert forall|jj: int| 0 <= jj < ix.len() && #[trigger] (jj * 8) < p + 1 implies ix[jj]
        == (acc1[jj * 8].0, spec_encode_entries(acc1.take(jj * 8)).len() as u64) by {
        assert(acc1.take(jj * 8) =~= acc0.take(jj * 8));
        if jj * 8 < p {
            assert(acc1[jj * 8] == acc0[jj * 8]);
        } else {
            assert(jj * 8 == p);
            vstd::arithmetic::div_mod::lemma_fundamental_div_mod(p, 8);
            assert(jj == p / 8);
            assert(acc0.take(p) =~= acc0);
        }
    }
}

/// Sequential writer that accepts entries in strictly increasing key order
/// and produces one run.
pub struct SSTableBuilder {
    data: Vec<u8>,
    index: Vec<(u64, u64)>,
    count: usize,
    min_key: u64,
    max_key: u64,
    tombstones: usize,
    entries: Ghost<Seq<Entry>>,
}

/// Strictly increasing keys (an empty sequence counts).
pub open spec fn sorted_entries(es: Seq<Entry>) -> bool {
    forall|i: int, j: int| 0 <= i < j < es.len() ==> es[i].0 < es[j].0
}

impl View for SSTableBuilder {
    type V = Seq<Entry>;

    closed spec fn view(&self) -> Seq<Entry> {
        self.entries@
    }
}

impl SSTableBuilder {
    /// The builder's byte regions agree with the entries taken so far.
    pub closed spec fn rep_inv(self) -> bool {
        &&& self.count == self.entries@.len()
        &&& self.data@ == spec_encode_entries(self.entries@)
        &&& self.index@ == spec_index_of(self.entries@)
        &&& self.tombstones == spec_tombstones(self.entries@)
        &&& (self.count > 0 ==> self.min_key == self.entries@[0].0)
        &&& (self.count > 0 ==> self.max_key == self.entries@[self.entries@.len() - 1].0)
    }

    /// Well-formedness: sorted input so far, consistent representation.
    pub open spec fn wf(self) -> bool {
        &&& sorted_entries(self@)
        &&& self.rep_inv()
    }

    /// Starts a builder holding no entries.
    pub fn new() -> (r: Self)
        ensures
            r.wf(),
            r@ == Seq::<Entry>::empty(),
    {
        let r = SSTableBuilder {
            data: Vec::new(),
            index: Vec::new(),
            count: 0,
            min_key: 0,
            max_key: 0,
            tombstones: 0,
            entries: Ghost(Seq::empty()),
        };
        proof {
            assert(r.entries@.take(0) =~= Seq::<Entry>::empty());
            assert(r.index@ =~= spec_index_of(r.entries@));
        }
        r
    }

    /// Appends one entry; the key must be strictly greater than every key
    /// already taken.
    pub fn add(&mut self, key: u64, value: Option<u64>)
        requires
            old(self).wf(),
            forall|m: int| 0 <= m < old(self)@.len() ==> (#[trigger] old(self)@[m].0) < key,
        ensures
            final(self).wf(),
            final(self)@ == old(self)@.push((key, value)),
    {
        let dl = self.data.len();
        proof {
            lemma_encode_entries_len_lower(self.entries@);
            lemma_tombstones_le_len(self.entries@);
            assert(self.data@.len() == dl);
            assert(24 * self.count <= dl);
            assert(self.count < usize::MAX);
            assert(self.tombstones < usize::MAX);
        }
        let ghost es_old = self.entries@;
        let ghost e = (key, value);
        if self.count % SPARSE_INDEX_INTERVAL == 0 {
            self.index.push((key, self.data.len() as u64));
        }
        let mut part = encode_u64(KEY_LEN);
        self.data.append(&mut part);
        let mut part2 = encode_u64(key);
        self.data.append(&mut part2);
        match value {
            Some(v) => {
                let mut p3 = encode_u64(VALUE_LEN);
                self.data.append(&mut p3);
                let mut p4 = encode_u64(v);
                self.data.append(&mut p4);
            }
            None => {
                let mut p3 = encode_u64(TOMBSTONE_MARKER);
                self.data.append(&mut p3);
                self.tombstones += 1;
            }
        }
        if self.count == 0 {
            self.min_key = key;
        }
        self.max_key = key;
        self.count += 1;
        self.entries = Ghost(es_old.push(e));
        proof {
            lemma_encode_entries_push(es_old, e);
            lemma_index_of_push(es_old, e);
            lemma_tombstones_push(es_old, e);
            assert(self.data@ =~= spec_encode_entries(self.entries@));
        }
    }

    /// Number of entries taken so far.
    pub fn count(&self) -> (r: usize)
        requires
            self.wf(),
        ensures
            r == self@.len(),
    {
        self.count
    }

    /// Writes the sparse index and footer after the data region and returns
    /// the finished run.
    pub fn finish(self) -> (r: SSTable)
        requires
            self.wf(),
            self@.len() > 0,
        ensures
            r.wf(),
            r@ == self@,
    {
        let ghost es = self.entries@;
        let SSTableBuilder { mut data, index, count, min_key, max_key, tombstones, entries } = self;
        let data_len = data.len();
        let ghost ix = spec_index_of(es);
        let mut j: usize = 0;
        while j < index.len()
            invariant
                j <= index@.len(),
                index@ == ix,
                data@ == spec_encode_entries(es) + spec_encode_index(ix.take(j as int)),
            decreases index@.len() - j,
        {
            let mut pk = encode_u64(index[j].0);
            data.append(&mut pk);
            let mut po = encode_u64(index[j].1);
            data.append(&mut po);
            proof {
                assert(ix.take(j as int + 1) =~= ix.take(j as int) + seq![ix[j as int]]);
                lemma_encode_index_concat(ix.take(j as int), seq![ix[j as int]]);
                assert(seq![ix[j as int]].skip(1) =~= Seq::<(u64, u64)>::empty());
                assert(spec_encode_index(seq![ix[j as int]])
                    == u64_le_bytes(ix[j as int].0) + u64_le_bytes(ix[j as int].1)
                    + spec_encode_index(Seq::<(u64, u64)>::empty()));
                assert(data@ =~= spec_encode_entries(es) + spec_encode_index(
                    ix.take(j as int + 1),
                ));
            }
            j += 1;
        }
        proof {
            assert(ix.take(ix.len() as int) =~= ix);
        }
        let mut f1 = encode_u64(data_len as u64);
        data.append(&mut f1);
        let mut f2 = encode_u64(index.len() as u64);
        data.append(&mut f2);
        let mut f3 = encode_u64(count as u64);
        data.append(&mut f3);
        let mut f4 = encode_u64(min_key);
        data.append(&mut f4);
        let mut f5 = encode_u64(max_key);
        data.append(&mut f5);
        let r = SSTable {
            bytes: data,
            index,
            entry_count: count,
            data_len,
            min_key,
            max_key,
            tombstones,
            entries,
        };
        proof {
            assert(r.bytes@ =~= spec_encode_run(es));
        }
        r
    }
}

/// An immutable sorted run: the full byte image plus the eagerly parsed
/// sparse index and footer fields.
pub struct SSTable {
    bytes: Vec<u8>,
    index: Vec<(u64, u64)>,
    entry_count: usize,
    data_len: usize,
    min_key: u64,
    max_key: u64,
    tombstones: usize,
    entries: Ghost<Seq<Entry>>,
}

impl View for SSTable {
    type V = Seq<Entry>;

    closed spec fn view(&self) -> Seq<Entry> {
        self.entries@
    }
}

impl SSTable {
    /// The byte image of the run.
    pub closed spec fn byte_view(self) -> Seq<u8> {
        self.bytes@
    }

    /// The parsed fields agree with the byte image, which is exactly the
    /// encoding of the run's entries.
    pub closed spec fn rep_inv(self) -> bool {
        &&& self.bytes@ == spec_encode_run(self.entries@)
        &&& self.index@ == spec_index_of(self.entries@)
        &&& self.entry_count == self.entries@.len()
        &&& self.data_len == spec_encode_entries(self.entries@).len()
        &&& self.min_key == self.entries@[0].0
        &&& self.max_key == self.entries@[self.entries@.len() - 1].0
        &&& self.tombstones == spec_tombstones(self.entries@)
    }

    /// Well-formedness: at least one entry, strictly sorted, consistent
    /// representation.
    pub open spec fn wf(self) -> bool {
        &&& wf_entries(self@)
        &&& self.rep_inv()
    }

    /// A well-formed run's byte image is the encoding of its entries.
    pub proof fn lemma_bytes_encode(self)
        requires
            self.wf(),
        ensures
            self.byte_view() == spec_encode_run(self@),
    {
    }


    /// Opens a run from its byte image: parses the footer and sparse index
    /// eagerly, then decodes and validates every entry. Exactly the byte
    /// images produced by a builder are accepted; a malformed entry is a
    /// `SerializationError`, any other deviation a `CorruptionError`.
    #[verifier::rlimit(100)]
    pub fn open(bytes: Vec<u8>) -> (r: Result<SSTable, Error>)
        ensures
            match r {
                Ok(t) => t.wf() && t.byte_view() == bytes@,
                Err(e) => e == Error::CorruptionError || e == Error::SerializationError,
            },
            forall|es: Seq<Entry>| #[trigger] is_run_encoding(bytes@, es) ==> (r matches Ok(t)
                && t@ == es),
    {
        let n = bytes.len();
        if n < FOOTER_LEN {
            proof {
                assert forall|es: Seq<Entry>| !is_run_encoding(bytes@, es) by {
                    if is_run_encoding(bytes@, es) {
                        lemma_footer_facts(bytes@, es);
                    }
                }
            }
            return Err(Error::CorruptionError);
        }
        let data_len_f = decode_u64(&bytes, n - 40);
        let icount_f = decode_u64(&bytes, n - 32);
        let ecount_f = decode_u64(&bytes, n - 24);
        let min_f = decode_u64(&bytes, n - 16);
        let max_f = decode_u64(&bytes, n - 8);
        proof {
            assert forall|es: Seq<Entry>| #[trigger] is_run_encoding(bytes@, es) implies {
                &&& data_len_f == spec_encode_entries(es).len()
                &&& icount_f == spec_index_of(es).len()
                &&& ecount_f == es.len()
                &&& min_f == es[0].0
                &&& max_f == es[es.len() - 1].0
            } by {
                lemma_footer_facts(bytes@, es);
            }
        }
        if (data_len_f as u128) + 16 * (icount_f as u128) + 40 != n as u128 {
            proof {
                assert forall|es: Seq<Entry>| !is_run_encoding(bytes@, es) by {
                    if is_run_encoding(bytes@, es) {
                        lemma_footer_facts(bytes@, es);
                    }
                }
            }
            return Err(Error::CorruptionError);
        }
        if ecount_f == 0 {
            proof {
                assert forall|es: Seq<Entry>| !is_run_encoding(bytes@, es) by {}
            }
            return Err(Error::CorruptionError);
        }
        if (ecount_f as u128) * 24 > data_len_f as u128 {
            proof {
                assert forall|es: Seq<Entry>| !is_run_encoding(bytes@, es) by {
                    if is_run_encoding(bytes@, es) {
                        lemma_encode_entries_len_lower(es);
                    }
                }
            }
            return Err(Error::CorruptionError);
        }
        if (icount_f as u128) * 8 < ecount_f as u128 || (icount_f as u128) * 8 > (ecount_f
            as u128) + 7 {
            proof {
                assert forall|es: Seq<Entry>| !is_run_encoding(bytes@, es) by {
                    if is_run_encoding(bytes@, es) {
                        vstd::arithmetic::div_mod::lemma_fundamental_div_mod(
                            es.len() as int + 7,
                            8,
                        );
                        vstd::arithmetic::div_mod::lemma_mod_bound(es.len() as int + 7, 8);
                    }
                }
            }
            return Err(Error::CorruptionError);
        }
        let data_len = data_len_f as usize;
        let icount = icount_f as usize;
        let ecount = ecount_f as usize;
        let mut index: Vec<(u64, u64)> = Vec::new();
        let mut j: usize = 0;
        while j < icount
            invariant
                j <= icount,
                n == bytes@.len(),
                data_len + 16 * icount + 40 == n,
                index@.len() == j,
                spec_encode_index(index@) == bytes@.subrange(
                    data_len as int,
                    data_len as int + 16 * j as int,
                ),
            decreases icount - j,
        {
            proof {
                assert(16 * (j as int) + 16 <= 16 * (icount as int));
            }
            let k = decode_u64(&bytes, data_len + 16 * j);
            let o = decode_u64(&bytes, data_len + 16 * j + 8);
            let ghost ix0 = index@;
            index.push((k, o));
            proof {
                lemma_encode_index_push(ix0, (k, o));
                lemma_u64_le_bytes_of(
                    bytes@.subrange(
                        data_len as int + 16 * j as int,
                        data_len as int + 16 * j as int + 8,
                    ),
                );
                lemma_u64_le_bytes_of(
                    bytes@.subrange(
                        data_len as int + 16 * j as int + 8,
                        data_len as int + 16 * j as int + 16,
                    ),
                );
                assert(spec_encode_index(index@) =~= bytes@.subrange(
                    data_len as int,
                    data_len as int + 16 * (j as int + 1),
                ));
            }
            j += 1;
        }
        proof {
            assert forall|es: Seq<Entry>| #[trigger] is_run_encoding(bytes@, es)
                implies index@ == spec_index_of(es) by {
                lemma_parsed_index_matches(bytes@, es, index@);
            }
        }
        let mut acc: Vec<Entry> = Vec::new();
        let mut tomb: usize = 0;
        let mut off: usize = 0;
        let mut p: usize = 0;
        let mut last_k: u64 = 0;
        while p < ecount
            invariant
                p <= ecount,
                off <= data_len,
                n == bytes@.len(),
                data_len + 16 * icount + 40 == n,
                icount == index@.len(),
                8 * (icount as int) >= ecount as int,
                ecount >= 1,
                acc@.len() == p,
                sorted_entries(acc@),
                tomb == spec_tombstones(acc@),
                tomb <= p,
                spec_encode_entries(acc@) == bytes@.subrange(0, off as int),
                p > 0 ==> acc@[p - 1].0 == last_k,
                forall|jj: int|
                    0 <= jj < index@.len() && #[trigger] (jj * 8) < p ==> index@[jj] == (
                        acc@[jj * 8].0,
                        spec_encode_entries(acc@.take(jj * 8)).len() as u64,
                    ),
                forall|es: Seq<Entry>| #[trigger] is_run_encoding(bytes@, es) ==> (ecount
                    == es.len() && acc@ == es.take(p as int) && index@ == spec_index_of(es)
                    && data_len == spec_encode_entries(es).len()),
            decreases ecount - p,
        {
            proof {
                assert forall|es: Seq<Entry>| #[trigger] is_run_encoding(bytes@, es)
                    implies {
                    &&& off == spec_offset(es, p as int)
                    &&& off + spec_entry_len(es[p as int]) <= data_len
                    &&& u64_from_le(bytes@.subrange(off as int, off as int + 8)) == KEY_LEN
                    &&& u64_from_le(bytes@.subrange(off as int + 8, off as int + 16))
                        == es[p as int].0
                    &&& (es[p as int].1 is None ==> u64_from_le(
                        bytes@.subrange(off as int + 16, off as int + 24),
                    ) == TOMBSTONE_MARKER)
                    &&& (es[p as int].1 is Some ==> u64_from_le(
                        bytes@.subrange(off as int + 16, off as int + 24),
                    ) == VALUE_LEN && u64_from_le(
                        bytes@.subrange(off as int + 24, off as int + 32),
                    ) == es[p as int].1->0)
                } by {
                    assert(spec_encode_entries(acc@) == spec_encode_entries(
                        es.take(p as int),
                    ));
                    lemma_open_entry_fields(bytes@, es, p as int, off as int);
                }
            }
            if off + 24 > data_len {
                proof {
                    assert forall|es: Seq<Entry>| !is_run_encoding(bytes@, es) by {}
                }
                return Err(Error::CorruptionError);
            }
            let klen = decode_u64(&bytes, off);
            if klen != KEY_LEN {
                proof {
                    assert forall|es: Seq<Entry>| !is_run_encoding(bytes@, es) by {}
                }
                return Err(Error::SerializationError);
            }
            let k = decode_u64(&bytes, off + 8);
            if p > 0 && k <= last_k {
                proof {
                    assert forall|es: Seq<Entry>| !is_run_encoding(bytes@, es) by {
                        if is_run_encoding(bytes@, es) {
                            assert(es[p as int - 1].0 < es[p as int].0);
                            assert(acc@[p - 1] == es.take(p as int)[p - 1]);
                        }
                    }
                }
                return Err(Error::CorruptionError);
            }
            let marker = decode_u64(&bytes, off + 16);
            let e: Entry;
            let adv: usize;
            if marker == VALUE_LEN {
                if off + 32 > data_len {
                    proof {
                        assert forall|es: Seq<Entry>| !is_run_encoding(bytes@, es) by {}
                    }
                    return Err(Error::CorruptionError);
                }
                let v = decode_u64(&bytes, off + 24);
                e = (k, Some(v));
                adv = 32;
            } else if marker == TOMBSTONE_MARKER {
                e = (k, None);
                adv = 24;
                tomb += 1;
            } else {
                proof {
                    assert forall|es: Seq<Entry>| !is_run_encoding(bytes@, es) by {}
                }
                return Err(Error::SerializationError);
            }
            proof {
                assert forall|es: Seq<Entry>| #[trigger] is_run_encoding(bytes@, es)
                    implies e == es[p as int] by {}
            }
            if p % SPARSE_INDEX_INTERVAL == 0 {
                let jj = p / SPARSE_INDEX_INTERVAL;
                proof {
                    vstd::arithmetic::div_mod::lemma_fundamental_div_mod(
                        p as int,
                        SPARSE_INDEX_INTERVAL as int,
                    );
                    assert(8 * (jj as int) == p as int);
                    assert((jj as int) < icount as int) by {
                        assert(8 * (jj as int) < 8 * (icount as int));
                    }
                }
                if index[jj].0 != k || index[jj].1 != off as u64 {
                    proof {
                        assert forall|es: Seq<Entry>| !is_run_encoding(bytes@, es) by {
                            if is_run_encoding(bytes@, es) {
                                assert(index@[jj as int] == spec_index_of(es)[jj as int]);
                                assert(spec_index_of(es)[jj as int] == (
                                    es[jj as int * 8].0,
                                    spec_offset(es, jj as int * 8) as u64,
                                ));
                            }
                        }
                    }
                    return Err(Error::CorruptionError);
                }
            }
            let ghost acc0 = acc@;
            let ghost off0 = off;
            proof {
                if p % SPARSE_INDEX_INTERVAL == 0 {
                    vstd::arithmetic::div_mod::lemma_fundamental_div_mod(p as int, 8);
                }
                lemma_open_push_step(bytes@, acc0, index@, e, off0 as int, p as int);
            }
            acc.push(e);
            off += adv;
            last_k = k;
            proof {
                assert forall|es: Seq<Entry>| #[trigger] is_run_encoding(bytes@, es)
                    implies acc@ == es.take(p as int + 1) by {
                    assert(acc0 == es.take(p as int));
                    assert(acc@ =~= es.take(p as int + 1));
                }
            }
            p += 1;
        }
        if off != data_len {
            proof {
                assert forall|es: Seq<Entry>| !is_run_encoding(bytes@, es) by {
                    if is_run_encoding(bytes@, es) {
                        lemma_footer_facts(bytes@, es);
                        assert(acc@ == es.take(es.len() as int));
                        assert(es.take(es.len() as int) =~= es);
                    }
                }
            }
            return Err(Error::CorruptionError);
        }
        if min_f != acc[0].0 || max_f != acc[acc.len() - 1].0 {
            proof {
                assert forall|es: Seq<Entry>| !is_run_encoding(bytes@, es) by {
                    if is_run_encoding(bytes@, es) {
                        assert(acc@ == es.take(es.len() as int));
                        assert(es.take(es.len() as int) =~= es);
                    }
                }
            }
            return Err(Error::CorruptionError);
        }
        let ghost es_out = acc@;
        proof {
            lemma_open_assemble(
                bytes@,
                es_out,
                index@,
                data_len as int,
                icount as int,
                min_f,
                max_f,
            );
        }
        let t = SSTable {
            bytes,
            index,
            entry_count: ecount,
            data_len,
            min_key: min_f,
            max_key: max_f,
            tombstones: tomb,
            entries: Ghost(es_out),
        };
        proof {
            assert forall|es: Seq<Entry>| #[trigger] is_run_encoding(bytes@, es) implies t@
                == es by {
                assert(es_out == es.take(es.len() as int));
                assert(es.take(es.len() as int) =~= es);
            }
        }
        Ok(t)
    }

    /// Builds a run from an already sorted, nonempty entry sequence.
    pub fn from_sorted(entries: &Vec<Entry>) -> (t: SSTable)
        requires
            sorted_entries(entries@),
            entries@.len() > 0,
        ensures
            t.wf(),
            t@ == entries@,
    {
        let ghost es = entries@;
        let mut b = SSTableBuilder::new();
        let mut i: usize = 0;
        while i < entries.len()
            invariant
                i <= entries@.len(),
                entries@ == es,
                sorted_entries(es),
                b.wf(),
                b@ == es.take(i as int),
            decreases entries@.len() - i,
        {
            proof {
                assert forall|m: int| 0 <= m < b@.len() implies (#[trigger] b@[m].0)
                    < entries@[i as int].0 by {
                    assert(b@[m] == es[m]);
                }
            }
            b.add(entries[i].0, entries[i].1);
            proof {
                assert(b@ =~= es.take(i as int + 1));
            }
            i += 1;
        }
        proof {
            assert(b@ =~= es);
        }
        b.finish()
    }

    /// Number of entries.
    pub fn entry_count(&self) -> (r: usize)
        requires
            self.wf(),
        ensures
            r == self@.len(),
    {
        self.entry_count
    }

    /// The smallest key.
    pub fn min_key(&self) -> (r: u64)
        requires
            self.wf(),
        ensures
            r == self@[0].0,
    {
        self.min_key
    }

    /// The greatest key.
    pub fn max_key(&self) -> (r: u64)
        requires
            self.wf(),
        ensures
            r == self@[self@.len() - 1].0,
    {
        self.max_key
    }

    /// Size of the run in bytes.
    pub fn size_bytes(&self) -> (r: usize)
        requires
            self.wf(),
        ensures
            r == self.byte_view().len(),
    {
        self.bytes.len()
    }

    /// Number of tombstone entries.
    pub fn tombstone_count(&self) -> (r: usize)
        requires
            self.wf(),
        ensures
            r == spec_tombstones(self@),
    {
        self.tombstones
    }

    /// A copy of the byte image, for persisting the run.
    pub fn to_bytes(&self) -> (r: Vec<u8>)
        requires
            self.wf(),
        ensures
            r@ == self.byte_view(),
    {
        let mut out: Vec<u8> = Vec::new();
        let mut i: usize = 0;
        while i < self.bytes.len()
            invariant
                i <= self.bytes@.len(),
                out@ == self.bytes@.take(i as int),
            decreases self.bytes@.len() - i,
        {
            out.push(self.bytes[i]);
            proof {
                assert(out@ =~= self.bytes@.take(i as int + 1));
            }
            i += 1;
        }
        proof {
            assert(out@ =~= self.bytes@);
        }
        out
    }

    /// The data region's bytes agree with the entry encoding on every index
    /// below the data region's length.
    proof fn lemma_data_prefix(self, a: int, b: int)
        requires
            self.wf(),
            0 <= a <= b <= spec_encode_entries(self@).len(),
        ensures
            self.bytes@.len() == spec_encode_entries(self@).len() + 16 * spec_index_of(
                self@,
            ).len() + 40,
            self.bytes@.subrange(a, b) == spec_encode_entries(self@).subrange(a, b),
    {
        lemma_encode_index_len(spec_index_of(self@));
        assert(self.bytes@.subrange(a, b) =~= spec_encode_entries(self@).subrange(a, b));
    }

    /// Reads the full sorted entry sequence back out of the byte image.
    #[verifier::rlimit(60)]
    pub fn read_entries(&self) -> (r: Vec<Entry>)
        requires
            self.wf(),
        ensures
            r@ == self@,
    {
        let ghost es = self@;
        let mut out: Vec<Entry> = Vec::new();
        let mut off: usize = 0;
        let mut p: usize = 0;
        proof {
            lemma_offset_bounds(es);
            lemma_encode_index_len(spec_index_of(es));
        }
        while p < self.entry_count
            invariant
                self.wf(),
                es == self@,
                p <= es.len(),
                self.entry_count == es.len(),
                off == spec_offset(es, p as int),
                out@ == es.take(p as int),
            decreases es.len() - p,
        {
            proof {
                lemma_entry_fields(es, p as int);
                self.lemma_data_prefix(off as int, spec_offset(es, p as int + 1) as int);
                assert(self.bytes@.subrange(off as int + 8, off as int + 16)
                    =~= spec_encode_entries(es).subrange(off as int + 8, off as int + 16));
                assert(spec_encode_entries(es).subrange(off as int + 8, off as int + 16)
                    =~= spec_encode_entries(es).subrange(
                    spec_offset(es, p as int) as int + 8,
                    spec_offset(es, p as int) as int + 16,
                ));
                lemma_u64_le_round_trip(es[p as int].0);
                lemma_u64_le_round_trip(KEY_LEN);
                lemma_u64_le_round_trip(VALUE_LEN);
                lemma_u64_le_round_trip(TOMBSTONE_MARKER);
            }
            let k = decode_u64(&self.bytes, off + 8);
            let marker = decode_u64(&self.bytes, off + 16);
            if marker == VALUE_LEN {
                proof {
                    if es[p as int].1 is None {
                        assert(marker == TOMBSTONE_MARKER);
                        assert(false);
                    }
                    lemma_u64_le_round_trip(es[p as int].1->0);
                }
                let v = decode_u64(&self.bytes, off + 24);
                out.push((k, Some(v)));
                off += 32;
            } else {
                proof {
                    if es[p as int].1 is Some {
                        assert(marker == VALUE_LEN);
                        assert(false);
                    }
                }
                out.push((k, None));
                off += 24;
            }
            proof {
                assert(out@ =~= es.take(p as int + 1));
            }
            p += 1;
        }
        proof {
            assert(out@ =~= es);
        }
        out
    }

    /// Point lookup: binary-search the sparse index for the block that may
    /// hold `key`, then scan that block's entries in order.
    #[verifier::rlimit(60)]
    pub fn get(&self, key: u64) -> (r: Option<Option<u64>>)
        requires
            self.wf(),
        ensures
            r == spec_lookup(self@, key),
    {
        let ghost es = self@;
        if key < self.min_key || key > self.max_key {
            proof {
                lemma_lookup_out_of_range(es, key);
            }
            return None;
        }
        proof {
            lemma_offset_bounds(es);
            lemma_encode_index_len(spec_index_of(es));
            assert(spec_index_count(es.len()) > 0) by {
                vstd::arithmetic::div_mod::lemma_fundamental_div_mod(
                    (es.len() + 7) as int,
                    SPARSE_INDEX_INTERVAL as int,
                );
                vstd::arithmetic::div_mod::lemma_mod_bound(
                    (es.len() + 7) as int,
                    SPARSE_INDEX_INTERVAL as int,
                );
            }
            assert(self.index@[0] == (es[0].0, spec_offset(es, 0) as u64));
        }
        let mut lo: usize = 0;
        let mut hi: usize = self.index.len();
        while hi - lo > 1
            invariant
                self.wf(),
                es == self@,
                0 <= lo < hi <= self.index@.len(),
                self.index@.len() == spec_index_count(es.len()),
                self.index@[lo as int].0 <= key,
                forall|m: int| hi <= m < self.index@.len() ==> (#[trigger] self.index@[m].0) > key,
            decreases hi - lo,
        {
            let mid = lo + (hi - lo) / 2;
            if self.index[mid].0 <= key {
                lo = mid;
            } else {
                hi = mid;
            }
        }
        let ghost wi = SPARSE_INDEX_INTERVAL as int;
        let ghost p0 = lo as int * wi;
        proof {
            // the chosen index slot points into the entries
            assert(self.index@[lo as int] == (es[p0].0, spec_offset(es, p0) as u64));
            assert(0 <= p0 < es.len()) by {
                vstd::arithmetic::div_mod::lemma_fundamental_div_mod((es.len() + 7) as int, wi);
                vstd::arithmetic::div_mod::lemma_mod_bound((es.len() + 7) as int, wi);
                assert(wi * spec_index_count(es.len()) <= es.len() + 7);
                vstd::arithmetic::mul::lemma_mul_inequality(
                    lo as int + 1,
                    spec_index_count(es.len()) as int,
                    wi,
                );
                assert(p0 + wi <= spec_index_count(es.len()) as int * wi) by (nonlinear_arith)
                    requires (lo as int + 1) * wi <= spec_index_count(es.len()) as int * wi,
                        p0 == lo as int * wi;
                assert(p0 >= 0) by (nonlinear_arith)
                    requires lo >= 0, wi > 0, p0 == lo as int * wi;
            }
            assert(spec_offset(es, p0) <= spec_encode_entries(es).len()) by {
                assert(es.take(p0) =~= es.take(p0));
                lemma_encode_entries_concat(es.take(p0), es.skip(p0));
                assert(es.take(p0) + es.skip(p0) =~= es);
            }
            assert(forall|m: int| 0 <= m < p0 ==> (#[trigger] es[m].0) < es[p0].0);
        }
        proof {
            lemma_offset_le_total(es, p0);
        }
        let mut off: usize = self.index[lo].1 as usize;
        let ghost p = p0;
        while off < self.data_len
            invariant
                self.wf(),
                es == self@,
                0 <= p <= es.len(),
                off == spec_offset(es, p),
                off <= self.data_len,
                key <= self.max_key,
                forall|m: int| 0 <= m < p ==> (#[trigger] es[m].0) < key,
            decreases self.data_len - off,
        {
            proof {
                if p == es.len() {
                    lemma_offset_bounds(es);
                    assert(false);
                }
                lemma_entry_fields(es, p);
                self.lemma_data_prefix(off as int, spec_offset(es, p + 1) as int);
                assert(self.bytes@.subrange(off as int + 8, off as int + 16)
                    =~= spec_encode_entries(es).subrange(off as int + 8, off as int + 16));
                lemma_u64_le_round_trip(es[p].0);
                lemma_u64_le_round_trip(VALUE_LEN);
                lemma_u64_le_round_trip(TOMBSTONE_MARKER);
            }
            let k = decode_u64(&self.bytes, off + 8);
            if k == key {
                let marker = decode_u64(&self.bytes, off + 16);
                proof {
                    lemma_lookup_found(es, p);
                }
                if marker == VALUE_LEN {
                    proof {
                        if es[p].1 is None {
                            assert(false);
                        }
                        lemma_u64_le_round_trip(es[p].1->0);
                    }
                    let v = decode_u64(&self.bytes, off + 24);
                    return Some(Some(v));
                } else {
                    proof {
                        if es[p].1 is Some {
                            assert(false);
                        }
                    }
                    return Some(None);
                }
            }
            if k > key {
                proof {
                    assert forall|m: int| 0 <= m < es.len() implies (#[trigger] es[m].0) != key by {
                        if m >= p {
                            if m > p {
                                assert(es[p].0 < es[m].0);
                            }
                        }
                    }
                    lemma_lookup_none(es, key);
                }
                return None;
            }
            let marker = decode_u64(&self.bytes, off + 16);
            if marker == VALUE_LEN {
                proof {
                    if es[p].1 is None {
                        assert(false);
                    }
                }
                off += 32;
            } else {
                proof {
                    if es[p].1 is Some {
                        assert(false);
                    }
                }
                off += 24;
            }
            proof {
                p = p + 1;
            }
        }
        proof {
            lemma_offset_bounds(es);
            lemma_offset_at_end(es, p);
            assert(es[es.len() - 1].0 < key);
            assert(false);
        }
        None
    }
}

} // verus!
