//! Fixed-width binary encoding of the integers that make up a run file.
//!
//! Every number in the on-disk format is a `u64` stored as eight
//! little-endian bytes. The encoding and decoding of a single `u64` is done
//! by `bincode`; everything layered above it is verified against the spec
//! functions here.

use vstd::prelude::*;

verus! {

/// The eight little-endian bytes of `x`.
pub open spec fn u64_le_bytes(x: u64) -> Seq<u8> {
    seq![
        (x & 0xff) as u8,
        ((x >> 8) & 0xff) as u8,
        ((x >> 16) & 0xff) as u8,
        ((x >> 24) & 0xff) as u8,
        ((x >> 32) & 0xff) as u8,
        ((x >> 40) & 0xff) as u8,
        ((x >> 48) & 0xff) as u8,
        ((x >> 56) & 0xff) as u8,
    ]
}

/// The `u64` whose little-endian bytes are `b` (the first eight bytes of it).
pub open spec fn u64_from_le(b: Seq<u8>) -> u64
    recommends
        b.len() >= 8,
{
    (
        (b[0] as u64)
        | (b[1] as u64) << 8
        | (b[2] as u64) << 16
        | (b[3] as u64) << 24
        | (b[4] as u64) << 32
        | (b[5] as u64) << 40
        | (b[6] as u64) << 48
        | (b[7] as u64) << 56
    ) as u64
}

/// Decoding the little-endian bytes of `x` gives back `x`.
pub proof fn lemma_u64_le_round_trip(x: u64)
    ensures
        u64_from_le(u64_le_bytes(x)) == x,
{
    assert((
        ((x & 0xff) as u8 as u64)
        | (((x >> 8) & 0xff) as u8 as u64) << 8
        | (((x >> 16) & 0xff) as u8 as u64) << 16
        | (((x >> 24) & 0xff) as u8 as u64) << 24
        | (((x >> 32) & 0xff) as u8 as u64) << 32
        | (((x >> 40) & 0xff) as u8 as u64) << 40
        | (((x >> 48) & 0xff) as u8 as u64) << 48
        | (((x >> 56) & 0xff) as u8 as u64) << 56
    ) as u64 == x) by (bit_vector);
}

/// Re-encoding the `u64` read from eight little-endian bytes gives back
/// exactly those bytes.
pub proof fn lemma_u64_le_bytes_of(b: Seq<u8>)
    requires
        b.len() == 8,
    ensures
        u64_le_bytes(u64_from_le(b)) == b,
{
    let b0 = b[0];
    let b1 = b[1];
    let b2 = b[2];
    let b3 = b[3];
    let b4 = b[4];
    let b5 = b[5];
    let b6 = b[6];
    let b7 = b[7];
    let x = u64_from_le(b);
    assert(x == (
        (b0 as u64)
        | (b1 as u64) << 8
        | (b2 as u64) << 16
        | (b3 as u64) << 24
        | (b4 as u64) << 32
        | (b5 as u64) << 40
        | (b6 as u64) << 48
        | (b7 as u64) << 56
    ) as u64);
    assert({
        let y = (
            (b0 as u64)
            | (b1 as u64) << 8
            | (b2 as u64) << 16
            | (b3 as u64) << 24
            | (b4 as u64) << 32
            | (b5 as u64) << 40
            | (b6 as u64) << 48
            | (b7 as u64) << 56
        ) as u64;
        (y & 0xff) as u8 == b0
            && ((y >> 8) & 0xff) as u8 == b1
            && ((y >> 16) & 0xff) as u8 == b2
            && ((y >> 24) & 0xff) as u8 == b3
            && ((y >> 32) & 0xff) as u8 == b4
            && ((y >> 40) & 0xff) as u8 == b5
            && ((y >> 48) & 0xff) as u8 == b6
            && ((y >> 56) & 0xff) as u8 == b7
    }) by (bit_vector);
    assert(u64_le_bytes(x) =~= b);
}

/// Relies on `bincode::serialize`: with the crate's default configuration a
/// `u64` always serializes to exactly its eight little-endian bytes, and
/// serialization into a fresh byte vector cannot fail.
#[verifier::external_body]
pub(crate) fn encode_u64(x: u64) -> (r: Vec<u8>)
    ensures
        r@ == u64_le_bytes(x),
{
    bincode::serialize(&x).unwrap_or_default()
}

/// Relies on `bincode::deserialize`: with the crate's default configuration a
/// `u64` is decoded from the first eight bytes of the input, little-endian;
/// an eight-byte input therefore always decodes.
#[verifier::external_body]
pub(crate) fn decode_u64(b: &Vec<u8>, start: usize) -> (r: u64)
    requires
        start + 8 <= b@.len(),
    ensures
        r == u64_from_le(b@.subrange(start as int, start as int + 8)),
{
    bincode::deserialize(&b[start..start + 8]).unwrap_or_default()
}

} // verus!
