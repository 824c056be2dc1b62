//! A sorted key-value store in the log-structured-merge style: recent writes
//! live in a bounded in-memory stage, older data in immutable sorted runs,
//! and a size-tiered policy merges runs to bound read amplification.

use vstd::prelude::*;

pub mod codec;
pub mod laws;
pub mod map;
pub mod compaction;
pub mod memory_stage;
pub mod sstable;
pub mod splay_tree;

verus! {

/// The error kinds that store operations can surface.
#[derive(Clone, Copy, Debug, PartialEq, Eq, Structural)]
pub enum Error {
    /// A file read, write, rename, or remove failed.
    IOError,
    /// An entry could not be encoded or decoded.
    SerializationError,
    /// A run's footer, index, or data region is malformed.
    CorruptionError,
    /// Compaction parameters are invalid.
    ConfigurationError,
}

} // verus!
