//! Merge-on-read codec for an archetype-based entity store.
//!
//! A live [`store::Store`] partitions rows into groups (one per schema),
//! buckets (one per distinct grouping-key row) and fixed-capacity blocks.
//! This crate restores a serialized stream of group records into such a
//! store: it resolves each incoming schema to an existing or fresh group,
//! deduplicates grouping-key rows against live buckets by byte equality,
//! packs incoming row identities into blocks, and scatters flat component
//! byte runs across the blocks the packer chose.

use vstd::prelude::*;

pub mod export;
pub mod keys;
pub mod laws;
pub mod pack;
pub mod records;
pub mod scatter;
pub mod schema;
pub mod store;
pub mod walk;

verus! {

/// A fatal merge failure. The first failure encountered aborts the merge;
/// the store may be left partially extended, but never malformed.
#[derive(Clone, Copy, Debug, PartialEq, Eq, Structural)]
pub enum MergeError {
    /// A required field is missing, arrives out of order, or a sequence in
    /// the stream has the wrong length for the resolved schema.
    Format,
    /// Decoded data disagrees with itself: key columns of unequal row
    /// counts, a key value of the wrong width, or a component byte run
    /// whose element count does not match its placement ranges.
    Mismatch,
}

/// A marker wrapping the decoder of one element kind, used by decode
/// front ends to read a homogeneous sequence of sub-records by running
/// the wrapped decoder once per element.
pub struct SeqDeserializer<T>(pub T);

} // verus!
