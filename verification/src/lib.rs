//! An append-only, log-structured key-value store.
//!
//! The store keeps every write as one record in a growing byte log. A record
//! carries a CRC-32 checksum, a kind byte (value or tombstone), the key and
//! value lengths, and the raw key and value bytes. An in-memory index maps
//! each key to the offset of its most recent record; it is rebuilt from the
//! log by a full scan and can be snapshotted back into the log itself under a
//! reserved key. Reading and writing the log file is the caller's business:
//! the store works on the log bytes.

use vstd::prelude::*;

pub mod checksum;
pub mod codec;
pub mod index;
pub mod snapshot;
pub mod store;

verus! {

/// The errors a store operation can surface.
///
/// A missing key is a normal outcome of `get`, never an error; these variants
/// cover out-of-range offsets, records whose checksum or framing is wrong,
/// and an index snapshot that cannot be encoded or decoded.
#[derive(Clone, Copy, Debug, PartialEq, Eq, Structural)]
pub enum KvError {
    /// The requested offset lies outside the log.
    NotFound,
    /// A record failed its checksum or is truncated mid-record.
    CorruptRecord,
    /// The index snapshot could not be encoded or decoded.
    SerializationError,
}

} // verus!
