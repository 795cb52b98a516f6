//! Error taxonomy of the storage core.

use vstd::prelude::*;

verus! {

/// Every failure a storage operation can surface to its caller.
///
/// Nothing is retried or swallowed inside the storage core: each operation
/// either succeeds or returns one of these to its immediate caller.
#[derive(Clone, Copy, Debug, PartialEq, Eq, Structural)]
pub enum StorageError {
    /// An append or a positioned read would cross the configured byte
    /// capacity of the backing store; on append, nothing is written.
    CapacityExceeded,
    /// The underlying file system failed. The verified core never produces
    /// this variant itself: it exists for the process that mirrors a store
    /// onto a real file to report an open, write or sync failure in the
    /// library's own vocabulary.
    IoFailure,
    /// A persisted index file holds a malformed or truncated entry, such as a
    /// partially written trailing block; the whole load is abandoned, since a
    /// partially built mapping cannot be trusted.
    DecodeFailure,
}

} // verus!
