//! Append-only record log.
//!
//! A `Log` holds the raw concatenated record bytes of one segment. Records
//! carry no delimiter and no length prefix: their boundaries exist only in
//! the companion index. Every operation delegates to the underlying store
//! with an identical contract.

use vstd::prelude::*;

verus! {

use crate::error::StorageError;
use crate::store::Store;
use crate::store::read_window;

/// The record log of one segment: raw payload bytes over a capacity-bounded
/// store.
pub struct Log {
    /// First logical offset of the segment this log belongs to.
    pub start_offset: u32,
    /// The backing byte store of the `<start_offset>.log` file.
    pub store: Store,
}

impl Log {
    /// Creates the log of a fresh segment, over an empty backing file.
    pub fn new(start_offset: u32, max_size: u64) -> (l: Log)
        ensures
            l.start_offset == start_offset,
            l.store.data@ == Seq::<u8>::empty(),
            l.store.max_size == max_size,
    {
        Log { start_offset, store: Store::new(max_size) }
    }

    /// Reopens the log of an existing segment whose backing file holds
    /// `contents`.
    pub fn open(start_offset: u32, contents: Vec<u8>, max_size: u64) -> (l: Log)
        ensures
            l.start_offset == start_offset,
            l.store.data@ == contents@,
            l.store.max_size == max_size,
    {
        Log { start_offset, store: Store::open(contents, max_size) }
    }

    /// Appends record bytes at the end of the log; refuses the whole write
    /// with `CapacityExceeded` when it would reach the capacity.
    pub fn append(&mut self, buf: &[u8]) -> (r: Result<(), StorageError>)
        ensures
            final(self).start_offset == old(self).start_offset,
            final(self).store.max_size == old(self).store.max_size,
            old(self).store.data@.len() + buf@.len() < old(self).store.max_size ==> r is Ok
                && final(self).store.data@ == old(self).store.data@ + buf@,
            old(self).store.data@.len() + buf@.len() >= old(self).store.max_size ==> r
                == Err::<(), StorageError>(StorageError::CapacityExceeded)
                && final(self).store.data@ == old(self).store.data@,
    {
        self.store.append(buf)
    }

    /// Forces buffered writes to stable storage; a no-op on the byte model.
    pub fn flush(&self) -> (r: Result<(), StorageError>)
        ensures
            r == Ok::<(), StorageError>(()),
    {
        self.store.flush()
    }

    /// Reads up to `size` bytes of records starting at byte `start`,
    /// truncated at the end of the log.
    pub fn read(&self, start: u64, size: u64) -> (r: Result<Vec<u8>, StorageError>)
        ensures
            match r {
                Ok(bytes) => start + size < self.store.max_size && bytes@ == read_window(
                    self.store.data@,
                    start as int,
                    size as int,
                ),
                Err(e) => start + size >= self.store.max_size && e
                    == StorageError::CapacityExceeded,
            },
    {
        self.store.read(start, size)
    }
}

} // verus!
