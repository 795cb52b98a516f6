//! Storage core of a message broker: an append-only record log paired with a
//! binary offset index, coupled into a segment that answers ranged reads by
//! coalescing adjacent index entries into the fewest contiguous log reads.
//!
//! The crate verifies the storage logic itself: capacity accounting, the
//! fixed-width on-disk entry format, the replay of a persisted index into its
//! in-memory mapping, and the read-coalescing algorithm. A store models the
//! bytes of one backing file; the process that mirrors those bytes onto a real
//! file system lives outside the library and hands plain byte vectors in and
//! out.

pub mod error;
pub mod index;
pub mod log;
pub mod segment;
pub mod store;
