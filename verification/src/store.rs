//! Capacity-bounded byte store.
//!
//! A `Store` models the bytes of one backing file together with the byte
//! capacity it was opened with. Appends go to the end and are refused, writing
//! nothing, as soon as they would reach the capacity; positioned reads return
//! a window of the contents, truncated at the end of the data rather than
//! failing. Reads are stateless: no shared read cursor exists, so concurrent
//! readers cannot corrupt each other's window.

use vstd::prelude::*;

verus! {

use crate::error::StorageError;

/// What a positioned read of `size` bytes at `start` returns from `contents`:
/// the bytes from `start` up to `start + size`, clipped to the end of the
/// data. A start beyond the end yields an empty result.
pub open spec fn read_window(contents: Seq<u8>, start: int, size: int) -> Seq<u8>
    recommends
        0 <= start,
        0 <= size,
{
    let len = contents.len() as int;
    let lo = if start < len {
        start
    } else {
        len
    };
    let hi = if start + size < len {
        start + size
    } else {
        len
    };
    contents.subrange(lo, hi)
}

/// Appends every byte of `src` to `dst`, in order.
pub fn push_all(dst: &mut Vec<u8>, src: &[u8])
    ensures
        final(dst)@ == old(dst)@ + src@,
{
    let ghost dst0 = dst@;
    let mut i: usize = 0;
    while i < src.len()
        invariant
            i <= src.len(),
            dst@ == dst0 + src@.take(i as int),
        decreases src.len() - i,
    {
        dst.push(src[i]);
        assert(src@.take(i as int).push(src@[i as int]) =~= src@.take(i + 1));
        i = i + 1;
    }
    assert(src@.take(src@.len() as int) =~= src@);
}

/// Copies `v[lo..hi]` into a fresh vector.
fn copy_range(v: &Vec<u8>, lo: usize, hi: usize) -> (out: Vec<u8>)
    requires
        lo <= hi <= v@.len(),
    ensures
        out@ == v@.subrange(lo as int, hi as int),
{
    let mut out: Vec<u8> = Vec::new();
    let mut i: usize = lo;
    while i < hi
        invariant
            lo <= i <= hi <= v@.len(),
            out@ == v@.subrange(lo as int, i as int),
        decreases hi - i,
    {
        out.push(v[i]);
        assert(v@.subrange(lo as int, i as int).push(v@[i as int]) =~= v@.subrange(
            lo as int,
            i + 1,
        ));
        i = i + 1;
    }
    out
}

/// One backing file: its bytes and the byte capacity it was opened with.
pub struct Store {
    /// The bytes of the backing file, in append order.
    pub data: Vec<u8>,
    /// Byte-capacity ceiling: an append or read reaching this bound is
    /// refused.
    pub max_size: u64,
}

impl Store {
    /// Creates a store over a fresh, empty backing file.
    pub fn new(max_size: u64) -> (s: Store)
        ensures
            s.data@ == Seq::<u8>::empty(),
            s.max_size == max_size,
    {
        Store { data: Vec::new(), max_size }
    }

    /// Opens a store over an existing backing file whose bytes are
    /// `contents`; the write position is at the end of the data.
    pub fn open(contents: Vec<u8>, max_size: u64) -> (s: Store)
        ensures
            s.data@ == contents@,
            s.max_size == max_size,
    {
        Store { data: contents, max_size }
    }

    /// Appends `buf` at the current end of the data, or refuses the whole
    /// write with `CapacityExceeded` when the new end would reach `max_size`.
    /// Refusal at exactly `max_size` is deliberate: the final byte of
    /// capacity is never used.
    pub fn append(&mut self, buf: &[u8]) -> (r: Result<(), StorageError>)
        ensures
            final(self).max_size == old(self).max_size,
            old(self).data@.len() + buf@.len() < old(self).max_size ==> r is Ok
                && final(self).data@ == old(self).data@ + buf@,
            old(self).data@.len() + buf@.len() >= old(self).max_size ==> r
                == Err::<(), StorageError>(StorageError::CapacityExceeded)
                && final(self).data@ == old(self).data@,
    {
        let position = self.data.len() as u64;
        if position >= self.max_size || buf.len() as u64 >= self.max_size - position {
            Err(StorageError::CapacityExceeded)
        } else {
            push_all(&mut self.data, buf);
            Ok(())
        }
    }

    /// Forces buffered writes to stable storage. On the byte model there is
    /// nothing to force, so this always succeeds; the file-mirroring layer
    /// performs the real sync.
    pub fn flush(&self) -> (r: Result<(), StorageError>)
        ensures
            r == Ok::<(), StorageError>(()),
    {
        Ok(())
    }

    /// Reads up to `size` bytes starting at byte `start`, truncated at the
    /// end of the data; refuses with `CapacityExceeded` when `start + size`
    /// reaches `max_size`, guarding the configured ceiling rather than the
    /// real end of the data.
    pub fn read(&self, start: u64, size: u64) -> (r: Result<Vec<u8>, StorageError>)
        ensures
            match r {
                Ok(bytes) => start + size < self.max_size && bytes@ == read_window(
                    self.data@,
                    start as int,
                    size as int,
                ),
                Err(e) => start + size >= self.max_size && e == StorageError::CapacityExceeded,
            },
    {
        if start >= self.max_size || size >= self.max_size - start {
            return Err(StorageError::CapacityExceeded);
        }
        let len = self.data.len();
        let lo: usize = if start < len as u64 {
            start as usize
        } else {
            len
        };
        let end = start + size;
        let hi: usize = if end < len as u64 {
            end as usize
        } else {
            len
        };
        Ok(copy_range(&self.data, lo, hi))
    }

    /// Returns the entire contents of the backing file.
    pub fn read_all(&self) -> (r: Vec<u8>)
        ensures
            r@ == self.data@,
    {
        let len = self.data.len();
        let out = copy_range(&self.data, 0, len);
        assert(self.data@.subrange(0, self.data@.len() as int) =~= self.data@);
        out
    }
}

/// Law: a byte sequence `b` shorter than the capacity, appended to an empty
/// store, then read back as the window `[0, b.len())`, comes back exactly as
/// `b`. The append is accepted because `0 + b.len() < max_size`, and the read
/// window over the resulting contents is all of `b`.
pub proof fn lemma_append_then_read_roundtrip(b: Seq<u8>, max_size: u64)
    requires
        b.len() < max_size,
    ensures
        read_window(Seq::<u8>::empty() + b, 0, b.len() as int) == b,
{
    let contents = Seq::<u8>::empty() + b;
    assert(contents =~= b);
    assert(read_window(contents, 0, b.len() as int) =~= b);
}

} // verus!
