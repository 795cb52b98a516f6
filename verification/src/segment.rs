//! Segment: one record log coupled with one offset index.
//!
//! A segment owns the log and the index of one contiguous, capacity-bounded
//! shard of the logical offset space, both derived from a shared start
//! offset. Appending writes the payload bytes to the log first and the entry
//! batch to the index second, never the reverse; the two writes are not one
//! transaction, so a failed index write after a successful log write leaves
//! bytes in the log that are unreachable by offset until an external
//! recovery pass rebuilds the index. Ranged reads coalesce physically
//! adjacent index entries into maximal runs and issue one log read per run.

use vstd::prelude::*;

verus! {

use crate::error::StorageError;
use crate::index::Entry;
use crate::index::Index;
use crate::index::spec_batch_max_offset;
use crate::index::spec_encode_entries;
use crate::index::spec_insert_all;
use crate::index::spec_replay_onto;
use crate::log::Log;
use crate::store::read_window;

/// Byte capacity handed to a segment's log and index stores: effectively
/// unbounded for one segment's lifetime, since rotation is a concern of the
/// layer above the segment.
pub const SEGMENT_MAX_BYTES: u64 = 4294967295;

/// First byte past the span an entry describes in the log file.
pub open spec fn entry_end(e: Entry) -> int {
    e.start + e.size
}

/// The entries a ranged read resolves: for each offset of `[from, to]`, in
/// ascending order, the entry the mapping holds for it, if any. Offsets
/// absent from the mapping contribute nothing.
pub open spec fn entries_in_range(m: Map<u32, Entry>, from: int, to: int) -> Seq<Entry>
    decreases to + 1 - from,
{
    if to < from {
        Seq::<Entry>::empty()
    } else {
        let prefix = entries_in_range(m, from, to - 1);
        if 0 <= to <= u32::MAX && m.contains_key(to as u32) {
            prefix.push(m[to as u32])
        } else {
            prefix
        }
    }
}

/// Whether the entry at position `j` closes a maximal physically contiguous
/// run of `s`: it is the last entry, or the next entry does not start
/// exactly where this one ends.
pub open spec fn is_run_end(s: Seq<Entry>, j: int) -> bool
    recommends
        0 <= j < s.len(),
{
    j == s.len() - 1 || s[j + 1].start != entry_end(s[j])
}

/// Whether some coalesced run of `s` spans up to or past the byte capacity
/// `max_size`, so that the one physical read issued for it is refused.
pub open spec fn range_read_fails(s: Seq<Entry>, max_size: int) -> bool {
    exists|j: int| 0 <= j < s.len() && #[trigger] is_run_end(s, j) && entry_end(s[j]) >= max_size
}

/// The bytes a ranged read returns: the log window of each resolved entry,
/// concatenated in entry order, each window truncated at the end of the log.
pub open spec fn concat_windows(c: Seq<u8>, s: Seq<Entry>) -> Seq<u8>
    decreases s.len(),
{
    if s.len() == 0 {
        Seq::<u8>::empty()
    } else {
        concat_windows(c, s.drop_last()) + read_window(c, s.last().start as int, s.last().size as int)
    }
}

proof fn lemma_window_split(c: Seq<u8>, s: int, a: int, b: int)
    requires
        0 <= s,
        0 <= a,
        0 <= b,
    ensures
        read_window(c, s, a + b) == read_window(c, s, a) + read_window(c, s + a, b),
{
    let len = c.len() as int;
    let lo = if s < len {
        s
    } else {
        len
    };
    let mid = if s + a < len {
        s + a
    } else {
        len
    };
    let hi = if s + a + b < len {
        s + a + b
    } else {
        len
    };
    assert(c.subrange(lo, hi) =~= c.subrange(lo, mid) + c.subrange(mid, hi));
}

/// One log read over a physically contiguous run of entries returns exactly
/// the concatenation of the per-entry windows: the entries tile the run's
/// span without gap.
proof fn lemma_run_concat(c: Seq<u8>, run: Seq<Entry>)
    requires
        run.len() > 0,
        forall|i: int| 1 <= i < run.len() ==> (#[trigger] run[i]).start == entry_end(run[i - 1]),
    ensures
        entry_end(run.last()) >= run[0].start,
        read_window(c, run[0].start as int, entry_end(run.last()) - run[0].start) == concat_windows(
            c,
            run,
        ),
    decreases run.len(),
{
    if run.len() == 1 {
        let w = read_window(c, run[0].start as int, run[0].size as int);
        assert(run.drop_last().len() == 0);
        assert(concat_windows(c, run) == concat_windows(c, run.drop_last()) + w);
        assert(Seq::<u8>::empty() + w =~= w);
    } else {
        let prefix = run.drop_last();
        let last = run.last();
        assert(forall|i: int|
            1 <= i < prefix.len() ==> (#[trigger] prefix[i]).start == entry_end(prefix[i - 1]));
        lemma_run_concat(c, prefix);
        let s0 = run[0].start as int;
        let a = entry_end(prefix.last()) - s0;
        let b = last.size as int;
        assert(last.start == entry_end(run[run.len() - 2]));
        assert(s0 + a == last.start);
        lemma_window_split(c, s0, a, b);
    }
}

proof fn lemma_concat_windows_app(c: Seq<u8>, a: Seq<Entry>, b: Seq<Entry>)
    ensures
        concat_windows(c, a + b) == concat_windows(c, a) + concat_windows(c, b),
    decreases b.len(),
{
    if b.len() == 0 {
        assert(a + b =~= a);
        assert(concat_windows(c, a) + concat_windows(c, b) =~= concat_windows(c, a));
    } else {
        let b1 = b.drop_last();
        assert((a + b).drop_last() =~= a + b1);
        assert((a + b).last() == b.last());
        lemma_concat_windows_app(c, a, b1);
        let w = read_window(c, b.last().start as int, b.last().size as int);
        assert((concat_windows(c, a) + concat_windows(c, b1)) + w =~= concat_windows(c, a) + (
        concat_windows(c, b1) + w));
    }
}

proof fn lemma_entries_in_range_split(m: Map<u32, Entry>, from: int, mid: int, to: int)
    requires
        from <= mid <= to + 1,
    ensures
        entries_in_range(m, from, to) == entries_in_range(m, from, mid - 1) + entries_in_range(
            m,
            mid,
            to,
        ),
    decreases to + 1 - mid,
{
    if mid == to + 1 {
        assert(entries_in_range(m, mid, to).len() == 0);
        assert(entries_in_range(m, from, to) + entries_in_range(m, mid, to) =~= entries_in_range(
            m,
            from,
            to,
        ));
    } else {
        lemma_entries_in_range_split(m, from, mid, to - 1);
        let a = entries_in_range(m, from, mid - 1);
        let b = entries_in_range(m, mid, to - 1);
        if 0 <= to <= u32::MAX && m.contains_key(to as u32) {
            assert((a + b).push(m[to as u32]) =~= a + b.push(m[to as u32]));
        }
    }
}

/// One capacity-bounded shard of the logical offset space: a record log and
/// its offset index, sharing a start offset.
pub struct Segment {
    /// First logical offset of this segment.
    pub start_offset: u32,
    /// The record log, backing file `<start_offset>.log`.
    pub log: Log,
    /// The offset index, backing file `<start_offset>.index`.
    pub index: Index,
}

impl Segment {
    /// Creates a fresh segment: an empty log and an empty index, both bounded
    /// by `SEGMENT_MAX_BYTES`.
    pub fn new(start_offset: u32) -> (s: Segment)
        ensures
            s.start_offset == start_offset,
            s.log.start_offset == start_offset,
            s.log.store.data@ == Seq::<u8>::empty(),
            s.log.store.max_size == SEGMENT_MAX_BYTES,
            s.index.start_offset == start_offset,
            s.index.last_offset == 0,
            s.index.entries@ == Map::<u32, Entry>::empty(),
            s.index.store.data@ == Seq::<u8>::empty(),
            s.index.store.max_size == SEGMENT_MAX_BYTES,
            s.index.max_size == SEGMENT_MAX_BYTES,
    {
        Segment {
            start_offset,
            log: Log::new(start_offset, SEGMENT_MAX_BYTES),
            index: Index::new(start_offset, SEGMENT_MAX_BYTES),
        }
    }

    /// Reopens a segment over the bytes of its two existing backing files,
    /// replaying the index file into the in-memory mapping. Fails with
    /// `DecodeFailure` when the index file length is not a whole number of
    /// twelve-byte blocks.
    pub fn open(start_offset: u32, log_bytes: Vec<u8>, index_bytes: Vec<u8>) -> (r: Result<
        Segment,
        StorageError,
    >)
        ensures
            match r {
                Ok(s) => {
                    &&& index_bytes@.len() % 12 == 0
                    &&& s.start_offset == start_offset
                    &&& s.log.start_offset == start_offset
                    &&& s.log.store.data@ == log_bytes@
                    &&& s.log.store.max_size == SEGMENT_MAX_BYTES
                    &&& s.index.start_offset == start_offset
                    &&& s.index.last_offset == 0
                    &&& s.index.entries@ == spec_replay_onto(Map::<u32, Entry>::empty(), index_bytes@)
                    &&& s.index.store.data@ == index_bytes@
                    &&& s.index.store.max_size == SEGMENT_MAX_BYTES
                },
                Err(e) => index_bytes@.len() % 12 != 0 && e == StorageError::DecodeFailure,
            },
    {
        match Index::open(index_bytes, start_offset, SEGMENT_MAX_BYTES) {
            Ok(index) => Ok(
                Segment {
                    start_offset,
                    log: Log::open(start_offset, log_bytes, SEGMENT_MAX_BYTES),
                    index,
                },
            ),
            Err(e) => Err(e),
        }
    }

    /// Appends a batch of records: the payload bytes go to the log first, the
    /// entry batch to the index second, never the reverse. The two writes are
    /// not one transaction: when the index write fails after the log write
    /// succeeded, the payload stays in the log unindexed, to be recovered by
    /// an external repair pass; when the log write itself is refused, nothing
    /// changes at all.
    pub fn append(&mut self, index: Vec<Entry>, records: &[u8]) -> (r: Result<(), StorageError>)
        requires
            index@.len() > 0,
        ensures
            final(self).start_offset == old(self).start_offset,
            final(self).log.start_offset == old(self).log.start_offset,
            final(self).log.store.max_size == old(self).log.store.max_size,
            final(self).index.start_offset == old(self).index.start_offset,
            final(self).index.max_size == old(self).index.max_size,
            final(self).index.store.max_size == old(self).index.store.max_size,
            ({
                let l0 = old(self).log.store.data@;
                let i0 = old(self).index.store.data@;
                if l0.len() + records@.len() >= old(self).log.store.max_size {
                    &&& r == Err::<(), StorageError>(StorageError::CapacityExceeded)
                    &&& final(self).log.store.data@ == l0
                    &&& final(self).index.store.data@ == i0
                    &&& final(self).index.entries@ == old(self).index.entries@
                    &&& final(self).index.last_offset == old(self).index.last_offset
                } else {
                    &&& final(self).log.store.data@ == l0 + records@
                    &&& final(self).index.entries@ == spec_insert_all(
                        old(self).index.entries@,
                        index@,
                    )
                    &&& final(self).index.last_offset == spec_batch_max_offset(index@)
                    &&& if i0.len() + 12 * index@.len() < old(self).index.store.max_size {
                        r is Ok && final(self).index.store.data@ == i0 + spec_encode_entries(
                            index@,
                        )
                    } else {
                        r == Err::<(), StorageError>(StorageError::CapacityExceeded)
                            && final(self).index.store.data@ == i0
                    }
                }
            }),
    {
        self.log.append(records)?;
        self.index.append(index)?;
        Ok(())
    }

    /// Forces buffered writes of the log, then of the index, to stable
    /// storage; a no-op on the byte model.
    pub fn flush(&self) -> (r: Result<(), StorageError>)
        ensures
            r == Ok::<(), StorageError>(()),
    {
        self.log.flush()?;
        self.index.flush()?;
        Ok(())
    }

    /// Reads the inclusive logical range `[from_offset, min(to_offset,
    /// index.last_offset)]`: resolves each offset through the index, skipping
    /// offsets the index does not hold, coalesces physically adjacent entries
    /// into maximal contiguous runs, and issues one log read per run. Returns
    /// the resolved entries in ascending offset order together with the
    /// concatenated payload bytes, each run's bytes truncated at the end of
    /// the log. Fails with `CapacityExceeded` exactly when some run spans up
    /// to or past the capacity of the log's store.
    #[verifier::loop_isolation(false)]
    pub fn read(&self, from_offset: u32, to_offset: u32) -> (r: Result<
        (Vec<Entry>, Vec<u8>),
        StorageError,
    >)
        ensures
            ({
                let m = self.index.entries@;
                let c = self.log.store.data@;
                let maxi = self.log.store.max_size as int;
                let end = if to_offset < self.index.last_offset {
                    to_offset as int
                } else {
                    self.index.last_offset as int
                };
                let sel = entries_in_range(m, from_offset as int, end);
                match r {
                    Ok(out) => !range_read_fails(sel, maxi) && out.0@ == sel && out.1@
                        == concat_windows(c, sel),
                    Err(e) => range_read_fails(sel, maxi) && e == StorageError::CapacityExceeded,
                }
            }),
    {
        let end_offset = if to_offset < self.index.last_offset {
            to_offset
        } else {
            self.index.last_offset
        };
        let ghost m = self.index.entries@;
        let ghost c = self.log.store.data@;
        let ghost maxi = self.log.store.max_size as int;
        let ghost fromi = from_offset as int;
        let ghost endi = end_offset as int;
        let ghost sel_all = entries_in_range(m, fromi, endi);

        let mut out_entries: Vec<Entry> = Vec::new();
        let mut out_data: Vec<u8> = Vec::new();
        let mut cur_entries: Vec<Entry> = Vec::new();
        let mut cur_start: u64 = 0;
        let mut cur_size: u64 = 0;
        let mut o: u64 = from_offset as u64;

        while o <= end_offset as u64
            invariant
                fromi <= o as int,
                o as int <= endi + 1 || o as int == fromi,
                out_entries@ + cur_entries@ == entries_in_range(m, fromi, o as int - 1),
                out_data@ == concat_windows(c, out_entries@),
                cur_entries@.len() == 0 ==> cur_start == 0 && cur_size == 0 && out_entries@.len()
                    == 0,
                cur_entries@.len() > 0 ==> {
                    &&& cur_start == cur_entries@[0].start
                    &&& cur_start + cur_size == entry_end(cur_entries@.last())
                    &&& forall|i: int|
                        1 <= i < cur_entries@.len() ==> (#[trigger] cur_entries@[i]).start
                            == entry_end(cur_entries@[i - 1])
                },
                forall|j: int|
                    0 <= j < out_entries@.len() && #[trigger] is_run_end(
                        out_entries@ + cur_entries@,
                        j,
                    ) ==> entry_end((out_entries@ + cur_entries@)[j]) < maxi,
            decreases endi + 1 - o as int,
        {
            let off = o as u32;
            let ghost s_before = out_entries@ + cur_entries@;
            match self.index.get(off) {
                Some(entry_ref) => {
                    let e = *entry_ref;
                    if e.start as u64 == cur_start + cur_size {
                        cur_size = cur_size + e.size as u64;
                        cur_entries.push(e);
                        proof {
                            assert(out_entries@ + cur_entries@ =~= s_before.push(e));
                            assert(entries_in_range(m, fromi, o as int) == entries_in_range(
                                m,
                                fromi,
                                o as int - 1,
                            ).push(m[off]));
                            assert forall|j: int|
                                0 <= j < out_entries@.len() && #[trigger] is_run_end(
                                    s_before.push(e),
                                    j,
                                ) implies entry_end(s_before.push(e)[j]) < maxi by {
                                assert(is_run_end(s_before, j));
                            }
                        }
                    } else {
                        let ghost run_end = cur_start + cur_size;
                        if cur_entries.len() > 0 {
                            let mut chunk = match self.log.read(cur_start, cur_size) {
                                Ok(chunk) => chunk,
                                Err(err) => {
                                    proof {
                                        lemma_entries_in_range_split(m, fromi, o as int + 1, endi);
                                        assert(entries_in_range(m, fromi, o as int)
                                            == entries_in_range(m, fromi, o as int - 1).push(
                                            m[off],
                                        ));
                                        let jf = s_before.len() - 1;
                                        assert(sel_all[jf] == s_before[jf]);
                                        assert(sel_all[jf + 1] == e);
                                        assert(entry_end(sel_all[jf]) == cur_start + cur_size);
                                        assert(is_run_end(sel_all, jf));
                                        assert(range_read_fails(sel_all, maxi));
                                    }
                                    return Err(err);
                                },
                            };
                            proof {
                                lemma_run_concat(c, cur_entries@);
                                lemma_concat_windows_app(c, out_entries@, cur_entries@);
                            }
                            out_data.append(&mut chunk);
                            out_entries.append(&mut cur_entries);
                        }
                        cur_start = e.start as u64;
                        cur_size = e.size as u64;
                        cur_entries.push(e);
                        proof {
                            assert(out_entries@ + cur_entries@ =~= s_before.push(e));
                            assert(entries_in_range(m, fromi, o as int) == entries_in_range(
                                m,
                                fromi,
                                o as int - 1,
                            ).push(m[off]));
                            assert forall|j: int|
                                0 <= j < out_entries@.len() && #[trigger] is_run_end(
                                    s_before.push(e),
                                    j,
                                ) implies entry_end(s_before.push(e)[j]) < maxi by {
                                if j < s_before.len() - 1 {
                                    assert(is_run_end(s_before, j));
                                } else {
                                    assert(entry_end(s_before[j]) == run_end);
                                }
                            }
                        }
                    }
                },
                None => {
                    proof {
                        assert(entries_in_range(m, fromi, o as int) == entries_in_range(
                            m,
                            fromi,
                            o as int - 1,
                        ));
                    }
                },
            }
            o = o + 1;
        }
        let ghost out_before = out_entries@;
        let ghost cur_before = cur_entries@;
        proof {
            assert(out_before + cur_before == sel_all);
        }
        if cur_entries.len() > 0 {
            let mut chunk = match self.log.read(cur_start, cur_size) {
                Ok(chunk) => chunk,
                Err(err) => {
                    proof {
                        let jf = sel_all.len() - 1;
                        assert(sel_all[jf] == cur_before.last());
                        assert(is_run_end(sel_all, jf));
                        assert(entry_end(sel_all[jf]) == cur_start + cur_size);
                        assert(range_read_fails(sel_all, maxi));
                    }
                    return Err(err);
                },
            };
            proof {
                lemma_run_concat(c, cur_entries@);
                lemma_concat_windows_app(c, out_entries@, cur_entries@);
            }
            out_data.append(&mut chunk);
            out_entries.append(&mut cur_entries);
            proof {
                assert forall|j: int|
                    0 <= j < sel_all.len() && #[trigger] is_run_end(sel_all, j) implies entry_end(
                    sel_all[j],
                ) < maxi by {
                    if j < out_before.len() {
                        assert(is_run_end(out_before + cur_before, j));
                    } else if j < sel_all.len() - 1 {
                        assert(sel_all[j + 1].start == entry_end(sel_all[j]));
                    } else {
                        assert(entry_end(sel_all[j]) == cur_start + cur_size);
                    }
                }
            }
        } else {
            proof {
                assert(sel_all.len() == 0);
                assert(!range_read_fails(sel_all, maxi));
            }
        }
        Ok((out_entries, out_data))
    }
}

} // verus!
