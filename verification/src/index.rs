//! Binary offset index.
//!
//! An `Index` maps each logical record offset to the physical byte range the
//! record occupies in the companion log. Every mapping entry is persisted in
//! a fixed-width binary form — offset, start and size, each a little-endian
//! `u32`, twelve bytes in all — appended to the `<start_offset>.index` file
//! in the order the entries arrive. Reopening the file replays the entry
//! stream in file order into the in-memory mapping, so for a duplicated
//! offset the entry written later wins.

use vstd::prelude::*;

verus! {

broadcast use vstd::std_specs::hash::group_hash_axioms;

use std::collections::HashMap;

use crate::error::StorageError;
use crate::store::Store;

/// Width in bytes of one persisted index entry.
pub const ENTRY_SIZE: usize = 12;

/// One index record: where the record at logical `offset` lives in the log
/// file. `start` and `size` describe a byte span that, by producer contract,
/// does not overlap the span of any other offset.
#[derive(Clone, Copy, Debug, PartialEq, Eq, PartialOrd, Ord, Structural)]
pub struct Entry {
    /// Logical record offset.
    pub offset: u32,
    /// First byte of the record in the log file.
    pub start: u32,
    /// Length of the record in bytes.
    pub size: u32,
}

impl Entry {
    /// Builds an entry; note the argument order `(offset, size, start)`.
    pub fn new(offset: u32, size: u32, start: u32) -> (e: Entry)
        ensures
            e.offset == offset,
            e.size == size,
            e.start == start,
    {
        Entry { offset, size, start }
    }
}

/// The four little-endian bytes of `x`.
pub open spec fn spec_u32_le(x: u32) -> Seq<u8> {
    seq![
        (x % 256) as u8,
        ((x / 256) % 256) as u8,
        ((x / 65536) % 256) as u8,
        ((x / 16777216) % 256) as u8,
    ]
}

/// The `u32` denoted by four little-endian bytes.
pub open spec fn spec_u32_from_le(b: Seq<u8>) -> u32
    recommends
        b.len() == 4,
{
    (b[0] + b[1] * 256 + b[2] * 65536 + b[3] * 16777216) as u32
}

/// The twelve persisted bytes of one entry: offset, start, size, each
/// little-endian.
pub open spec fn spec_encode_entry(e: Entry) -> Seq<u8> {
    spec_u32_le(e.offset) + spec_u32_le(e.start) + spec_u32_le(e.size)
}

/// The entry denoted by twelve persisted bytes.
pub open spec fn spec_decode_entry(b: Seq<u8>) -> Entry
    recommends
        b.len() == 12,
{
    Entry {
        offset: spec_u32_from_le(b.subrange(0, 4)),
        start: spec_u32_from_le(b.subrange(4, 8)),
        size: spec_u32_from_le(b.subrange(8, 12)),
    }
}

/// The persisted form of a batch: each entry's twelve bytes, concatenated in
/// batch order.
pub open spec fn spec_encode_entries(es: Seq<Entry>) -> Seq<u8>
    decreases es.len(),
{
    if es.len() == 0 {
        Seq::<u8>::empty()
    } else {
        spec_encode_entries(es.drop_last()) + spec_encode_entry(es.last())
    }
}

proof fn lemma_u32_le_round_trip(x: u32)
    ensures
        spec_u32_from_le(spec_u32_le(x)) == x,
{
    let xi = x as int;
    vstd::arithmetic::div_mod::lemma_fundamental_div_mod(xi, 256);
    vstd::arithmetic::div_mod::lemma_fundamental_div_mod(xi / 256, 256);
    vstd::arithmetic::div_mod::lemma_fundamental_div_mod(xi / 65536, 256);
    vstd::arithmetic::div_mod::lemma_div_denominator(xi, 256, 256);
    vstd::arithmetic::div_mod::lemma_div_denominator(xi, 65536, 256);
}

proof fn lemma_entry_round_trip(e: Entry)
    ensures
        spec_decode_entry(spec_encode_entry(e)) == e,
{
    let b = spec_encode_entry(e);
    assert(b.subrange(0, 4) =~= spec_u32_le(e.offset));
    assert(b.subrange(4, 8) =~= spec_u32_le(e.start));
    assert(b.subrange(8, 12) =~= spec_u32_le(e.size));
    lemma_u32_le_round_trip(e.offset);
    lemma_u32_le_round_trip(e.start);
    lemma_u32_le_round_trip(e.size);
}

/// The persisted form of a batch is twelve bytes per entry.
pub proof fn lemma_encode_entries_len(es: Seq<Entry>)
    ensures
        spec_encode_entries(es).len() == 12 * es.len(),
    decreases es.len(),
{
    if es.len() > 0 {
        lemma_encode_entries_len(es.drop_last());
    }
}

/// Appends the four little-endian bytes of `x` to `buf`.
fn push_u32_le(buf: &mut Vec<u8>, x: u32)
    ensures
        final(buf)@ == old(buf)@ + spec_u32_le(x),
{
    buf.push((x % 256) as u8);
    buf.push(((x / 256) % 256) as u8);
    buf.push(((x / 65536) % 256) as u8);
    buf.push(((x / 16777216) % 256) as u8);
    assert(final(buf)@ =~= old(buf)@ + spec_u32_le(x));
}

/// Appends the twelve persisted bytes of `e` to `buf`.
fn push_entry(buf: &mut Vec<u8>, e: Entry)
    ensures
        final(buf)@ == old(buf)@ + spec_encode_entry(e),
{
    push_u32_le(buf, e.offset);
    push_u32_le(buf, e.start);
    push_u32_le(buf, e.size);
    assert(final(buf)@ =~= old(buf)@ + spec_encode_entry(e));
}

/// Serializes a batch of entries into its persisted form, preserving batch
/// order.
pub fn encode_entries(entries: &Vec<Entry>) -> (buf: Vec<u8>)
    ensures
        buf@ == spec_encode_entries(entries@),
{
    let mut buf: Vec<u8> = Vec::new();
    let mut i: usize = 0;
    while i < entries.len()
        invariant
            i <= entries@.len(),
            buf@ == spec_encode_entries(entries@.take(i as int)),
        decreases entries@.len() - i,
    {
        push_entry(&mut buf, entries[i]);
        proof {
            let t = entries@.take(i + 1);
            assert(t.drop_last() =~= entries@.take(i as int));
            assert(t.last() == entries@[i as int]);
        }
        i = i + 1;
    }
    assert(entries@.take(entries@.len() as int) =~= entries@);
    buf
}

/// Reads the little-endian `u32` at byte position `i` of `bytes`.
fn decode_u32_at(bytes: &Vec<u8>, i: usize) -> (x: u32)
    requires
        i + 4 <= bytes@.len(),
    ensures
        x == spec_u32_from_le(bytes@.subrange(i as int, i as int + 4)),
{
    let n = bytes.len();
    assert(i + 4 <= n);
    let b0 = bytes[i] as u32;
    let b1 = bytes[i + 1] as u32;
    let b2 = bytes[i + 2] as u32;
    let b3 = bytes[i + 3] as u32;
    b0 + b1 * 256 + b2 * 65536 + b3 * 16777216
}

/// Reads the entry persisted at byte position `i` of `bytes`.
fn decode_entry_at(bytes: &Vec<u8>, i: usize) -> (e: Entry)
    requires
        i + 12 <= bytes@.len(),
    ensures
        e == spec_decode_entry(bytes@.subrange(i as int, i as int + 12)),
{
    let n = bytes.len();
    assert(i + 12 <= n);
    let offset = decode_u32_at(bytes, i);
    let start = decode_u32_at(bytes, i + 4);
    let size = decode_u32_at(bytes, i + 8);
    proof {
        let block = bytes@.subrange(i as int, i as int + 12);
        assert(block.subrange(0, 4) =~= bytes@.subrange(i as int, i as int + 4));
        assert(block.subrange(4, 8) =~= bytes@.subrange(i as int + 4, i as int + 8));
        assert(block.subrange(8, 12) =~= bytes@.subrange(i as int + 8, i as int + 12));
    }
    Entry { offset, start, size }
}

/// The mapping that replaying the persisted bytes `b` on top of a mapping
/// `m` produces: each successive twelve-byte block is decoded and inserted,
/// so for a duplicated offset the block at the later file position wins.
pub open spec fn spec_replay_onto(m: Map<u32, Entry>, b: Seq<u8>) -> Map<u32, Entry>
    recommends
        b.len() % 12 == 0,
    decreases b.len(),
{
    if b.len() < 12 {
        m
    } else {
        let e = spec_decode_entry(b.skip(b.len() - 12));
        spec_replay_onto(m, b.take(b.len() - 12)).insert(e.offset, e)
    }
}

/// The mapping after inserting every entry of the batch `es`, in batch
/// order, into `m`: for a duplicated offset the later entry wins.
pub open spec fn spec_insert_all(m: Map<u32, Entry>, es: Seq<Entry>) -> Map<u32, Entry>
    decreases es.len(),
{
    if es.len() == 0 {
        m
    } else {
        spec_insert_all(m, es.drop_last()).insert(es.last().offset, es.last())
    }
}

/// The greatest logical offset occurring in the batch `es`.
pub open spec fn spec_batch_max_offset(es: Seq<Entry>) -> u32
    recommends
        es.len() > 0,
    decreases es.len(),
{
    if es.len() <= 1 {
        es[0].offset
    } else {
        let m = spec_batch_max_offset(es.drop_last());
        if es.last().offset > m {
            es.last().offset
        } else {
            m
        }
    }
}

/// Law: the persisted form of two batches appended one after the other is
/// the persisted form of their concatenation, so successive appends build
/// the file that one concatenated batch would have built.
pub proof fn lemma_encode_entries_concat(a: Seq<Entry>, b: Seq<Entry>)
    ensures
        spec_encode_entries(a + b) == spec_encode_entries(a) + spec_encode_entries(b),
    decreases b.len(),
{
    if b.len() == 0 {
        assert(a + b =~= a);
        assert(spec_encode_entries(a) + spec_encode_entries(b) =~= spec_encode_entries(a));
    } else {
        let b1 = b.drop_last();
        assert((a + b).drop_last() =~= a + b1);
        assert((a + b).last() == b.last());
        lemma_encode_entries_concat(a, b1);
        assert((spec_encode_entries(a) + spec_encode_entries(b1)) + spec_encode_entry(b.last())
            =~= spec_encode_entries(a) + (spec_encode_entries(b1) + spec_encode_entry(b.last())));
    }
}

/// Law: inserting one batch and then another leaves the same mapping as
/// inserting their concatenation, so any sequence of appends acts on the
/// mapping as one concatenated batch would.
pub proof fn lemma_insert_all_concat(m: Map<u32, Entry>, a: Seq<Entry>, b: Seq<Entry>)
    ensures
        spec_insert_all(spec_insert_all(m, a), b) == spec_insert_all(m, a + b),
    decreases b.len(),
{
    if b.len() == 0 {
        assert(a + b =~= a);
    } else {
        let b1 = b.drop_last();
        assert((a + b).drop_last() =~= a + b1);
        assert((a + b).last() == b.last());
        lemma_insert_all_concat(m, a, b1);
    }
}

/// Law: replaying the persisted form of a batch of entries on top of any
/// in-memory mapping rebuilds exactly the mapping that inserting the batch
/// in order builds. Hence an index reopened against its own file holds the
/// same offset-to-entry pairs as the index that wrote it, for any sequence
/// of appended batches.
pub proof fn lemma_reload_rebuilds_mapping(m: Map<u32, Entry>, es: Seq<Entry>)
    ensures
        spec_replay_onto(m, spec_encode_entries(es)) == spec_insert_all(m, es),
    decreases es.len(),
{
    if es.len() == 0 {
    } else {
        let prefix = es.drop_last();
        let e = es.last();
        let b = spec_encode_entries(es);
        lemma_encode_entries_len(es);
        lemma_encode_entries_len(prefix);
        assert(b.take(b.len() - 12) =~= spec_encode_entries(prefix));
        assert(b.skip(b.len() - 12) =~= spec_encode_entry(e));
        lemma_entry_round_trip(e);
        lemma_reload_rebuilds_mapping(m, prefix);
    }
}

/// The offset index of one segment: a capacity-bounded store of persisted
/// twelve-byte entries, and the in-memory mapping replayed from it.
pub struct Index {
    /// The backing byte store of the `<start_offset>.index` file.
    pub store: Store,
    /// In-memory mapping from logical offset to its entry.
    pub entries: HashMap<u32, Entry>,
    /// First logical offset this index can represent.
    pub start_offset: u32,
    /// Greatest offset of the most recently appended batch; bounds ranged
    /// reads. Replaying a persisted file does not raise it: only appends do.
    pub last_offset: u32,
    /// Byte-capacity ceiling of the backing store.
    pub max_size: u64,
}

impl Index {
    /// Creates the index of a fresh segment, over an empty backing file.
    pub fn new(start_offset: u32, max_size: u64) -> (i: Index)
        ensures
            i.store.data@ == Seq::<u8>::empty(),
            i.store.max_size == max_size,
            i.entries@ == Map::<u32, Entry>::empty(),
            i.start_offset == start_offset,
            i.last_offset == 0,
            i.max_size == max_size,
    {
        Index {
            store: Store::new(max_size),
            entries: HashMap::new(),
            start_offset,
            last_offset: 0,
            max_size,
        }
    }

    /// Reopens the index of an existing segment whose backing file holds
    /// `existing`, replaying the whole entry stream into the in-memory
    /// mapping. Fails with `DecodeFailure`, without building a mapping, when
    /// the file length is not a whole number of twelve-byte blocks, as after
    /// a partially written trailing entry.
    pub fn open(existing: Vec<u8>, start_offset: u32, max_size: u64) -> (r: Result<
        Index,
        StorageError,
    >)
        ensures
            match r {
                Ok(i) => {
                    &&& existing@.len() % 12 == 0
                    &&& i.store.data@ == existing@
                    &&& i.store.max_size == max_size
                    &&& i.entries@ == spec_replay_onto(Map::<u32, Entry>::empty(), existing@)
                    &&& i.start_offset == start_offset
                    &&& i.last_offset == 0
                    &&& i.max_size == max_size
                },
                Err(e) => existing@.len() % 12 != 0 && e == StorageError::DecodeFailure,
            },
    {
        let mut i = Index {
            store: Store::open(existing, max_size),
            entries: HashMap::new(),
            start_offset,
            last_offset: 0,
            max_size,
        };
        match i.read() {
            Ok(()) => Ok(i),
            Err(e) => Err(e),
        }
    }

    /// Replays the whole backing file into the in-memory mapping, entry by
    /// entry in file order, on top of whatever the mapping already holds.
    /// Fails with `DecodeFailure`, leaving the mapping untouched, when the
    /// file length is not a whole number of twelve-byte blocks.
    pub fn read(&mut self) -> (r: Result<(), StorageError>)
        ensures
            final(self).store.data@ == old(self).store.data@,
            final(self).store.max_size == old(self).store.max_size,
            final(self).start_offset == old(self).start_offset,
            final(self).last_offset == old(self).last_offset,
            final(self).max_size == old(self).max_size,
            match r {
                Ok(()) => old(self).store.data@.len() % 12 == 0 && final(self).entries@
                    == spec_replay_onto(old(self).entries@, old(self).store.data@),
                Err(e) => old(self).store.data@.len() % 12 != 0 && e
                    == StorageError::DecodeFailure && final(self).entries@ == old(self).entries@,
            },
    {
        let bytes = self.store.read_all();
        let n = bytes.len();
        if n % ENTRY_SIZE != 0 {
            return Err(StorageError::DecodeFailure);
        }
        let mut i: usize = 0;
        while i < n
            invariant
                i <= n,
                i % 12 == 0,
                n % 12 == 0,
                n == bytes@.len(),
                self.entries@ == spec_replay_onto(old(self).entries@, bytes@.take(i as int)),
                self.store.data@ == old(self).store.data@,
                self.store.max_size == old(self).store.max_size,
                self.start_offset == old(self).start_offset,
                self.last_offset == old(self).last_offset,
                self.max_size == old(self).max_size,
            decreases n - i,
        {
            let e = decode_entry_at(&bytes, i);
            self.entries.insert(e.offset, e);
            proof {
                let t = bytes@.take(i + 12);
                assert(t.take(t.len() - 12) =~= bytes@.take(i as int));
                assert(t.skip(t.len() - 12) =~= bytes@.subrange(i as int, i as int + 12));
            }
            i = i + ENTRY_SIZE;
        }
        assert(bytes@.take(n as int) =~= bytes@);
        Ok(())
    }

    /// Appends a non-empty batch: every entry is inserted into the in-memory
    /// mapping (later duplicates winning), `last_offset` becomes the greatest
    /// offset of the batch, and the serialized batch is appended to the
    /// backing store in one write. When the store refuses the write the
    /// mapping and `last_offset` keep their new values: memory is then ahead
    /// of disk, and the caller must treat the batch as lost rather than
    /// assume a rollback.
    pub fn append(&mut self, entries: Vec<Entry>) -> (r: Result<(), StorageError>)
        requires
            entries@.len() > 0,
        ensures
            final(self).start_offset == old(self).start_offset,
            final(self).max_size == old(self).max_size,
            final(self).store.max_size == old(self).store.max_size,
            final(self).entries@ == spec_insert_all(old(self).entries@, entries@),
            final(self).last_offset == spec_batch_max_offset(entries@),
            old(self).store.data@.len() + 12 * entries@.len() < old(self).store.max_size ==> r
                is Ok && final(self).store.data@ == old(self).store.data@
                + spec_encode_entries(entries@),
            old(self).store.data@.len() + 12 * entries@.len() >= old(self).store.max_size ==> r
                == Err::<(), StorageError>(StorageError::CapacityExceeded)
                && final(self).store.data@ == old(self).store.data@,
    {
        let mut last_offset = entries[0].offset;
        let mut i: usize = 0;
        while i < entries.len()
            invariant
                i <= entries@.len(),
                entries@.len() > 0,
                self.entries@ == spec_insert_all(old(self).entries@, entries@.take(i as int)),
                last_offset == if i == 0 {
                    entries@[0].offset
                } else {
                    spec_batch_max_offset(entries@.take(i as int))
                },
                self.store == old(self).store,
                self.start_offset == old(self).start_offset,
                self.last_offset == old(self).last_offset,
                self.max_size == old(self).max_size,
            decreases entries@.len() - i,
        {
            let e = entries[i];
            self.entries.insert(e.offset, e);
            if e.offset > last_offset {
                last_offset = e.offset;
            }
            proof {
                let t = entries@.take(i + 1);
                assert(t.drop_last() =~= entries@.take(i as int));
                assert(t.last() == entries@[i as int]);
            }
            i = i + 1;
        }
        assert(entries@.take(entries@.len() as int) =~= entries@);
        self.last_offset = last_offset;
        let buf = encode_entries(&entries);
        proof {
            lemma_encode_entries_len(entries@);
        }
        self.store.append(buf.as_slice())
    }

    /// Forces buffered writes to stable storage; a no-op on the byte model.
    pub fn flush(&self) -> (r: Result<(), StorageError>)
        ensures
            r == Ok::<(), StorageError>(()),
    {
        self.store.flush()
    }

    /// Looks up the entry for a logical offset; `None` exactly when the
    /// offset was never inserted, never a stale or default entry.
    pub fn get(&self, offset: u32) -> (r: Option<&Entry>)
        ensures
            match r {
                Some(e) => self.entries@.contains_key(offset) && *e == self.entries@[offset],
                None => !self.entries@.contains_key(offset),
            },
    {
        self.entries.get(&offset)
    }
}

} // verus!
