//! The bounded in-memory table that orchestrates the engine.
//!
//! Every mutation is appended to the write-ahead log before it touches
//! memory, so a failed append leaves no half-applied state and the log
//! always replays to exactly the current memory. When a put lifts the
//! entry count to the flush threshold, the table serializes its entries
//! in sorted order as a new segment, clears memory and starts a fresh
//! log. A read consults memory first, then the segments from newest to
//! oldest.
//!
//! The caller that persists the model must keep flush's program order:
//! the new segment's bytes are durably written first, and only then is
//! the old log file removed. The reverse order would lose data; the kept
//! order at worst replays records already present in the segment, which
//! re-applies idempotently.
//!
//! A delete removes the key from memory and is recorded in the log, but
//! never reaches into already-flushed segments: a key living only in an
//! old segment still answers reads after a delete. That gap is this
//! design's documented contract, stated exactly in [`MemTable::delete`].

use vstd::prelude::*;

use crate::kvmap::{
    assoc_map, entry_fits, entry_views, find_key, insert_entry, keys_distinct, remove_entry,
    sorted_copy, sorted_strict, spec_entries_lookup, SpecEntry,
};
use crate::sstable::{lemma_segment_round_trip, spec_decode_segment, SSTable};
use crate::text::{clean_text, MAX_TEXT_CHARS};
use crate::wal::{
    apply_op, fold_ops, lemma_fold_ops_take, lemma_parse_delete_line, lemma_parse_put_line,
    lemma_replay_fits, lemma_replay_map_len, lemma_replay_push, op_fits, replay_map,
    spec_delete_line, spec_op_view, spec_parse_line, spec_put_line, spec_replay, SpecOp,
    WriteAheadLog,
};

verus! {

/// The entry count at which a put flushes the table to a segment.
pub const FLUSH_THRESHOLD: usize = 100;

/// A byte block that decodes to a sorted, distinct-keyed segment: what a
/// flush writes, and what the read path expects of every segment.
pub open spec fn valid_segment(bytes: Seq<u8>) -> bool {
    match spec_decode_segment(bytes) {
        Some(es) => sorted_strict(es) && keys_distinct(es),
        None => false,
    }
}

/// The layered lookup across segments, newest first: the value from the
/// latest segment that holds the key.
pub open spec fn spec_segs_lookup(segs: Seq<Seq<u8>>, key: Seq<char>) -> Option<Seq<char>>
    decreases segs.len(),
{
    if segs.len() == 0 {
        None
    } else {
        match spec_entries_lookup(spec_decode_segment(segs.last()).unwrap(), key) {
            Some(v) => Some(v),
            None => spec_segs_lookup(segs.drop_last(), key),
        }
    }
}

/// The mutable core of the engine: current memory, the log that records
/// it, and the immutable segments flushed so far, oldest first.
pub struct MemTable {
    data: Vec<(String, String)>,
    wal: WriteAheadLog,
    max_size: usize,
    segments: Vec<Vec<u8>>,
}

impl MemTable {
    /// The current in-memory state.
    pub closed spec fn mem_map(&self) -> Map<Seq<char>, Seq<char>> {
        assoc_map(entry_views(self.data@))
    }

    /// The lines of the owned write-ahead log.
    pub closed spec fn wal_view(&self) -> Seq<Seq<char>> {
        self.wal@
    }

    /// The byte blocks of the flushed segments, oldest first; a segment's
    /// position is its sequence number.
    pub closed spec fn segs(&self) -> Seq<Seq<u8>> {
        self.segments@.map_values(|b: Vec<u8>| b@)
    }

    /// How many segments have been flushed.
    pub open spec fn seg_count(&self) -> nat {
        self.segs().len()
    }

    /// The lookup across this table's segments alone.
    pub open spec fn segment_lookup(&self, key: Seq<char>) -> Option<Seq<char>> {
        spec_segs_lookup(self.segs(), key)
    }

    /// The layered read: memory first, then segments newest to oldest.
    pub open spec fn lookup(&self, key: Seq<char>) -> Option<Seq<char>> {
        if self.mem_map().contains_key(key) {
            Some(self.mem_map()[key])
        } else {
            self.segment_lookup(key)
        }
    }

    /// The table's invariant: memory holds distinct, format-sized keys;
    /// replaying the owned log rebuilds exactly the current memory; and
    /// every flushed segment decodes to a sorted block.
    pub closed spec fn wf(&self) -> bool {
        &&& keys_distinct(entry_views(self.data@))
        &&& (forall|i: int|
            0 <= i < self.data@.len() ==> entry_fits(#[trigger] entry_views(self.data@)[i]))
        &&& self.data@.len() <= 0xFFFF_FFFE
        &&& self.max_size == FLUSH_THRESHOLD
        &&& self.wal.wf()
        &&& replay_map(self.wal@) == self.mem_map()
        &&& (forall|i: int| 0 <= i < self.segs().len() ==> valid_segment(#[trigger] self.segs()[i]))
    }

    /// Replaying the current log rebuilds exactly the current memory:
    /// what survives a crash is what memory held.
    pub proof fn lemma_replay_rebuilds_memory(&self)
        requires
            self.wf(),
        ensures
            replay_map(self.wal_view()) == self.mem_map(),
    {
    }

    /// Builds a table over the given log and recovers: the log's records
    /// are folded into memory, in order. The table starts with no
    /// segments: it does not discover previously flushed files.
    pub fn new(wal: WriteAheadLog) -> (table: Self)
        requires
            wal.wf(),
            wal@.len() <= 0xFFFF_FFFE,
        ensures
            table.wf(),
            table.wal_view() == wal@,
            table.mem_map() == replay_map(wal@),
            table.seg_count() == 0,
    {
        let ops = wal.replay();
        let ghost rops = spec_replay(wal@);
        let mut data: Vec<(String, String)> = Vec::new();
        let n = ops.len();
        let mut i: usize = 0;
        proof {
            lemma_replay_fits(wal@);
            assert(entry_views(data@) =~= Seq::<SpecEntry>::empty());
            assert(rops.take(0) =~= Seq::<SpecOp>::empty());
            assert(fold_ops(Map::empty(), rops.take(0)) =~= Map::<Seq<char>, Seq<char>>::empty());
        }
        #[verifier::loop_isolation(false)]
        while i < n
            invariant
                0 <= i <= n,
                keys_distinct(entry_views(data@)),
                forall|j: int|
                    0 <= j < data@.len() ==> entry_fits(#[trigger] entry_views(data@)[j]),
                assoc_map(entry_views(data@)) == fold_ops(Map::empty(), rops.take(i as int)),
            decreases n - i,
        {
            proof {
                lemma_fold_ops_take(Map::empty(), rops, i as int);
                assert(spec_op_view(ops@[i as int]) == rops[i as int]);
                assert(op_fits(rops[i as int]));
            }
            let op = &ops[i];
            match op.1.as_ref() {
                Some(v) => {
                    insert_entry(&mut data, op.0.clone(), v.clone());
                },
                None => {
                    let _ = remove_entry(&mut data, op.0.as_str());
                },
            }
            i += 1;
        }
        proof {
            assert(rops.take(n as int) =~= rops);
            lemma_replay_map_len(wal@);
            crate::kvmap::lemma_assoc_map_props(entry_views(data@));
        }
        let table = MemTable { data, wal, max_size: FLUSH_THRESHOLD, segments: Vec::new() };
        proof {
            assert(table.segs() =~= Seq::<Seq<u8>>::empty());
        }
        table
    }

    /// The log this table writes to, for the caller to persist.
    pub fn wal(&self) -> (wal: &WriteAheadLog)
        ensures
            wal@ == self.wal_view(),
    {
        &self.wal
    }

    /// How many segments have been flushed so far.
    pub fn segment_count(&self) -> (n: usize)
        ensures
            n as nat == self.seg_count(),
    {
        self.segments.len()
    }

    /// The byte block of the segment with sequence number `i`, for the
    /// caller to persist or inspect.
    pub fn segment(&self, i: usize) -> (bytes: &Vec<u8>)
        requires
            i < self.seg_count(),
        ensures
            bytes@ == self.segs()[i as int],
    {
        &self.segments[i]
    }

    /// The current in-memory entry count.
    pub fn size(&self) -> (n: usize)
        requires
            self.wf(),
        ensures
            n as nat == self.mem_map().len(),
    {
        proof {
            crate::kvmap::lemma_assoc_map_props(entry_views(self.data@));
        }
        self.data.len()
    }

    /// Reads `key`: the in-memory value if one exists, else the first hit
    /// scanning segments newest to oldest, else absence. Absence is not
    /// an error.
    pub fn get(&self, key: &str) -> (r: Option<String>)
        requires
            self.wf(),
        ensures
            match r {
                Some(v) => self.lookup(key@) == Some(v@),
                None => self.lookup(key@) is None,
            },
    {
        proof {
            crate::kvmap::lemma_assoc_map_props(entry_views(self.data@));
        }
        match find_key(&self.data, key) {
            Some(at) => {
                return Some(self.data[at].1.clone());
            },
            None => {},
        }
        proof {
            assert(!self.mem_map().contains_key(key@)) by {
                if self.mem_map().contains_key(key@) {
                    let j = choose|j: int|
                        0 <= j < entry_views(self.data@).len() && #[trigger] entry_views(
                            self.data@,
                        )[j].0 == key@;
                }
            }
        }
        let mut i = self.segments.len();
        proof {
            assert(self.segs().take(i as int) =~= self.segs());
        }
        #[verifier::loop_isolation(false)]
        while i > 0
            invariant
                0 <= i <= self.segments@.len(),
                spec_segs_lookup(self.segs(), key@) == spec_segs_lookup(
                    self.segs().take(i as int),
                    key@,
                ),
            decreases i,
        {
            i -= 1;
            proof {
                assert(self.segs().take(i + 1 as int).last() == self.segs()[i as int]);
                assert(self.segs().take(i + 1 as int).drop_last() =~= self.segs().take(i as int));
                assert(valid_segment(self.segs()[i as int]));
            }
            match SSTable::get(Some(&self.segments[i]), key) {
                Ok(Some(v)) => {
                    return Some(v);
                },
                Ok(None) => {},
                Err(_) => {},
            }
        }
        proof {
            assert(self.segs().take(0) =~= Seq::<Seq<u8>>::empty());
        }
        None
    }

    /// Writes `key -> value`: the put is logged first — nothing changes
    /// in memory unless its record is durable — then applied to memory,
    /// and a flush runs when the entry count reaches the threshold. The
    /// new pair answers reads at once, and no other key's answer moves.
    pub fn put(&mut self, key: String, value: String)
        requires
            old(self).wf(),
            clean_text(key@),
            clean_text(value@),
            key@.len() + value@.len() + 5 <= MAX_TEXT_CHARS,
        ensures
            final(self).wf(),
            final(self).lookup(key@) == Some(value@),
            forall|k: Seq<char>| k != key@ ==> final(self).lookup(k) == old(self).lookup(k),
            ({
                let grown = old(self).mem_map().insert(key@, value@);
                if grown.len() >= FLUSH_THRESHOLD {
                    &&& final(self).mem_map() == Map::<Seq<char>, Seq<char>>::empty()
                    &&& final(self).wal_view() == Seq::<Seq<char>>::empty()
                    &&& final(self).seg_count() == old(self).seg_count() + 1
                    &&& (forall|i: int|
                        0 <= i < old(self).seg_count() ==> final(self).segs()[i] == old(
                            self,
                        ).segs()[i])
                    &&& spec_decode_segment(final(self).segs().last()) matches Some(es)
                        && sorted_strict(es) && assoc_map(es) == grown
                } else {
                    &&& final(self).mem_map() == grown
                    &&& final(self).wal_view() == old(self).wal_view().push(
                        spec_put_line(key@, value@),
                    )
                    &&& final(self).segs() == old(self).segs()
                }
            }),
    {
        let ghost grown = old(self).mem_map().insert(key@, value@);
        self.wal.log_put(key.as_str(), value.as_str());
        proof {
            lemma_parse_put_line(key@, value@);
            lemma_replay_push(old(self).wal@, spec_put_line(key@, value@));
        }
        insert_entry(&mut self.data, key, value);
        proof {
            crate::kvmap::lemma_assoc_map_props(entry_views(self.data@));
        }
        if self.data.len() >= self.max_size {
            self.flush();
            proof {
                assert(self.lookup(key@) == Some(value@)) by {
                    lemma_segs_lookup_last(self.segs(), key@, grown);
                }
                assert forall|k: Seq<char>| k != key@ implies self.lookup(k) == old(
                    self,
                ).lookup(k) by {
                    lemma_segs_lookup_last(self.segs(), k, grown);
                    assert(self.segs().drop_last() =~= old(self).segs());
                }
            }
        }
    }

    /// Removes `key` from memory, logging the delete first, and hands
    /// back the removed value or absence. A delete never triggers a
    /// flush, and it only shadows the current memory: a key living
    /// solely in an already-flushed segment still answers reads, as the
    /// last two clauses state.
    pub fn delete(&mut self, key: &str) -> (r: Option<String>)
        requires
            old(self).wf(),
            clean_text(key@),
            key@.len() + 8 <= MAX_TEXT_CHARS,
        ensures
            final(self).wf(),
            final(self).mem_map() == old(self).mem_map().remove(key@),
            final(self).wal_view() == old(self).wal_view().push(spec_delete_line(key@)),
            final(self).segs() == old(self).segs(),
            match r {
                Some(v) => old(self).mem_map().contains_key(key@) && old(self).mem_map()[key@]
                    == v@,
                None => !old(self).mem_map().contains_key(key@),
            },
            final(self).lookup(key@) == final(self).segment_lookup(key@),
            forall|k: Seq<char>| k != key@ ==> final(self).lookup(k) == old(self).lookup(k),
    {
        self.wal.log_delete(key);
        proof {
            lemma_parse_delete_line(key@);
            lemma_replay_push(old(self).wal@, spec_delete_line(key@));
        }
        remove_entry(&mut self.data, key)
    }

    /// Serializes the current entries, sorted by key, as the next
    /// segment, then clears memory and starts a fresh log. With nothing
    /// in memory this is a no-op. The caller persisting the model must
    /// write the segment durably before it removes the old log file.
    fn flush(&mut self)
        requires
            keys_distinct(entry_views(old(self).data@)),
            forall|i: int|
                0 <= i < old(self).data@.len() ==> entry_fits(
                    #[trigger] entry_views(old(self).data@)[i],
                ),
            old(self).data@.len() <= 0xFFFF_FFFF,
            old(self).max_size == FLUSH_THRESHOLD,
            forall|i: int|
                0 <= i < old(self).segs().len() ==> valid_segment(#[trigger] old(self).segs()[i]),
        ensures
            old(self).data@.len() > 0 ==> final(self).wf(),
            old(self).data@.len() == 0 ==> *final(self) == *old(self),
            old(self).data@.len() > 0 ==> {
                &&& final(self).mem_map() == Map::<Seq<char>, Seq<char>>::empty()
                &&& final(self).wal_view() == Seq::<Seq<char>>::empty()
                &&& final(self).seg_count() == old(self).seg_count() + 1
                &&& (forall|i: int|
                    0 <= i < old(self).seg_count() ==> final(self).segs()[i] == old(
                        self,
                    ).segs()[i])
                &&& spec_decode_segment(final(self).segs().last()) matches Some(es)
                    && sorted_strict(es) && keys_distinct(es) && assoc_map(es) == old(
                    self,
                ).mem_map()
            },
    {
        if self.data.is_empty() {
            return ;
        }
        let sorted = sorted_copy(&self.data);
        proof {
            assert forall|i: int| 0 <= i < sorted@.len() implies entry_fits(
                #[trigger] entry_views(sorted@)[i],
            ) by {
                let j = choose|j: int|
                    0 <= j < self.data@.len() && entry_views(sorted@)[i] == #[trigger] entry_views(
                        self.data@,
                    )[j];
            }
        }
        let bytes = SSTable::write(&sorted);
        proof {
            lemma_segment_round_trip(entry_views(sorted@));
        }
        self.segments.push(bytes);
        self.data = Vec::new();
        self.wal = WriteAheadLog::new();
        proof {
            assert(entry_views(self.data@) =~= Seq::<SpecEntry>::empty());
            assert(replay_map(Seq::<Seq<char>>::empty()) =~= Map::<Seq<char>, Seq<char>>::empty());
            assert(self.segs() =~= old(self).segs().push(
                spec_encode_segment_of(sorted@),
            ));
        }
    }
}

/// The bytes a flush writes for these entries.
spec fn spec_encode_segment_of(sorted: Seq<(String, String)>) -> Seq<u8> {
    crate::sstable::spec_encode_segment(entry_views(sorted))
}

/// Looking up across segments ending in a block that holds `m`: the last
/// block answers when it holds the key, the older ones otherwise.
proof fn lemma_segs_lookup_last(segs: Seq<Seq<u8>>, key: Seq<char>, m: Map<Seq<char>, Seq<char>>)
    requires
        segs.len() > 0,
        spec_decode_segment(segs.last()) is Some,
        assoc_map(spec_decode_segment(segs.last()).unwrap()) == m,
    ensures
        spec_segs_lookup(segs, key) == if m.contains_key(key) {
            Some(m[key])
        } else {
            spec_segs_lookup(segs.drop_last(), key)
        },
{
    crate::kvmap::lemma_entries_lookup_assoc(spec_decode_segment(segs.last()).unwrap(), key);
}

} // verus!
