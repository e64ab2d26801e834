//! The storage engine.
//!
//! A `Database` holds the byte image of the dirty log, the memtable that
//! indexes it, and the ordered list of segment images, oldest first. `add`
//! appends a framed record to the log and indexes it; once the memtable
//! outgrows the dirty threshold, a flush rewrites it as a new sorted
//! segment and empties both the memtable and the log; once more than ten
//! segments accumulate, the two oldest are merged. `get` probes the
//! memtable first and then scans segments from newest to oldest.
//!
//! The engine's observable content is a single map from key to latest
//! value, and every operation's contract is stated against that map.

use crate::codec::{entry_bytes, parse_frame_at, read_entry, read_entry_to_vec, skip_entry,
    write_entry};
use crate::error::Error;
use crate::memtable::{lemma_mt_at, lemma_mt_dom_len, lemma_slots_distinct, mt_index, slot_has_key,
    Memtable, Slot};
use crate::records::{lemma_log_view_contains, lemma_parse_records_append, lemma_record_parses,
    lemma_replay_points_to, log_view, parse_records, parse_records_from, replay_index, Record};
use crate::segment::{encode_entries, entries_fit, keys_sorted, lemma_map_of_entries_at,
    lemma_map_of_entries_contains, lemma_segs_view_absent, lemma_segs_view_found,
    lemma_segs_view_push, map_of_entries, segs_view, Entry, Segment};
use vstd::prelude::*;

verus! {

/// The storage engine over in-memory file images.
pub struct Database {
    /// When the memtable grows past this, the next `add` flushes.
    dirty_thresholds: usize,
    /// The ordered index from key to the offset of its latest record.
    memtable: Memtable,
    /// The byte image of the append-only dirty log.
    dirty: Vec<u8>,
    /// The segment images, oldest first.
    segments: Vec<Segment>,
}

impl View for Database {
    type V = Map<Seq<u8>, Seq<u8>>;

    /// The observable content: segment content, oldest to newest, overlaid
    /// by the live records of the dirty log.
    closed spec fn view(&self) -> Map<Seq<u8>, Seq<u8>> {
        segs_view(self.segments@).union_prefer_right(log_view(self.records()))
    }
}

impl Database {
    /// The records of the dirty log, in arrival order.
    pub closed spec fn records(self) -> Seq<Record> {
        match parse_records(self.dirty@) {
            Some(recs) => recs,
            None => Seq::empty(),
        }
    }

    /// The bytes of the dirty log.
    pub closed spec fn dirty_log(self) -> Seq<u8> {
        self.dirty@
    }

    /// The flush threshold.
    pub closed spec fn threshold(self) -> int {
        self.dirty_thresholds as int
    }

    /// How many keys the memtable holds.
    pub closed spec fn mt_len(self) -> int {
        self.memtable.entries@.len() as int
    }

    /// The memtable as a map from key to dirty-log offset.
    pub closed spec fn mt_map(self) -> Map<Seq<u8>, int> {
        mt_index(self.memtable.entries@)
    }

    /// The segments, oldest first.
    pub closed spec fn seg_seq(self) -> Seq<Segment> {
        self.segments@
    }

    /// The id the next flushed segment will take.
    pub open spec fn next_seg_id(self) -> int {
        if self.seg_seq().len() == 0 {
            0
        } else {
            self.seg_seq().last().spec_id() + 1
        }
    }

    /// The next segment id is still representable.
    pub open spec fn id_headroom(self) -> bool {
        self.seg_seq().len() == 0 || self.seg_seq().last().spec_id() < usize::MAX
    }

    /// The engine invariant: the dirty log is a whole number of records,
    /// the memtable is exactly the log's replay index, and the segments
    /// are well-formed with strictly ascending ids.
    pub closed spec fn wf(self) -> bool {
        &&& parse_records(self.dirty@) is Some
        &&& self.memtable.wf()
        &&& self.mt_map() == replay_index(self.records())
        &&& (forall|i: int| 0 <= i < self.segments@.len() ==> (#[trigger] self.segments@[i]).wf())
        &&& (forall|i: int, j: int|
            0 <= i < j < self.segments@.len() ==> self.segments@[i].spec_id()
                < self.segments@[j].spec_id())
    }

    /// Whether an `add` of key `k` would trigger a flush: the memtable
    /// size after the insertion strictly exceeds the threshold.
    pub open spec fn add_would_flush(self, k: Seq<u8>) -> bool {
        self.mt_len() + (if self.mt_map().contains_key(k) {
            0int
        } else {
            1int
        }) > self.threshold()
    }

    /// Open an engine over the bytes of a dirty log, replaying it to
    /// rebuild the memtable. A log that stops in the middle of a record is
    /// rejected. The segment list starts empty and the threshold at its
    /// default.
    pub fn new(dirty: Vec<u8>) -> (r: Result<Database, Error>)
        ensures
            match r {
                Ok(db) => {
                    &&& parse_records(dirty@) == Some(db.records())
                    &&& db.wf()
                    &&& db.dirty_log() == dirty@
                    &&& db.mt_map() == replay_index(db.records())
                    &&& db.mt_map().dom().finite()
                    &&& db.mt_len() == db.mt_map().dom().len()
                    &&& db.seg_seq().len() == 0
                    &&& db.threshold() == 1024
                    &&& db@ == log_view(db.records())
                    &&& db.id_headroom()
                },
                Err(e) => parse_records(dirty@) is None && e == Error::UnexpectedEnd,
            },
    {
        let memtable = match Self::init_memtable(&dirty) {
            Ok(m) => m,
            Err(e) => {
                return Err(e);
            },
        };
        let db = Database { dirty_thresholds: 1024, memtable, dirty, segments: Vec::new() };
        proof {
            assert(segs_view(db.segments@) =~= Map::<Seq<u8>, Seq<u8>>::empty());
            assert(db@ =~= log_view(db.records()));
            lemma_mt_dom_len(db.memtable.entries@);
        }
        Ok(db)
    }

    /// Rebuild the memtable by scanning the dirty log from offset 0,
    /// recording each record's starting offset and stepping over its value.
    #[verifier::loop_isolation(false)]
    fn init_memtable(dirty: &Vec<u8>) -> (r: Result<Memtable, Error>)
        ensures
            match r {
                Ok(m) => {
                    &&& parse_records(dirty@) is Some
                    &&& m.wf()
                    &&& mt_index(m.entries@) == replay_index(
                        match parse_records(dirty@) {
                            Some(recs) => recs,
                            None => Seq::empty(),
                        },
                    )
                },
                Err(e) => parse_records(dirty@) is None && e == Error::UnexpectedEnd,
            },
    {
        let mut mt = Memtable::new();
        let data = dirty.as_slice();
        let mut pos: usize = 0;
        let ghost mut processed: Seq<Record> = Seq::empty();
        let mut key_buf: Vec<u8> = Vec::new();
        proof {
            assert(replay_index(processed) =~= Map::<Seq<u8>, int>::empty());
        }
        while pos < dirty.len()
            invariant
                0 <= pos <= dirty@.len(),
                mt.wf(),
                mt_index(mt.entries@) == replay_index(processed),
                match parse_records_from(dirty@, pos as int) {
                    Some(rest) => parse_records(dirty@) == Some(processed + rest),
                    None => parse_records(dirty@) is None,
                },
            decreases dirty@.len() - pos,
        {
            let kstart = pos;
            match read_entry(data, pos, &mut key_buf) {
                None => {
                    return Err(Error::UnexpectedEnd);
                },
                Some(kend) => {
                    match skip_entry(data, kend) {
                        None => {
                            return Err(Error::UnexpectedEnd);
                        },
                        Some(vend) => {
                            mt.insert(key_buf.as_slice(), kstart as u64);
                            proof {
                                let vpayload = parse_frame_at(dirty@, kend as int)->Some_0.0;
                                let rec = Record {
                                    key: key_buf@,
                                    value: vpayload,
                                    off: kstart as int,
                                };
                                assert(parse_records_from(dirty@, kstart as int) == (
                                match parse_records_from(dirty@, vend as int) {
                                    Some(rest) => Some(seq![rec] + rest),
                                    None => None,
                                }));
                                match parse_records_from(dirty@, vend as int) {
                                    Some(rest) => {
                                        assert(processed + (seq![rec] + rest) =~= processed.push(
                                            rec,
                                        ) + rest);
                                    },
                                    None => {},
                                }
                                assert(processed.push(rec).drop_last() =~= processed);
                                processed = processed.push(rec);
                            }
                            pos = vend;
                        },
                    }
                },
            }
        }
        proof {
            assert(parse_records_from(dirty@, pos as int) == Some(Seq::<Record>::empty()));
            assert(processed + Seq::<Record>::empty() =~= processed);
        }
        Ok(mt)
    }

    /// Set the dirty threshold. Nothing else changes; in particular a
    /// memtable already over the new threshold is not flushed until the
    /// next `add`.
    pub fn dirty_thresholds(&mut self, threshold: usize)
        requires
            old(self).wf(),
        ensures
            final(self).wf(),
            final(self).threshold() == threshold as int,
            final(self)@ == old(self)@,
            final(self).dirty_log() == old(self).dirty_log(),
            final(self).mt_map() == old(self).mt_map(),
            final(self).mt_len() == old(self).mt_len(),
            final(self).seg_seq() == old(self).seg_seq(),
            final(self).id_headroom() == old(self).id_headroom(),
    {
        self.dirty_thresholds = threshold;
    }

    /// Add a pair: reject oversized keys and values, append the framed
    /// record to the dirty log, index it in the memtable, and flush if the
    /// memtable has outgrown the threshold. The engine's content gains
    /// exactly this binding.
    pub fn add(&mut self, key: &[u8], value: &[u8]) -> (r: Result<(), Error>)
        requires
            old(self).wf(),
            old(self).id_headroom(),
        ensures
            match r {
                Ok(_) => {
                    &&& key@.len() <= u32::MAX
                    &&& value@.len() <= u32::MAX
                    &&& final(self).wf()
                    &&& final(self)@ == old(self)@.insert(key@, value@)
                    &&& final(self).threshold() == old(self).threshold()
                    &&& (!old(self).add_would_flush(key@) ==> {
                        &&& final(self).dirty_log() == old(self).dirty_log() + entry_bytes(
                            key@,
                            value@,
                        )
                        &&& final(self).mt_map() == old(self).mt_map().insert(
                            key@,
                            old(self).dirty_log().len() as int,
                        )
                        &&& final(self).mt_len() == old(self).mt_len() + (if old(
                            self,
                        ).mt_map().contains_key(key@) {
                            0int
                        } else {
                            1int
                        })
                        &&& final(self).seg_seq() == old(self).seg_seq()
                    })
                    &&& (old(self).add_would_flush(key@) ==> {
                        &&& final(self).mt_len() == 0
                        &&& final(self).dirty_log() == Seq::<u8>::empty()
                        &&& final(self).seg_seq().len() >= 1
                        &&& keys_sorted(final(self).seg_seq().last()@)
                        &&& map_of_entries(final(self).seg_seq().last()@) == log_view(
                            old(self).records(),
                        ).insert(key@, value@)
                        &&& final(self).seg_seq().last().spec_id() == old(self).next_seg_id()
                        &&& (old(self).seg_seq().len() < 10 ==> final(self).seg_seq() == old(
                            self,
                        ).seg_seq().push(final(self).seg_seq().last()))
                        &&& (old(self).seg_seq().len() >= 10 ==> final(self).seg_seq().len() == old(
                            self,
                        ).seg_seq().len())
                    })
                },
                Err(e) => {
                    &&& *final(self) == *old(self)
                    &&& (key@.len() > u32::MAX || value@.len() > u32::MAX)
                    &&& (key@.len() > u32::MAX ==> e == Error::KeyTooLarge(key@.len() as usize))
                    &&& (key@.len() <= u32::MAX ==> e == Error::ValueTooLarge(
                        value@.len() as usize,
                    ))
                },
            },
    {
        if key.len() > u32::MAX as usize {
            return Err(Error::KeyTooLarge(key.len()));
        }
        if value.len() > u32::MAX as usize {
            return Err(Error::ValueTooLarge(value.len()));
        }
        let ghost old_recs = self.records();
        let ghost old_view = self@;
        let pos = self.dirty.len() as u64;
        // the record reaches the log image before the index is updated
        write_entry(&mut self.dirty, key, value);
        proof {
            lemma_parse_records_append(old(self).dirty@, 0, old_recs, key@, value@);
            let rec = Record { key: key@, value: value@, off: old(self).dirty@.len() as int };
            assert(self.records() == old_recs.push(rec));
            assert(old_recs.push(rec).drop_last() =~= old_recs);
        }
        self.memtable.insert(key, pos);
        proof {
            assert(self.mt_map() == replay_index(self.records()));
            assert(log_view(self.records()) == log_view(old_recs).insert(key@, value@));
            assert(self@ =~= old_view.insert(key@, value@));
        }
        if self.memtable.entries.len() > self.dirty_thresholds {
            match self.flush_dirty() {
                Ok(_) => {},
                Err(e) => {
                    return Err(e);
                },
            }
        }
        Ok(())
    }

    /// Look up the latest value for a key: in the dirty log if the
    /// memtable knows the key, otherwise in the newest segment that holds
    /// it. Returns the engine's content at that key.
    pub fn get(&self, key: &[u8]) -> (r: Result<Option<Vec<u8>>, Error>)
        requires
            self.wf(),
        ensures
            match r {
                Ok(found) => match found {
                    Some(v) => self@.contains_key(key@) && v@ == self@[key@],
                    None => !self@.contains_key(key@),
                },
                Err(_) => false,
            },
    {
        let off = match self.memtable.get(key) {
            Some(off) => off,
            None => {
                proof {
                    lemma_log_view_contains(self.records(), key@);
                }
                return self.get_from_segments(key);
            },
        };
        proof {
            lemma_log_view_contains(self.records(), key@);
            lemma_replay_points_to(self.records(), key@);
            let i = choose|i: int|
                {
                    &&& 0 <= i < self.records().len()
                    &&& #[trigger] self.records()[i].key == key@
                    &&& self.records()[i].off == replay_index(self.records())[key@]
                    &&& self.records()[i].value == log_view(self.records())[key@]
                };
            lemma_record_parses(self.dirty@, 0, self.records(), i);
        }
        let dlen = self.dirty.len();
        proof {
            assert(off as int + 4 + key@.len() <= dlen as int);
        }
        let start = (off as usize) + 4 + key.len();
        match read_entry_to_vec(self.dirty.as_slice(), start) {
            Some((v, _end)) => Ok(Some(v)),
            None => {
                proof {
                    assert(false);
                }
                Err(Error::UnexpectedEnd)
            },
        }
    }

    /// Scan the segments from newest to oldest and return the first hit.
    #[verifier::loop_isolation(false)]
    fn get_from_segments(&self, key: &[u8]) -> (r: Result<Option<Vec<u8>>, Error>)
        requires
            self.wf(),
        ensures
            match r {
                Ok(found) => match found {
                    Some(v) => segs_view(self.segments@).contains_key(key@) && v@ == segs_view(
                        self.segments@,
                    )[key@],
                    None => !segs_view(self.segments@).contains_key(key@),
                },
                Err(_) => false,
            },
    {
        let mut idx = self.segments.len();
        while idx > 0
            invariant
                0 <= idx <= self.segments@.len(),
                forall|n: int|
                    idx <= n < self.segments@.len() ==> !(#[trigger] map_of_entries(
                        self.segments@[n]@,
                    )).contains_key(key@),
            decreases idx,
        {
            idx = idx - 1;
            match self.segments[idx].get(key) {
                Some(v) => {
                    proof {
                        lemma_segs_view_found(self.segments@, idx as int, key@);
                    }
                    return Ok(Some(v));
                },
                None => {},
            }
        }
        proof {
            lemma_segs_view_absent(self.segments@, key@);
        }
        Ok(None)
    }

    /// Rewrite the memtable and dirty log as one new sorted segment:
    /// stream the memtable's pairs in key order, reading each value from
    /// the log; append the segment under the next id; clear the memtable
    /// and the log; and merge the two oldest segments once more than ten
    /// have accumulated. The engine's content is unchanged.
    #[verifier::loop_isolation(false)]
    pub fn flush_dirty(&mut self) -> (r: Result<(), Error>)
        requires
            old(self).wf(),
            old(self).id_headroom(),
        ensures
            r is Ok,
            final(self).wf(),
            final(self)@ == old(self)@,
            final(self).threshold() == old(self).threshold(),
            final(self).mt_len() == 0,
            final(self).mt_map() == Map::<Seq<u8>, int>::empty(),
            final(self).dirty_log() == Seq::<u8>::empty(),
            final(self).seg_seq().len() >= 1,
            final(self).seg_seq().last().wf(),
            keys_sorted(final(self).seg_seq().last()@),
            map_of_entries(final(self).seg_seq().last()@) == log_view(old(self).records()),
            final(self).seg_seq().last().spec_id() == old(self).next_seg_id(),
            old(self).seg_seq().len() < 10 ==> final(self).seg_seq() == old(self).seg_seq().push(
                final(self).seg_seq().last(),
            ),
            old(self).seg_seq().len() >= 10 ==> {
                &&& final(self).seg_seq().len() == old(self).seg_seq().len()
                &&& final(self).seg_seq().skip(1) == old(self).seg_seq().skip(2).push(
                    final(self).seg_seq().last(),
                )
                &&& final(self).seg_seq()[0].spec_id() == old(self).seg_seq()[0].spec_id()
                &&& map_of_entries(final(self).seg_seq()[0]@) == map_of_entries(
                    old(self).seg_seq()[0]@,
                ).union_prefer_right(map_of_entries(old(self).seg_seq()[1]@))
            },
    {
        let ghost old_recs = self.records();
        let ghost old_view = self@;
        let ghost slots = self.memtable.entries@;
        // stream the memtable out in ascending key order, pulling each
        // value from the dirty log
        let mut entries: Vec<Entry> = Vec::new();
        let n = self.memtable.entries.len();
        let dlen = self.dirty.len();
        let mut i: usize = 0;
        while i < n
            invariant
                0 <= i <= n,
                entries@.len() == i as int,
                forall|p: int|
                    0 <= p < i ==> (#[trigger] entries@[p]).key@ == slots[p].key@
                        && entries@[p].value@ == log_view(old_recs)[slots[p].key@],
                entries_fit(entries@),
            decreases n - i,
        {
            let off = self.memtable.entries[i].off;
            let klen = self.memtable.entries[i].key.len();
            proof {
                lemma_mt_at(slots, i as int);
                let k = slots[i as int].key@;
                lemma_log_view_contains(old_recs, k);
                lemma_replay_points_to(old_recs, k);
                let i2 = choose|i2: int|
                    {
                        &&& 0 <= i2 < old_recs.len()
                        &&& #[trigger] old_recs[i2].key == k
                        &&& old_recs[i2].off == replay_index(old_recs)[k]
                        &&& old_recs[i2].value == log_view(old_recs)[k]
                    };
                lemma_record_parses(self.dirty@, 0, old_recs, i2);
                assert(off as int + 4 + klen as int <= dlen as int);
            }
            let start = (off as usize) + 4 + klen;
            match read_entry_to_vec(self.dirty.as_slice(), start) {
                Some((value, _end)) => {
                    let kv = vstd::slice::slice_to_vec(self.memtable.entries[i].key.as_slice());
                    let ghost prev = entries@;
                    entries.push(Entry { key: kv, value });
                    proof {
                        assert(entries@ == prev.push(entries@[i as int]));
                    }
                },
                None => {
                    proof {
                        assert(false);
                    }
                    return Err(Error::UnexpectedEnd);
                },
            }
            i = i + 1;
        }
        proof {
            // the run is sorted because the memtable is, and it denotes
            // exactly the live content of the dirty log
            assert forall|p: int, q: int|
                0 <= p < q < entries@.len() implies crate::order::lex_lt(
                entries@[p].key@,
                entries@[q].key@,
            ) by {}
            assert forall|x: Seq<u8>| #[trigger] map_of_entries(entries@).contains_key(x)
                <==> log_view(old_recs).contains_key(x) by {
                lemma_map_of_entries_contains(entries@, x);
                lemma_log_view_contains(old_recs, x);
                if log_view(old_recs).contains_key(x) {
                    assert(slot_has_key(slots, x));
                    let c = choose|c: int| 0 <= c < slots.len() && (#[trigger] slots[c].key@) == x;
                    assert(entries@[c].key@ == x);
                }
                if map_of_entries(entries@).contains_key(x) {
                    let c = choose|c: int|
                        0 <= c < entries@.len() && (#[trigger] entries@[c].key@) == x;
                    assert(slots[c].key@ == x);
                    assert(slot_has_key(slots, x));
                }
            }
            assert forall|x: Seq<u8>| #[trigger] log_view(old_recs).contains_key(x) implies
                map_of_entries(entries@)[x] == log_view(old_recs)[x] by {
                assert(map_of_entries(entries@).contains_key(x));
                lemma_map_of_entries_contains(entries@, x);
                let c = choose|c: int| 0 <= c < entries@.len() && (#[trigger] entries@[c].key@) == x;
                assert forall|q: int|
                    0 <= q < entries@.len() && q != c implies (#[trigger] entries@[q].key@)
                    != entries@[c].key@ by {
                    lemma_slots_distinct(slots, q, c);
                }
                lemma_map_of_entries_at(entries@, c);
            }
            assert(map_of_entries(entries@) =~= log_view(old_recs));
        }
        // name the new segment and reset the write path
        let seg_id = if self.segments.len() == 0 {
            0
        } else {
            self.segments[self.segments.len() - 1].id() + 1
        };
        self.memtable.entries.clear();
        self.dirty.clear();
        let seg = Segment { id: seg_id, entries };
        let ghost gseg = seg;
        let ghost mid_segs = self.segments@.push(gseg);
        self.segments.push(seg);
        proof {
            assert(parse_records(self.dirty@) == Some(Seq::<Record>::empty()));
            assert(self.mt_map() =~= Map::<Seq<u8>, int>::empty());
            assert(replay_index(Seq::<Record>::empty()) =~= Map::<Seq<u8>, int>::empty());
            assert(gseg.wf());
            assert forall|c: int| 0 <= c < self.segments@.len() implies (
            #[trigger] self.segments@[c]).wf() by {
                if c < self.segments@.len() - 1 {
                    assert(self.segments@[c] == old(self).segments@[c]);
                } else {
                    assert(self.segments@[c] == gseg);
                }
            }
            assert forall|a: int, b: int|
                0 <= a < b < self.segments@.len() implies self.segments@[a].spec_id()
                < self.segments@[b].spec_id() by {
                if b == self.segments@.len() - 1 {
                    let olen2 = old(self).segments@.len() as int;
                    assert(old(self).segments@[a].spec_id() <= old(self).segments@[olen2
                        - 1].spec_id());
                }
            }
            assert(self.wf());
            // the content is unchanged: the new segment holds exactly what
            // the dirty log held
            lemma_segs_view_push(old(self).segments@, gseg);
            assert(log_view(self.records()) =~= Map::<Seq<u8>, Seq<u8>>::empty());
            assert(self@ =~= segs_view(old(self).segments@).union_prefer_right(
                map_of_entries(gseg@),
            ));
            assert(self@ =~= old_view);
            assert(self.segments@.last() == gseg);
        }
        if self.segments.len() > 10 {
            let ghost pre = *self;
            match self.merge_segment() {
                Ok(_) => {},
                Err(e) => {
                    return Err(e);
                },
            }
            proof {
                assert(pre.seg_seq() == mid_segs);
                assert(mid_segs.skip(2) =~= old(self).seg_seq().skip(2).push(gseg));
                assert(self.seg_seq().skip(1) == mid_segs.skip(2));
                let flen = self.seg_seq().len() as int;
                assert(self.seg_seq().last() == self.seg_seq().skip(1)[flen - 2]);
                assert(self.seg_seq().last() == gseg);
            }
        }
        Ok(())
    }

    /// Merge the two oldest segments into one that replaces them at the
    /// front of the list, keeping the older id. The newer segment's values
    /// win on duplicate keys, so the engine's content is unchanged and the
    /// list shrinks by one.
    pub fn merge_segment(&mut self) -> (r: Result<(), Error>)
        requires
            old(self).wf(),
            old(self).seg_seq().len() >= 2,
        ensures
            r is Ok,
            final(self).wf(),
            final(self)@ == old(self)@,
            final(self).threshold() == old(self).threshold(),
            final(self).dirty_log() == old(self).dirty_log(),
            final(self).mt_map() == old(self).mt_map(),
            final(self).mt_len() == old(self).mt_len(),
            final(self).seg_seq().len() == old(self).seg_seq().len() - 1,
            final(self).seg_seq().skip(1) == old(self).seg_seq().skip(2),
            final(self).seg_seq()[0].wf(),
            final(self).seg_seq()[0].spec_id() == old(self).seg_seq()[0].spec_id(),
            map_of_entries(final(self).seg_seq()[0]@) == map_of_entries(
                old(self).seg_seq()[0]@,
            ).union_prefer_right(map_of_entries(old(self).seg_seq()[1]@)),
    {
        let ghost s_orig = self.segments@;
        let old_seg = self.segments.remove(0);
        let new_seg = self.segments.remove(0);
        let merged = Segment::merge(&new_seg, &old_seg);
        let ghost gmerged = merged;
        self.segments.insert(0, merged);
        proof {
            assert(old_seg == s_orig[0] && new_seg == s_orig[1]);
            assert(self.segments@ =~= seq![gmerged] + s_orig.skip(2));
            assert(self.segments@.skip(1) =~= s_orig.skip(2));
            // the combined segment content is unchanged
            assert(s_orig.skip(1)[0] == s_orig[1]);
            assert(s_orig.skip(1).skip(1) =~= s_orig.skip(2));
            assert(self.segments@[0] == gmerged);
            let m0 = map_of_entries(s_orig[0]@);
            let m1 = map_of_entries(s_orig[1]@);
            let rest = segs_view(s_orig.skip(2));
            assert(segs_view(s_orig.skip(1)) == m1.union_prefer_right(rest));
            assert(segs_view(s_orig) == m0.union_prefer_right(m1.union_prefer_right(rest)));
            assert(segs_view(self.segments@) == map_of_entries(gmerged@).union_prefer_right(rest));
            assert(map_of_entries(gmerged@) == m0.union_prefer_right(m1));
            assert(segs_view(self.segments@) =~= segs_view(s_orig));
            assert(self@ =~= old(self)@);
            assert(gmerged.spec_id() == s_orig[0].spec_id());
            assert forall|c: int| 0 <= c < self.segments@.len() implies (
            #[trigger] self.segments@[c]).wf() by {
                if c > 0 {
                    assert(self.segments@[c] == s_orig[c + 1]);
                }
            }
            assert forall|a: int, b: int|
                0 <= a < b < self.segments@.len() implies self.segments@[a].spec_id()
                < self.segments@[b].spec_id() by {
                assert(self.segments@[b] == s_orig[b + 1]);
                if a == 0 {
                    assert(s_orig[0].spec_id() < s_orig[b + 1].spec_id());
                } else {
                    assert(self.segments@[a] == s_orig[a + 1]);
                    assert(s_orig[a + 1].spec_id() < s_orig[b + 1].spec_id());
                }
            }
            assert(self.wf());
        }
        Ok(())
    }

    /// A copy of the dirty log's bytes.
    pub fn dirty_bytes(&self) -> (r: Vec<u8>)
        ensures
            r@ == self.dirty_log(),
    {
        vstd::slice::slice_to_vec(self.dirty.as_slice())
    }

    /// How many keys the memtable holds.
    pub fn memtable_len(&self) -> (r: usize)
        ensures
            r as int == self.mt_len(),
    {
        self.memtable.entries.len()
    }

    /// The dirty-log offset the memtable records for `key`, if any.
    pub fn memtable_offset(&self, key: &[u8]) -> (r: Option<u64>)
        requires
            self.wf(),
        ensures
            match r {
                Some(off) => self.mt_map().contains_key(key@) && off as int == self.mt_map()[key@],
                None => !self.mt_map().contains_key(key@),
            },
    {
        self.memtable.get(key)
    }

    /// How many segments the engine holds.
    pub fn segment_count(&self) -> (r: usize)
        ensures
            r as int == self.seg_seq().len(),
    {
        self.segments.len()
    }

    /// The id of segment `i`, counting from the oldest.
    pub fn segment_id(&self, i: usize) -> (r: usize)
        requires
            i < self.seg_seq().len(),
        ensures
            r as int == self.seg_seq()[i as int].spec_id(),
    {
        self.segments[i].id()
    }

    /// The byte image of segment `i`, written into `buf`.
    pub fn dump_segment(&self, i: usize, buf: &mut Vec<u8>)
        requires
            self.wf(),
            i < self.seg_seq().len(),
        ensures
            final(buf)@ == encode_entries(self.seg_seq()[i as int]@),
    {
        self.segments[i].dump(buf)
    }
}

/// The engine invariant, spelled out for callers: the dirty log of a
/// well-formed engine parses as its record list, the memtable is that
/// list's replay index with one slot per live key, and the content is the
/// segments' combined content overlaid by the log's.
pub proof fn lemma_wf_content(d: Database)
    requires
        d.wf(),
    ensures
        parse_records(d.dirty_log()) == Some(d.records()),
        d.mt_map() == replay_index(d.records()),
        d.mt_map().dom().finite(),
        d.mt_len() == d.mt_map().dom().len(),
        d@ == segs_view(d.seg_seq()).union_prefer_right(log_view(d.records())),
{
    lemma_mt_dom_len(d.memtable.entries@);
}

/// Durability across open: an engine whose segments have all been merged
/// away or never created — the open procedure rebuilds from the dirty log
/// alone — reads the same as any engine rebuilt over the same log bytes.
/// The log of a well-formed engine always replays cleanly.
pub proof fn lemma_durability_across_open(d: Database, d2: Database)
    requires
        d.wf(),
        d.seg_seq().len() == 0,
        d2.wf(),
        d2.seg_seq().len() == 0,
        d2.dirty_log() == d.dirty_log(),
    ensures
        parse_records(d.dirty_log()) is Some,
        d2@ == d@,
{
    assert(d.records() == d2.records());
    assert(d@ =~= d2@);
}

/// A fresh engine — empty dirty log, no segments — holds nothing.
pub proof fn lemma_fresh_database_empty(d: Database)
    requires
        d.wf(),
        d.seg_seq().len() == 0,
        d.dirty_log() == Seq::<u8>::empty(),
    ensures
        d@ == Map::<Seq<u8>, Seq<u8>>::empty(),
{
    assert(parse_records(d.dirty_log()) == Some(Seq::<Record>::empty()));
    assert(d@ =~= Map::<Seq<u8>, Seq<u8>>::empty());
}

} // verus!
