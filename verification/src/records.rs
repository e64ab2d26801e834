//! The record stream of the dirty log.
//!
//! A dirty log is a whole number of records laid out contiguously from
//! offset 0, each one a framed key followed by a framed value. Replay walks
//! that stream in arrival order; for every key the latest record wins, both
//! for the offset the memtable remembers and for the value a lookup returns.

use crate::codec::{entry_bytes, frame, lemma_parse_frame_extend, lemma_parse_frame_of_frame,
    parse_frame_at};
use vstd::prelude::*;

verus! {

/// One record of the dirty log: its key, its value, and the offset of its
/// first byte within the log.
pub struct Record {
    pub key: Seq<u8>,
    pub value: Seq<u8>,
    pub off: int,
}

/// Decode the records laid out in `data` from `pos` to the end, or `None`
/// if the bytes there are not a whole number of records.
pub open spec fn parse_records_from(data: Seq<u8>, pos: int) -> Option<Seq<Record>>
    decreases data.len() - pos,
        when 0 <= pos <= data.len()
{
    if pos == data.len() {
        Some(Seq::empty())
    } else {
        match parse_frame_at(data, pos) {
            None => None,
            Some((k, kend)) => match parse_frame_at(data, kend) {
                None => None,
                Some((v, vend)) => match parse_records_from(data, vend) {
                    None => None,
                    Some(rest) => Some(seq![Record { key: k, value: v, off: pos }] + rest),
                },
            },
        }
    }
}

/// The records of a whole dirty log.
pub open spec fn parse_records(data: Seq<u8>) -> Option<Seq<Record>> {
    parse_records_from(data, 0)
}

/// The memtable that replaying `recs` rebuilds: every key maps to the
/// offset of its latest record.
pub open spec fn replay_index(recs: Seq<Record>) -> Map<Seq<u8>, int>
    decreases recs.len(),
{
    if recs.len() == 0 {
        Map::empty()
    } else {
        replay_index(recs.drop_last()).insert(recs.last().key, recs.last().off)
    }
}

/// The key-value content of `recs`: every key maps to its latest value.
pub open spec fn log_view(recs: Seq<Record>) -> Map<Seq<u8>, Seq<u8>>
    decreases recs.len(),
{
    if recs.len() == 0 {
        Map::empty()
    } else {
        log_view(recs.drop_last()).insert(recs.last().key, recs.last().value)
    }
}

/// A key is known to replay exactly when some record carries it, and the
/// replayed offset map and the value map agree on which keys exist.
pub proof fn lemma_log_view_contains(recs: Seq<Record>, k: Seq<u8>)
    ensures
        log_view(recs).contains_key(k) <==> exists|i: int|
            0 <= i < recs.len() && #[trigger] recs[i].key == k,
        replay_index(recs).contains_key(k) <==> log_view(recs).contains_key(k),
    decreases recs.len(),
{
    if recs.len() > 0 {
        lemma_log_view_contains(recs.drop_last(), k);
        if recs.last().key == k {
            assert(recs[recs.len() - 1].key == k);
        } else {
            if log_view(recs).contains_key(k) {
                let i = choose|i: int|
                    0 <= i < recs.drop_last().len() && #[trigger] recs.drop_last()[i].key == k;
                assert(recs[i].key == k);
            }
            if exists|i: int| 0 <= i < recs.len() && #[trigger] recs[i].key == k {
                let i = choose|i: int| 0 <= i < recs.len() && #[trigger] recs[i].key == k;
                assert(recs.drop_last()[i].key == k);
            }
        }
    }
}

/// For a key that replay knows, some record carries that key, the replayed
/// offset, and the latest value, all at once.
pub proof fn lemma_replay_points_to(recs: Seq<Record>, k: Seq<u8>)
    requires
        log_view(recs).contains_key(k),
    ensures
        exists|i: int|
            {
                &&& 0 <= i < recs.len()
                &&& #[trigger] recs[i].key == k
                &&& recs[i].off == replay_index(recs)[k]
                &&& recs[i].value == log_view(recs)[k]
            },
    decreases recs.len(),
{
    let last = recs.last();
    if last.key == k {
        let i = recs.len() - 1;
        assert(recs[i].key == k && recs[i].off == replay_index(recs)[k] && recs[i].value
            == log_view(recs)[k]);
    } else {
        lemma_log_view_contains(recs.drop_last(), k);
        lemma_replay_points_to(recs.drop_last(), k);
        let i = choose|i: int|
            {
                &&& 0 <= i < recs.drop_last().len()
                &&& #[trigger] recs.drop_last()[i].key == k
                &&& recs.drop_last()[i].off == replay_index(recs.drop_last())[k]
                &&& recs.drop_last()[i].value == log_view(recs.drop_last())[k]
            };
        assert(recs[i].key == k && recs[i].off == replay_index(recs)[k] && recs[i].value
            == log_view(recs)[k]);
    }
}

/// Every decoded record sits at its stated offset: both of its frames
/// decode there, and the whole record fits inside the stream.
pub proof fn lemma_record_parses(data: Seq<u8>, pos: int, recs: Seq<Record>, i: int)
    requires
        0 <= pos <= data.len(),
        parse_records_from(data, pos) == Some(recs),
        0 <= i < recs.len(),
    ensures
        pos <= recs[i].off,
        recs[i].key.len() <= u32::MAX,
        recs[i].value.len() <= u32::MAX,
        recs[i].off + 8 + recs[i].key.len() + recs[i].value.len() <= data.len(),
        parse_frame_at(data, recs[i].off) == Some(
            (recs[i].key, recs[i].off + 4 + recs[i].key.len()),
        ),
        parse_frame_at(data, recs[i].off + 4 + recs[i].key.len()) == Some(
            (recs[i].value, recs[i].off + 8 + recs[i].key.len() + recs[i].value.len()),
        ),
    decreases i,
{
    match parse_frame_at(data, pos) {
        None => {
            assert(false);
        },
        Some((k, kend)) => {
            match parse_frame_at(data, kend) {
                None => {
                    assert(false);
                },
                Some((v, vend)) => {
                    match parse_records_from(data, vend) {
                        None => {
                            assert(false);
                        },
                        Some(rest) => {
                            if i == 0 {
                            } else {
                                assert(recs[i] == rest[i - 1]);
                                lemma_record_parses(data, vend, rest, i - 1);
                            }
                        },
                    }
                },
            }
        },
    }
}

/// Appending one framed record to a well-formed stream extends its decoded
/// record list by exactly that record, placed at the old end of the stream.
pub proof fn lemma_parse_records_append(
    data: Seq<u8>,
    pos: int,
    recs: Seq<Record>,
    k: Seq<u8>,
    v: Seq<u8>,
)
    requires
        0 <= pos <= data.len(),
        parse_records_from(data, pos) == Some(recs),
        k.len() <= u32::MAX,
        v.len() <= u32::MAX,
    ensures
        parse_records_from(data + entry_bytes(k, v), pos) == Some(
            recs.push(Record { key: k, value: v, off: data.len() as int }),
        ),
    decreases data.len() - pos,
{
    let whole = data + entry_bytes(k, v);
    let rec = Record { key: k, value: v, off: data.len() as int };
    if pos == data.len() {
        let kend = pos + 4 + k.len() as int;
        let vend = kend + 4 + v.len() as int;
        assert(whole.subrange(pos, kend) =~= frame(k)) by {
            assert forall|j: int| 0 <= j < 4 + k.len() implies #[trigger] whole.subrange(pos, kend)[j]
                == frame(k)[j] by {
                assert(whole[pos + j] == entry_bytes(k, v)[j]);
                assert(entry_bytes(k, v)[j] == frame(k)[j]);
            }
        }
        lemma_parse_frame_of_frame(whole, pos, k);
        assert(whole.subrange(kend, vend) =~= frame(v)) by {
            assert forall|j: int| 0 <= j < 4 + v.len() implies #[trigger] whole.subrange(kend, vend)[j]
                == frame(v)[j] by {
                assert(whole[kend + j] == entry_bytes(k, v)[4 + k.len() + j]);
                assert(entry_bytes(k, v)[4 + k.len() + j] == frame(v)[j]);
            }
        }
        lemma_parse_frame_of_frame(whole, kend, v);
        assert(vend == whole.len());
        assert(parse_records_from(whole, vend) == Some(Seq::<Record>::empty()));
        assert(recs.len() == 0);
        assert(seq![rec] + Seq::<Record>::empty() =~= recs.push(rec));
    } else {
        match parse_frame_at(data, pos) {
            None => {
                assert(false);
            },
            Some((k0, kend)) => {
                match parse_frame_at(data, kend) {
                    None => {
                        assert(false);
                    },
                    Some((v0, vend)) => {
                        match parse_records_from(data, vend) {
                            None => {
                                assert(false);
                            },
                            Some(rest) => {
                                lemma_parse_frame_extend(data, entry_bytes(k, v), pos);
                                lemma_parse_frame_extend(data, entry_bytes(k, v), kend);
                                lemma_parse_records_append(data, vend, rest, k, v);
                                assert(seq![Record { key: k0, value: v0, off: pos }] + rest.push(
                                    rec,
                                ) =~= (seq![Record { key: k0, value: v0, off: pos }] + rest).push(
                                    rec,
                                ));
                            },
                        }
                    },
                }
            },
        }
    }
}

} // verus!
