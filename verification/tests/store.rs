use kvlog::segment::{Entry, Segment};
use kvlog::Database;

#[test]
fn insert_and_get() {
    let mut database = Database::new(Vec::new()).unwrap();

    database.add(b"hello", b"world").unwrap();
    assert_eq!(database.memtable_len(), 1);
    assert_eq!(database.memtable_offset(b"hello"), Some(0));
    assert_eq!(
        database.dirty_bytes(),
        vec![0, 0, 0, 5, 104, 101, 108, 108, 111, 0, 0, 0, 5, 119, 111, 114, 108, 100]
    );

    let v = database.get(b"hello").unwrap();
    assert_eq!(v.as_deref(), Some(&b"world"[..]));
    let v = database.get(b"hemlo").unwrap();
    assert_eq!(v.as_deref(), None);
    assert_eq!(v.as_deref(), None);
}

#[test]
fn empty_key() {
    let mut database = Database::new(Vec::new()).unwrap();

    database.add(b"", b"riengue").unwrap();
    assert_eq!(database.memtable_len(), 1);
    assert_eq!(database.memtable_offset(b""), Some(0));
    assert_eq!(
        database.dirty_bytes(),
        vec![0, 0, 0, 0, 0, 0, 0, 7, 114, 105, 101, 110, 103, 117, 101]
    );

    let v = database.get(b"").unwrap();
    assert_eq!(v.as_deref(), Some(&b"riengue"[..]));
}

#[test]
fn empty_value() {
    let mut database = Database::new(Vec::new()).unwrap();

    database.add(b"riengue", b"").unwrap();
    assert_eq!(database.memtable_len(), 1);
    assert_eq!(database.memtable_offset(b"riengue"), Some(0));
    assert_eq!(
        database.dirty_bytes(),
        vec![0, 0, 0, 7, 114, 105, 101, 110, 103, 117, 101, 0, 0, 0, 0]
    );

    let v = database.get(b"riengue").unwrap();
    assert_eq!(v.as_deref(), Some(&b""[..]));
}

#[test]
fn merge() {
    let mut database = Database::new(Vec::new()).unwrap();

    // make a first segment
    database.add(b"hello", b"world").unwrap();
    database.add(b"tamo", b"kefir").unwrap();
    database.add(b"a", b"b").unwrap();
    database.flush_dirty().unwrap();

    // make a second clean segment out of the memtable
    database.add(b"hello", b"tamo").unwrap();
    database.add(b"b", b"c").unwrap();
    database.flush_dirty().unwrap();

    assert_eq!(database.memtable_len(), 0);
    assert_eq!(database.dirty_bytes(), Vec::<u8>::new());
    assert_eq!(database.segment_count(), 2);
    let mut buf = Vec::new();
    database.dump_segment(0, &mut buf);
    assert_eq!(
        buf,
        vec![
            0, 0, 0, 1, 97, 0, 0, 0, 1, 98, 0, 0, 0, 5, 104, 101, 108, 108, 111, 0, 0, 0, 5, 119,
            111, 114, 108, 100, 0, 0, 0, 4, 116, 97, 109, 111, 0, 0, 0, 5, 107, 101, 102, 105, 114
        ]
    );
    database.dump_segment(1, &mut buf);
    assert_eq!(
        buf,
        vec![
            0, 0, 0, 1, 98, 0, 0, 0, 1, 99, 0, 0, 0, 5, 104, 101, 108, 108, 111, 0, 0, 0, 4, 116,
            97, 109, 111
        ]
    );

    database.merge_segment().unwrap();
    assert_eq!(database.segment_count(), 1);
    database.dump_segment(0, &mut buf);
    assert_eq!(
        buf,
        vec![
            0, 0, 0, 1, 97, 0, 0, 0, 1, 98, 0, 0, 0, 1, 98, 0, 0, 0, 1, 99, 0, 0, 0, 5, 104, 101,
            108, 108, 111, 0, 0, 0, 4, 116, 97, 109, 111, 0, 0, 0, 4, 116, 97, 109, 111, 0, 0, 0,
            5, 107, 101, 102, 105, 114
        ]
    );
}

#[test]
fn create_and_get_in_clean_segment() {
    let mut database = Database::new(Vec::new()).unwrap();
    database.dirty_thresholds(2);

    database.add(b"hello", b"world").unwrap();
    assert_eq!(database.memtable_len(), 1);
    assert_eq!(database.memtable_offset(b"hello"), Some(0));
    assert_eq!(
        database.dirty_bytes(),
        vec![0, 0, 0, 5, 104, 101, 108, 108, 111, 0, 0, 0, 5, 119, 111, 114, 108, 100]
    );
    database.add(b"tamo", b"world").unwrap();
    assert_eq!(database.memtable_len(), 2);
    assert_eq!(database.memtable_offset(b"hello"), Some(0));
    assert_eq!(database.memtable_offset(b"tamo"), Some(18));
    assert_eq!(
        database.dirty_bytes(),
        vec![
            0, 0, 0, 5, 104, 101, 108, 108, 111, 0, 0, 0, 5, 119, 111, 114, 108, 100, 0, 0, 0, 4,
            116, 97, 109, 111, 0, 0, 0, 5, 119, 111, 114, 108, 100
        ]
    );
    database.add(b"patou", b"world").unwrap();
    assert_eq!(database.memtable_len(), 0);
    assert_eq!(database.dirty_bytes(), Vec::<u8>::new());
    assert_eq!(database.segment_count(), 1);
    let mut buf = Vec::new();
    database.dump_segment(0, &mut buf);
    assert_eq!(
        buf,
        vec![
            0, 0, 0, 5, 104, 101, 108, 108, 111, 0, 0, 0, 5, 119, 111, 114, 108, 100, 0, 0, 0, 5,
            112, 97, 116, 111, 117, 0, 0, 0, 5, 119, 111, 114, 108, 100, 0, 0, 0, 4, 116, 97, 109,
            111, 0, 0, 0, 5, 119, 111, 114, 108, 100
        ]
    );
    let v = database.get(b"hello").unwrap();
    assert_eq!(v.as_deref(), Some(&b"world"[..]));
}

#[test]
fn reload_memtable() {
    let mut database = Database::new(Vec::new()).unwrap();

    database.add(b"hello", b"world").unwrap();
    database.add(b"tamo", b"world").unwrap();

    let bytes = database.dirty_bytes();
    drop(database);
    // dropping the previous database and opening a new one over the same
    // dirty log bytes
    let database = Database::new(bytes).unwrap();
    assert_eq!(database.memtable_len(), 2);
    assert_eq!(database.memtable_offset(b"hello"), Some(0));
    assert_eq!(database.memtable_offset(b"tamo"), Some(18));
    assert_eq!(
        database.dirty_bytes(),
        vec![
            0, 0, 0, 5, 104, 101, 108, 108, 111, 0, 0, 0, 5, 119, 111, 114, 108, 100, 0, 0, 0, 4,
            116, 97, 109, 111, 0, 0, 0, 5, 119, 111, 114, 108, 100
        ]
    );
}

#[test]
fn latest_wins_in_memtable() {
    let mut database = Database::new(Vec::new()).unwrap();
    database.add(b"k", b"one").unwrap();
    database.add(b"other", b"x").unwrap();
    database.add(b"k", b"two").unwrap();
    let v = database.get(b"k").unwrap();
    assert_eq!(v.as_deref(), Some(&b"two"[..]));
}

#[test]
fn newer_segment_shadows_older() {
    let mut database = Database::new(Vec::new()).unwrap();
    database.add(b"a", b"first").unwrap();
    database.flush_dirty().unwrap();
    database.add(b"a", b"second").unwrap();
    database.flush_dirty().unwrap();
    assert_eq!(database.segment_count(), 2);
    let v = database.get(b"a").unwrap();
    assert_eq!(v.as_deref(), Some(&b"second"[..]));
}

#[test]
fn memtable_shadows_segments() {
    let mut database = Database::new(Vec::new()).unwrap();
    database.add(b"a", b"old").unwrap();
    database.flush_dirty().unwrap();
    database.add(b"a", b"new").unwrap();
    let v = database.get(b"a").unwrap();
    assert_eq!(v.as_deref(), Some(&b"new"[..]));
}

#[test]
fn absent_key_stays_absent() {
    let mut database = Database::new(Vec::new()).unwrap();
    database.add(b"a", b"1").unwrap();
    database.add(b"b", b"2").unwrap();
    database.flush_dirty().unwrap();
    database.add(b"c", b"3").unwrap();
    let v = database.get(b"never").unwrap();
    assert_eq!(v.as_deref(), None);
}

#[test]
fn merge_with_empty_segment() {
    let mut database = Database::new(Vec::new()).unwrap();
    database.add(b"a", b"b").unwrap();
    database.flush_dirty().unwrap();
    // a flush of an empty memtable makes an empty segment
    database.flush_dirty().unwrap();
    assert_eq!(database.segment_count(), 2);
    let mut buf = Vec::new();
    database.dump_segment(1, &mut buf);
    assert_eq!(buf, Vec::<u8>::new());
    database.merge_segment().unwrap();
    assert_eq!(database.segment_count(), 1);
    database.dump_segment(0, &mut buf);
    assert_eq!(buf, vec![0, 0, 0, 1, 97, 0, 0, 0, 1, 98]);
    let v = database.get(b"a").unwrap();
    assert_eq!(v.as_deref(), Some(&b"b"[..]));
}

#[test]
fn compaction_after_ten_segments() {
    let mut database = Database::new(Vec::new()).unwrap();
    database.dirty_thresholds(0);
    // every add flushes; the eleventh flush triggers a merge of the two
    // oldest segments
    let keys: &[&[u8]] = &[
        b"k00", b"k01", b"k02", b"k03", b"k04", b"k05", b"k06", b"k07", b"k08", b"k09", b"k10",
    ];
    for (n, key) in keys.iter().enumerate() {
        let value = vec![n as u8];
        database.add(key, &value).unwrap();
    }
    assert_eq!(database.segment_count(), 10);
    // the merged front segment keeps the oldest id, the rest their own
    assert_eq!(database.segment_id(0), 0);
    assert_eq!(database.segment_id(9), 10);
    for (n, key) in keys.iter().enumerate() {
        let v = database.get(key).unwrap();
        assert_eq!(v.as_deref(), Some(&[n as u8][..]));
    }
}

#[test]
fn truncated_header_is_rejected() {
    let r = Database::new(vec![0, 0]);
    assert!(matches!(r, Err(kvlog::Error::UnexpectedEnd)));
}

#[test]
fn truncated_record_is_rejected() {
    // a record that announces five value bytes but holds two
    let r = Database::new(vec![0, 0, 0, 1, 97, 0, 0, 0, 5, 1, 2]);
    assert!(matches!(r, Err(kvlog::Error::UnexpectedEnd)));
}

#[test]
fn whole_records_are_replayed() {
    // two whole records replay cleanly, byte for byte as written
    let mut log = Vec::new();
    kvlog::codec::write_entry(&mut log, b"a", b"x");
    kvlog::codec::write_entry(&mut log, b"b", b"y");
    let database = Database::new(log).unwrap();
    assert_eq!(database.memtable_len(), 2);
    assert_eq!(database.memtable_offset(b"a"), Some(0));
    assert_eq!(database.memtable_offset(b"b"), Some(10));
}

#[test]
fn segment_merge_newer_wins() {
    let old = Segment {
        id: 3,
        entries: vec![
            Entry { key: b"a".to_vec(), value: b"1".to_vec() },
            Entry { key: b"c".to_vec(), value: b"2".to_vec() },
        ],
    };
    let new = Segment {
        id: 7,
        entries: vec![
            Entry { key: b"b".to_vec(), value: b"9".to_vec() },
            Entry { key: b"c".to_vec(), value: b"8".to_vec() },
        ],
    };
    let merged = Segment::merge(&new, &old);
    // the merged segment takes the older input's id
    assert_eq!(merged.id(), 3);
    assert_eq!(merged.get(b"a").as_deref(), Some(&b"1"[..]));
    assert_eq!(merged.get(b"b").as_deref(), Some(&b"9"[..]));
    // the newer side's value wins on a duplicate key
    assert_eq!(merged.get(b"c").as_deref(), Some(&b"8"[..]));
    assert_eq!(merged.get(b"d").as_deref(), None);
    // keys come out strictly ascending
    let mut buf = Vec::new();
    merged.dump(&mut buf);
    assert_eq!(
        buf,
        vec![0, 0, 0, 1, 97, 0, 0, 0, 1, 49, 0, 0, 0, 1, 98, 0, 0, 0, 1, 57, 0, 0, 0, 1, 99, 0, 0, 0, 1, 56]
    );
}
