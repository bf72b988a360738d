use kvlog::codec::{encode_record, encode_tombstone, parse_segment};
use kvlog::db::{is_live_canonical, Db};

#[test]
fn init_engine() {
    let mut db = Db::new();

    let key1 = b"Hello".to_owned();
    let value1 = *b"World!";

    db.set(&key1, &value1, 1);

    assert_eq!(b"Hello".to_owned().to_vec(), db.get(&key1).unwrap().key);

    let key2 = b"Name".to_owned();
    let value2 = *b"Vahid";

    db.set(&key2, &value2, 2);

    assert_eq!(b"Vahid".to_owned().to_vec(), db.get(&key2).unwrap().value.unwrap());

    db.delete(&key1, 3);

    assert_eq!(true, db.get(&key1).unwrap().deleted);

    assert!(db.get(b"Absent").is_none());
}

#[test]
fn read_from_multiple_files() {
    let mut segment_a: Vec<u8> = Vec::new();

    let key1 = b"Hello".to_owned();
    let value1 = *b"World!";
    segment_a.extend_from_slice(&encode_record(&key1, &value1, false, 1));

    let key2 = b"Name".to_owned();
    let value2 = *b"Vahid";
    segment_a.extend_from_slice(&encode_record(&key2, &value2, false, 2));

    let key3 = b"gg".to_owned();
    let value3 = *b"wp";
    segment_a.extend_from_slice(&encode_record(&key3, &value3, false, 3));

    let key4 = b"Name".to_owned();
    segment_a.extend_from_slice(&encode_tombstone(&key4, 4));

    let mut segment_b: Vec<u8> = Vec::new();

    let key5 = b"Hello".to_owned();
    let value5 = *b"RUST";
    segment_b.extend_from_slice(&encode_record(&key5, &value5, false, 5));

    let key6 = b"gg".to_owned();
    segment_b.extend_from_slice(&encode_tombstone(&key6, 6));

    let mut db = Db::init_from_existing(&vec![segment_a, segment_b]);

    // see a key exists
    assert_eq!(b"gg".to_owned().to_vec(), db.get(&key3).unwrap().key);
    assert_eq!(None, db.get(&key3).unwrap().value);

    assert_eq!(b"Hello".to_owned().to_vec(), db.get(&key5).unwrap().key);
    assert_eq!(b"RUST".to_owned().to_vec(), db.get(&key5).unwrap().value.unwrap());

    // the tombstone for Name is retained
    assert_eq!(true, db.get(&key2).unwrap().deleted);

    // check the new compacted segment
    let data = parse_segment(db.active_segment());

    assert_eq!(3, data.len());
}

#[test]
fn db_test_init_from() {
    let mut db = Db::init_from_existing(&Vec::new());
    let key1 = b"Hello".to_owned();
    let value1 = *b"World!";

    db.set(&key1, &value1, 1);

    assert_eq!(b"Hello".to_owned().to_vec(), db.get(&key1).unwrap().key);
}

#[test]
fn snapshot_test() {
    let mut db = Db::new();

    let key1 = b"Hello".to_owned();
    let value1 = *b"World!";

    db.set(&key1, &value1, 1);

    assert_eq!(b"Hello".to_owned().to_vec(), db.get(&key1).unwrap().key);

    let key2 = b"Name".to_owned();
    let value2 = *b"Vahid";

    db.set(&key2, &value2, 2);

    assert_eq!(b"Vahid".to_owned().to_vec(), db.get(&key2).unwrap().value.unwrap());

    db.delete(&key1, 3);

    assert_eq!(true, db.get(&key1).unwrap().deleted);

    let snapshot = db.get_snapshot();
    drop(db);

    let mut db = Db::new();

    db.set_snapshot(snapshot);

    assert_eq!(b"Vahid".to_owned().to_vec(), db.get(&key2).unwrap().value.unwrap());

    // tombstones are not exported
    assert!(db.get(&key1).is_none());
}

#[test]
fn snapshot_exports_live_only() {
    let mut db = Db::new();
    db.set(b"a", b"1", 1);
    db.set(b"b", b"2", 2);
    db.delete(b"a", 3);

    let blob = db.get_snapshot();
    let records = parse_segment(&blob);
    assert_eq!(records.len(), 1);
    assert_eq!(records[0].key, b"b".to_vec());
    assert_eq!(records[0].value, Some(b"2".to_vec()));

    let mut fresh = Db::new();
    fresh.set_snapshot(blob);
    assert_eq!(fresh.get(b"b").unwrap().value.clone(), Some(b"2".to_vec()));
    assert!(fresh.get(b"a").is_none());
}

#[test]
fn recover_round_trip() {
    let mut db = Db::new();
    db.set(b"Hello", b"World!", 1);
    db.set(b"Name", b"Vahid", 2);
    db.delete(b"Hello", 3);

    let segment = db.active_segment().clone();
    drop(db);

    let mut db = Db::init_from_existing(&vec![segment]);

    assert_eq!(true, db.get(b"Hello").unwrap().deleted);
    assert_eq!(db.get(b"Name").unwrap().value.clone(), Some(b"Vahid".to_vec()));

    // the compacted segment holds the two records in key order
    let data = parse_segment(db.active_segment());
    assert_eq!(data.len(), 2);
    assert_eq!(data[0].key, b"Hello".to_vec());
    assert_eq!(data[0].deleted, true);
    assert_eq!(data[1].key, b"Name".to_vec());
    assert_eq!(data[1].value, Some(b"Vahid".to_vec()));
}

#[test]
fn recover_twice_changes_nothing() {
    let mut db = Db::new();
    db.set(b"k1", b"v1", 1);
    db.set(b"k2", b"v2", 2);
    db.delete(b"k1", 3);

    let first = Db::init_from_existing(&vec![db.active_segment().clone()]);
    let second = Db::init_from_existing(&vec![first.active_segment().clone()]);

    assert_eq!(first.active_segment(), second.active_segment());
    assert_eq!(parse_segment(second.active_segment()).len(), 2);
}

#[test]
fn purge_scenario() {
    let mut db = Db::new();
    db.set(b"k", b"v", 1);

    db.purge_database();

    assert!(db.get(b"k").is_none());
    assert_eq!(db.active_segment().len(), 0);
}

#[test]
fn snapshot_blob_shapes() {
    // a whole number of live records is accepted
    let mut good: Vec<u8> = Vec::new();
    good.extend_from_slice(&encode_record(b"a", b"1", false, 1));
    good.extend_from_slice(&encode_record(b"b", b"2", false, 2));
    assert!(is_live_canonical(&good));

    // an empty blob is a whole number of records
    assert!(is_live_canonical(&[]));

    // a tombstone is not live
    let mut with_tombstone = good.clone();
    with_tombstone.extend_from_slice(&encode_tombstone(b"a", 3));
    assert!(!is_live_canonical(&with_tombstone));

    // a cut record is not a whole number of records
    let cut = &good[..good.len() - 1];
    assert!(!is_live_canonical(cut));

    let mut db = Db::new();
    assert!(db.try_set_snapshot(good));
    assert_eq!(db.get(b"a").unwrap().value.clone(), Some(b"1".to_vec()));

    let state_before = db.active_segment().clone();
    assert!(!db.try_set_snapshot(with_tombstone));
    assert_eq!(db.active_segment(), &state_before);
}

#[test]
fn checked_recovery_matches_plain() {
    let mut segment: Vec<u8> = Vec::new();
    segment.extend_from_slice(&encode_record(b"k", b"v", false, 1));

    let checked = Db::try_init_from_existing(&vec![segment.clone()]).unwrap();
    let plain = Db::init_from_existing(&vec![segment]);
    assert_eq!(checked.active_segment(), plain.active_segment());
}

#[test]
fn last_write_wins_per_key() {
    let mut db = Db::new();
    db.set(b"k", b"first", 1);
    db.set(b"other", b"x", 2);
    db.set(b"k", b"second", 3);

    assert_eq!(db.get(b"k").unwrap().value.clone(), Some(b"second".to_vec()));
    assert_eq!(db.get(b"k").unwrap().timestamp, 3);
    assert_eq!(db.get(b"other").unwrap().value.clone(), Some(b"x".to_vec()));
}
