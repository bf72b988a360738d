use kvlog::codec::{encode_record, encode_tombstone, parse_segment};
use kvlog::memtable::MemTable;

#[test]
fn check_single_add() {
    let mut mem_table = MemTable::new();

    let key = b"Hello".to_owned();
    let value = *b"World!";
    let timestamp: u128 = 1;
    mem_table.set_or_insert(&key, &value, timestamp);

    assert_eq!(mem_table.get_index(&key).unwrap(), 0);
    assert_eq!(mem_table.get(&key).unwrap().value.clone(), Some(value.to_vec()));
}

#[test]
fn check_size() {
    let mut mem_table = MemTable::new();

    let key = b"Hello".to_owned();
    let value = *b"World!";
    let timestamp: u128 = 1;
    mem_table.set_or_insert(&key, &value, timestamp);

    assert_eq!(mem_table.get_size(), 5 + 6 + 16 + 1);
}

#[test]
fn check_size_after_delete() {
    let mut mem_table = MemTable::new();

    let key = b"Hello".to_owned();
    let value = *b"World!";
    let mut timestamp: u128 = 1;
    mem_table.set_or_insert(&key, &value, timestamp);

    timestamp = 2;
    mem_table.delete(&key, timestamp);

    assert_eq!(mem_table.get_size(), 5 + 0 + 16 + 1);
}

#[test]
fn check_deleted_item() {
    let mut mem_table = MemTable::new();

    let key = b"Hello".to_owned();
    let value = *b"World!";
    let mut timestamp: u128 = 1;
    mem_table.set_or_insert(&key, &value, timestamp);

    timestamp = 2;
    mem_table.delete(&key, timestamp);

    assert_eq!(mem_table.get(&key).unwrap().deleted, true);
}

#[test]
fn check_multiple_insert() {
    let mut mem_table = MemTable::new();

    let key1 = b"Hello".to_owned();
    let value1 = *b"World!";
    let mut timestamp: u128 = 1;
    mem_table.set_or_insert(&key1, &value1, timestamp);

    let key2 = b"MyName".to_owned();
    let value2 = *b"Vahid";
    timestamp = 2;
    mem_table.set_or_insert(&key2, &value2, timestamp);

    assert_eq!(mem_table.get_index(&key2).unwrap(), 1 as usize);

    timestamp = 3;
    mem_table.delete(&key2, timestamp);

    assert_eq!(mem_table.get_size(), 5 + 6 + 16 + 1 + 6 + 1 + 16);
}

#[test]
fn test_init_from_file() {
    let mut segment: Vec<u8> = Vec::new();

    let key1 = b"Hello".to_owned();
    let value1 = *b"World!";
    let timestamp1: u128 = 1;
    segment.extend_from_slice(&encode_record(&key1, &value1, false, timestamp1));

    let key2 = b"Name".to_owned();
    let value2 = *b"Vahid";
    let timestamp2: u128 = 2;
    segment.extend_from_slice(&encode_record(&key2, &value2, false, timestamp2));

    let key3 = b"gg".to_owned();
    let value3 = *b"wp";
    let timestamp3: u128 = 3;
    segment.extend_from_slice(&encode_record(&key3, &value3, false, timestamp3));

    let key4 = b"Name".to_owned();
    let timestamp4: u128 = 4;
    segment.extend_from_slice(&encode_tombstone(&key4, timestamp4));

    let data = parse_segment(&segment);

    let mem_table = MemTable::init_from_file(data);

    assert_eq!(96, mem_table.get_size());
}

#[test]
fn memtable_size_scenario() {
    let mut mem_table = MemTable::new();

    mem_table.set_or_insert(b"Hello", b"World!", 1);
    assert_eq!(mem_table.get_size(), 28);

    mem_table.delete(b"Hello", 2);
    assert_eq!(mem_table.get_size(), 22);

    mem_table.set_or_insert(b"MyName", b"Vahid", 3);
    mem_table.delete(b"MyName", 4);
    assert_eq!(mem_table.get_size(), 45);
}

#[test]
fn memtable_keeps_key_order() {
    let mut mem_table = MemTable::new();
    mem_table.set_or_insert(b"banana", b"2", 1);
    mem_table.set_or_insert(b"apple", b"1", 2);
    mem_table.set_or_insert(b"cherry", b"3", 3);
    mem_table.delete(b"blueberry", 4);

    let all = mem_table.get_all();
    let keys: Vec<&[u8]> = all.iter().map(|e| e.key.as_slice()).collect();
    assert_eq!(keys, vec![&b"apple"[..], &b"banana"[..], &b"blueberry"[..], &b"cherry"[..]]);
}

#[test]
fn memtable_absent_key_insert_position() {
    let mut mem_table = MemTable::new();
    mem_table.set_or_insert(b"b", b"1", 1);
    mem_table.set_or_insert(b"d", b"2", 2);

    assert_eq!(mem_table.get_index(b"a"), Err(0));
    assert_eq!(mem_table.get_index(b"c"), Err(1));
    assert_eq!(mem_table.get_index(b"e"), Err(2));
    assert!(mem_table.get(b"a").is_none());
}

#[test]
fn memtable_delete_absent_leaves_tombstone() {
    let mut mem_table = MemTable::new();
    mem_table.delete(b"ghost", 9);

    let stored = mem_table.get(b"ghost").unwrap();
    assert_eq!(stored.deleted, true);
    assert_eq!(stored.value, None);
    assert_eq!(stored.timestamp, 9);
    assert_eq!(mem_table.get_size(), 5 + 17);
}
