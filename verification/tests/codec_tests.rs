use kvlog::codec::{encode_record, encode_tombstone, parse_record, parse_segment};
use kvlog::storage_reader::StorageEntry;

fn expected_record(key: &[u8], value: &[u8], flag: u8, timestamp: u128) -> Vec<u8> {
    let mut r: Vec<u8> = Vec::new();
    r.extend_from_slice(&(key.len() as u64).to_le_bytes());
    r.push(flag);
    r.extend_from_slice(&(value.len() as u64).to_le_bytes());
    r.extend_from_slice(key);
    r.extend_from_slice(value);
    r.extend_from_slice(&timestamp.to_le_bytes());
    r
}

#[test]
fn encode_exact_layout() {
    let rec = encode_record(b"Hello", b"World!", false, 7);
    assert_eq!(rec, expected_record(b"Hello", b"World!", 0, 7));
    assert_eq!(rec.len(), 8 + 1 + 8 + 5 + 6 + 16);
    assert_eq!(&rec[17..28], b"HelloWorld!");
}

#[test]
fn encode_tombstone_exact_layout() {
    let rec = encode_tombstone(b"Hello", 9);
    assert_eq!(rec, expected_record(b"Hello", b"", 1, 9));
    assert_eq!(rec.len(), 8 + 1 + 8 + 5 + 16);
    assert_eq!(rec[8], 1);
}

#[test]
fn record_round_trip() {
    let rec = encode_record(b"Name", b"Vahid", false, 123456789012345678901234567890);
    let (entry, end) = parse_record(&rec, 0).unwrap();
    assert_eq!(end, rec.len());
    assert_eq!(entry.key, b"Name".to_vec());
    assert_eq!(entry.value, Some(b"Vahid".to_vec()));
    assert_eq!(entry.timestamp, 123456789012345678901234567890);
    assert_eq!(entry.deleted, false);
}

#[test]
fn tombstone_round_trip() {
    let rec = encode_tombstone(b"Name", 42);
    let (entry, end) = parse_record(&rec, 0).unwrap();
    assert_eq!(end, rec.len());
    assert_eq!(entry.key, b"Name".to_vec());
    assert_eq!(entry.value, None);
    assert_eq!(entry.timestamp, 42);
    assert_eq!(entry.deleted, true);
}

#[test]
fn empty_value_is_not_a_tombstone() {
    let rec = encode_record(b"k", b"", false, 5);
    let (entry, _) = parse_record(&rec, 0).unwrap();
    assert_eq!(entry.deleted, false);
    assert_eq!(entry.value, Some(Vec::new()));
}

#[test]
fn any_nonzero_flag_is_deleted() {
    let mut rec = expected_record(b"a", b"", 2, 3);
    let (entry, _) = parse_record(&rec, 0).unwrap();
    assert_eq!(entry.deleted, true);
    assert_eq!(entry.value, None);

    rec[8] = 0xff;
    let (entry, _) = parse_record(&rec, 0).unwrap();
    assert_eq!(entry.deleted, true);
}

#[test]
fn parse_empty_segment() {
    let data: Vec<u8> = Vec::new();
    assert_eq!(parse_segment(&data).len(), 0);
    assert!(parse_record(&data, 0).is_none());
}

#[test]
fn parse_short_header() {
    let data = vec![1u8, 2, 3];
    assert_eq!(parse_segment(&data).len(), 0);
}

#[test]
fn truncation_tolerance() {
    let mut segment: Vec<u8> = Vec::new();
    segment.extend_from_slice(&encode_record(b"Hello", b"World!", false, 1));
    let first_len = segment.len();
    segment.extend_from_slice(&encode_record(b"Name", b"Vahid", false, 2));
    let last_len = segment.len() - first_len;

    // cutting nothing keeps both records
    assert_eq!(parse_segment(&segment).len(), 2);

    // cutting anywhere inside the final record keeps exactly the first
    for m in 1..last_len {
        let truncated = &segment[..segment.len() - m];
        let parsed = parse_segment(truncated);
        assert_eq!(parsed.len(), 1);
        assert_eq!(parsed[0].key, b"Hello".to_vec());
        assert_eq!(parsed[0].value, Some(b"World!".to_vec()));
    }
}

#[test]
fn parse_segment_in_write_order() {
    let mut segment: Vec<u8> = Vec::new();
    segment.extend_from_slice(&encode_record(b"Name", b"Vahid", false, 1));
    segment.extend_from_slice(&encode_record(b"Hello", b"World!", false, 2));
    segment.extend_from_slice(&encode_tombstone(b"Name", 3));

    let data = parse_segment(&segment);
    assert_eq!(data.len(), 3);
    assert_eq!(data[0].key, b"Name".to_vec());
    assert_eq!(data[1].key, b"Hello".to_vec());
    assert_eq!(data[2].key, b"Name".to_vec());
    assert_eq!(data[2].deleted, true);
}

#[test]
fn init_memory_from_file() {
    let mut segment: Vec<u8> = Vec::new();

    let key1 = b"Hello".to_owned();
    let value1 = *b"World!";
    let timestamp1: u128 = 1;
    segment.extend_from_slice(&encode_record(&key1, &value1, false, timestamp1));

    let key2 = b"Name".to_owned();
    let value2 = *b"Vahid";
    let timestamp2: u128 = 2;
    segment.extend_from_slice(&encode_record(&key2, &value2, false, timestamp2));

    let data = parse_segment(&segment);

    assert_eq!(data[1].key, key2);
}

#[test]
fn storage_entry_read_record() {
    let mut segment: Vec<u8> = Vec::new();
    segment.extend_from_slice(&encode_record(b"Hello", b"World!", false, 4));
    segment.extend_from_slice(&encode_tombstone(b"Name", 5));

    let (first, next) = StorageEntry::read_record(&segment, 0).unwrap();
    let first = first.into_entry();
    assert_eq!(first.key, b"Hello".to_vec());
    assert_eq!(first.value, Some(b"World!".to_vec()));
    assert_eq!(first.deleted, false);

    let (second, end) = StorageEntry::read_record(&segment, next).unwrap();
    let second = second.into_entry();
    assert_eq!(second.key, b"Name".to_vec());
    assert_eq!(second.value, None);
    assert_eq!(second.deleted, true);

    assert_eq!(end, segment.len());
    assert!(StorageEntry::read_record(&segment, end).is_none());
}
