use redis_starter_rust::rdb::{parse_rdb_bytes, parse_rdb_entry, parse_rdb_header, write_rdb_bytes};
use redis_starter_rust::storage::Value;

#[test]
fn should_read_header_version() {
    let given = b"REDIS\x00\x00\x00\x09";
    let result = parse_rdb_header(given);

    assert!(result.is_ok());
    assert_eq!(result.unwrap().version, 9);
}

#[test]
fn should_read_header_entry() {
    let given = b"\x00\x03key\x05value\xFF";
    let (result, _) = parse_rdb_entry(given, 0);
    let result = result.unwrap().unwrap();

    assert_eq!(result.key, b"key".to_vec());
    assert_eq!(result.value, b"value".to_vec());
}

#[test]
fn header_rejects_bad_magic() {
    assert!(parse_rdb_header(b"XEDIS\x00\x00\x00\x09").is_err());
    assert!(parse_rdb_header(b"REDIS\x00\x00").is_err());
}

#[test]
fn entry_with_millisecond_expiry() {
    // Tag 0xFC, eight little-endian bytes, one reserved byte, then the pair.
    let given = b"\xFC\x39\x30\x00\x00\x00\x00\x00\x00\x00\x01k\x01v\xFF";
    let (result, next) = parse_rdb_entry(given, 0);
    let entry = result.unwrap().unwrap();
    assert_eq!(entry.key, b"k".to_vec());
    assert_eq!(entry.value, b"v".to_vec());
    assert_eq!(entry.expiry, Some(12345));
    assert_eq!(next, given.len() - 1);
}

#[test]
fn entry_with_second_expiry() {
    // Tag 0xFD, four little-endian bytes, one reserved byte, then the pair.
    let given = b"\xFD\x02\x00\x00\x00\x00\x01k\x01v\xFF";
    let (result, _) = parse_rdb_entry(given, 0);
    let entry = result.unwrap().unwrap();
    assert_eq!(entry.expiry, Some(2000));
}

#[test]
fn entry_rejects_unknown_tag() {
    let (result, _) = parse_rdb_entry(b"\x42\x01k\x01v", 0);
    assert!(result.is_err());
}

#[test]
fn whole_snapshot_round_trips() {
    let table = vec![
        (b"foo".to_vec(), Value { value: b"bar".to_vec(), expiry: None }),
        (b"k2".to_vec(), Value { value: b"".to_vec(), expiry: Some(777) }),
    ];
    let bytes = write_rdb_bytes(&table).unwrap();
    let (entries, err) = parse_rdb_bytes(&bytes);
    assert!(err.is_none());
    assert_eq!(entries.len(), 2);
    assert_eq!(entries[0].0, b"foo".to_vec());
    assert_eq!(entries[0].1.value, b"bar".to_vec());
    assert_eq!(entries[0].1.expiry, None);
    assert_eq!(entries[1].0, b"k2".to_vec());
    assert_eq!(entries[1].1.value, b"".to_vec());
    assert_eq!(entries[1].1.expiry, Some(777));
}

#[test]
fn written_snapshot_has_expected_layout() {
    let table = vec![(b"key".to_vec(), Value { value: b"value".to_vec(), expiry: None })];
    let bytes = write_rdb_bytes(&table).unwrap();
    assert_eq!(
        bytes,
        b"REDIS\x00\x00\x00\x09\xFE\xFB\x00\x00\x00\x03key\x05value\xFF".to_vec()
    );
}

#[test]
fn empty_data_is_empty_key_space() {
    let (entries, err) = parse_rdb_bytes(b"");
    assert!(entries.is_empty());
    assert!(err.is_none());
}

#[test]
fn corrupt_magic_reports_error() {
    let (entries, err) = parse_rdb_bytes(b"NOTRDB\x00\x00\x00");
    assert!(entries.is_empty());
    assert!(err.is_some());
}

#[test]
fn truncated_record_keeps_earlier_records() {
    // One whole record, then a record whose value is cut off.
    let data = b"REDIS\x00\x00\x00\x09\xFE\xFB\x00\x00\x00\x03key\x05value\x00\x02ab\x09cut";
    let (entries, err) = parse_rdb_bytes(data);
    assert!(err.is_some());
    assert_eq!(entries.len(), 1);
    assert_eq!(entries[0].0, b"key".to_vec());
    assert_eq!(entries[0].1.value, b"value".to_vec());
}

#[test]
fn writer_rejects_oversized_value() {
    let table = vec![(b"k".to_vec(), Value { value: vec![0u8; 256], expiry: None })];
    assert!(write_rdb_bytes(&table).is_err());
}
