use redis_lite::rdb::{load_snapshot, parse_rdb_file, RdbFile};
use redis_lite::store::{KeyType, Store};

fn file(body: &[u8]) -> Vec<u8> {
    let mut b = b"REDIS0011".to_vec();
    b.extend_from_slice(body);
    b
}

#[test]
fn parses_records_after_sections() {
    let mut body = vec![0xFA, 9];
    body.extend_from_slice(b"redis-ver");
    body.extend_from_slice(&[5]);
    body.extend_from_slice(b"7.2.0");
    body.extend_from_slice(&[0xFA, 10]);
    body.extend_from_slice(b"redis-bits");
    body.extend_from_slice(&[0xC0, 64]);
    body.extend_from_slice(&[0xFE, 0, 0xFB, 2, 1]);
    body.extend_from_slice(&[0x00, 3]);
    body.extend_from_slice(b"foo");
    body.extend_from_slice(&[3]);
    body.extend_from_slice(b"bar");
    body.extend_from_slice(&[0xFC]);
    body.extend_from_slice(&1000u64.to_le_bytes());
    body.extend_from_slice(&[0x00, 1, b'k', 0xC1]);
    body.extend_from_slice(&513u16.to_le_bytes());
    body.extend_from_slice(&[0xFD]);
    body.extend_from_slice(&5u64.to_le_bytes());
    body.extend_from_slice(&[0x00, 1, b'z', 1, b'y']);
    body.push(0xFF);
    let f = parse_rdb_file(&file(&body)).unwrap();
    assert_eq!(f.map.len(), 3);
    assert_eq!(f.map[0].0, b"foo".to_vec());
    assert_eq!(f.map[0].1.value, b"bar".to_vec());
    assert_eq!(f.map[0].1.expires_at, None);
    assert_eq!(f.map[1].0, b"k".to_vec());
    assert_eq!(f.map[1].1.value, b"513".to_vec());
    assert_eq!(f.map[1].1.expires_at, Some(1000));
    assert_eq!(f.map[2].1.expires_at, Some(5000));
    assert_eq!(f.map[1].1.get(999), Some(&b"513".to_vec()));
    assert_eq!(f.map[1].1.get(1001), None);

    let mut store = Store::new();
    load_snapshot(&mut store, &f);
    assert_eq!(store.get_value_at(b"foo", 0), Ok(b"bar".to_vec()));
    assert_eq!(store.key_type_at(b"k", 2000), KeyType::Absent);
    assert_eq!(store.get_value_at(b"k", 500), Ok(b"513".to_vec()));
}

#[test]
fn rejects_bad_header() {
    assert!(parse_rdb_file(b"RADIS0011").is_none());
    assert!(parse_rdb_file(b"REDIS00x1").is_none());
    assert!(parse_rdb_file(b"REDIS").is_none());
}

#[test]
fn empty_database() {
    let f = parse_rdb_file(&file(&[0xFF])).unwrap();
    assert!(f.map.is_empty());
    assert!(RdbFile::new().map.is_empty());
}

#[test]
fn long_lengths() {
    let mut body = vec![0x00, 0x40, 3];
    body.extend_from_slice(b"abc");
    body.extend_from_slice(&[0x80]);
    body.extend_from_slice(&2u32.to_le_bytes());
    body.extend_from_slice(b"xy");
    let f = parse_rdb_file(&file(&body)).unwrap();
    assert_eq!(f.map.len(), 1);
    assert_eq!(f.map[0].0, b"abc".to_vec());
    assert_eq!(f.map[0].1.value, b"xy".to_vec());
}
