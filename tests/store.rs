use redis_lite::store::{KeyType, Store, StoreError, StoreValueType};
use redis_lite::stream::{
    parse_id_spec, split_stream_id, IdSpec, StreamEntryId, StreamEntryValidate, StreamType,
};

fn id(ms: u64, seq: u64) -> StreamEntryId {
    StreamEntryId { ms, seq }
}

fn fields(pairs: &[(&str, &str)]) -> Vec<(Vec<u8>, Vec<u8>)> {
    pairs.iter().map(|(k, v)| (k.as_bytes().to_vec(), v.as_bytes().to_vec())).collect()
}

#[test]
fn set_then_get() {
    let mut s = Store::new();
    assert_eq!(s.set_value_at(b"k", b"v", None, 1000), Ok(()));
    assert_eq!(s.get_value_at(b"k", 1000), Ok(b"v".to_vec()));
    assert_eq!(s.get_value_at(b"k", u64::MAX), Ok(b"v".to_vec()));
    assert_eq!(s.get_value_at(b"other", 1000), Err(StoreError::NotFound));
}

#[test]
fn set_with_px_expires() {
    let mut s = Store::new();
    assert_eq!(s.set_value_at(b"k", b"v", Some(100), 1000), Ok(()));
    assert_eq!(s.get_value_at(b"k", 1050), Ok(b"v".to_vec()));
    assert_eq!(s.get_value_at(b"k", 1100), Ok(b"v".to_vec()));
    assert_eq!(s.get_value_at(b"k", 1150), Err(StoreError::NotFound));
    assert_eq!(s.key_type_at(b"k", 1150), KeyType::Absent);
    assert!(s.keys_at(1150).is_empty());
}

#[test]
fn set_overwrites_and_clears_expiry() {
    let mut s = Store::new();
    s.set_value_at(b"k", b"a", Some(10), 0).unwrap();
    s.set_value_at(b"k", b"b", None, 5).unwrap();
    assert_eq!(s.get_value_at(b"k", 100), Ok(b"b".to_vec()));
}

#[test]
fn set_with_clock_then_get() {
    let mut s = Store::new();
    assert_eq!(s.set_value(b"k", b"v", None), Ok(()));
    assert_eq!(s.get_value(b"k"), Ok(b"v".to_vec()));
}

#[test]
fn key_types_and_keys() {
    let mut s = Store::new();
    s.set_value_at(b"a", b"1", None, 0).unwrap();
    s.add_stream_at(b"s", IdSpec::Explicit(id(1, 1)), fields(&[("f", "v")]), 0);
    assert_eq!(s.key_type_at(b"a", 0), KeyType::String);
    assert_eq!(s.key_type_at(b"s", 0), KeyType::Stream);
    assert_eq!(s.key_type_at(b"zz", 0), KeyType::Absent);
    let mut keys = s.keys_at(0);
    keys.sort();
    assert_eq!(keys, vec![b"a".to_vec(), b"s".to_vec()]);
}

#[test]
fn set_on_stream_key_is_type_mismatch() {
    let mut s = Store::new();
    s.add_stream_at(b"s", IdSpec::Explicit(id(1, 1)), fields(&[("a", "1")]), 0);
    assert_eq!(s.set_value_at(b"s", b"x", None, 0), Err(StoreError::TypeMismatch));
    assert_eq!(s.get_value_at(b"s", 0), Err(StoreError::TypeMismatch));
    assert_eq!(s.key_type_at(b"s", 0), KeyType::Stream);
}

#[test]
fn xadd_on_live_scalar_is_wrong_type() {
    let mut s = Store::new();
    s.set_value_at(b"k", b"v", Some(10), 0).unwrap();
    assert_eq!(
        s.add_stream_at(b"k", IdSpec::Explicit(id(1, 1)), fields(&[("a", "1")]), 5),
        StreamEntryValidate::EWrongType
    );
    assert_eq!(
        s.add_stream_at(b"k", IdSpec::Explicit(id(1, 1)), fields(&[("a", "1")]), 20),
        StreamEntryValidate::Successfull(id(1, 1))
    );
    assert_eq!(s.key_type_at(b"k", 20), KeyType::Stream);
}

#[test]
fn xadd_explicit_then_same_id() {
    let mut s = Store::new();
    assert_eq!(
        s.add_stream_at(b"s", IdSpec::Explicit(id(1, 1)), fields(&[("a", "1")]), 0),
        StreamEntryValidate::Successfull(id(1, 1))
    );
    let again = s.add_stream_at(b"s", IdSpec::Explicit(id(1, 1)), fields(&[("b", "2")]), 0);
    assert_eq!(again, StreamEntryValidate::EIsSmallerOrEqual);
    assert_eq!(
        String::from_utf8(again.as_msg()).unwrap(),
        "ERR The ID specified in XADD is equal or smaller than the target stream top item"
    );
    let all = s.get_streams_in_range(b"s", id(0, 0), id(u64::MAX, u64::MAX), 0).unwrap();
    assert_eq!(all.len(), 1);
}

#[test]
fn xadd_zero_id_rejected() {
    let mut s = Store::new();
    let r = s.add_stream_at(b"s", IdSpec::Explicit(id(0, 0)), fields(&[("a", "1")]), 0);
    assert_eq!(r, StreamEntryValidate::EGreaterThan0_0);
    assert_eq!(
        String::from_utf8(r.as_msg()).unwrap(),
        "ERR The ID specified in XADD must be greater than 0-0"
    );
    assert_eq!(s.key_type_at(b"s", 0), KeyType::Absent);
}

#[test]
fn xadd_auto_twice_same_millisecond() {
    let mut s = Store::new();
    let t = 1_700_000_000_000u64;
    assert_eq!(
        s.add_stream_at(b"s", IdSpec::Auto, fields(&[("a", "1")]), t),
        StreamEntryValidate::Successfull(id(t, 0))
    );
    assert_eq!(
        s.add_stream_at(b"s", IdSpec::Auto, fields(&[("a", "2")]), t),
        StreamEntryValidate::Successfull(id(t, 1))
    );
}

#[test]
fn xadd_partial_auto_sequence() {
    let mut s = Store::new();
    assert_eq!(
        s.add_stream_at(b"s", IdSpec::AutoSeq(5), fields(&[("a", "1")]), 0),
        StreamEntryValidate::Successfull(id(5, 0))
    );
    assert_eq!(
        s.add_stream_at(b"s", IdSpec::AutoSeq(5), fields(&[("a", "1")]), 0),
        StreamEntryValidate::Successfull(id(5, 1))
    );
    assert_eq!(
        s.add_stream_at(b"s", IdSpec::AutoSeq(7), fields(&[("a", "1")]), 0),
        StreamEntryValidate::Successfull(id(7, 0))
    );
    assert_eq!(
        s.add_stream_at(b"s", IdSpec::AutoSeq(6), fields(&[("a", "1")]), 0),
        StreamEntryValidate::EIsSmallerOrEqual
    );
}

#[test]
fn xadd_partial_auto_zero_on_empty_stream() {
    let mut s = Store::new();
    assert_eq!(
        s.add_stream_at(b"s", IdSpec::AutoSeq(0), fields(&[("a", "1")]), 0),
        StreamEntryValidate::EGreaterThan0_0
    );
}

#[test]
fn xrange_full_and_partial() {
    let mut s = Store::new();
    for (ms, seq) in [(1, 1), (1, 2), (2, 0), (3, 5)] {
        s.add_stream_at(b"s", IdSpec::Explicit(id(ms, seq)), fields(&[("k", "v")]), 0);
    }
    let all: Vec<StreamEntryId> = s
        .get_streams_in_range(b"s", id(0, 0), id(u64::MAX, u64::MAX), 0)
        .unwrap()
        .iter()
        .map(|e| e.id())
        .collect();
    assert_eq!(all, vec![id(1, 1), id(1, 2), id(2, 0), id(3, 5)]);
    let mid: Vec<StreamEntryId> = s
        .get_streams_in_range(b"s", id(1, 2), id(2, u64::MAX), 0)
        .unwrap()
        .iter()
        .map(|e| e.id())
        .collect();
    assert_eq!(mid, vec![id(1, 2), id(2, 0)]);
    assert!(s.get_streams_in_range(b"none", id(0, 0), id(9, 9), 0).unwrap().is_empty());
}

#[test]
fn xread_after_id() {
    let mut s = Store::new();
    assert!(s.get_streams_from_start(b"s", id(0, 0), 0).unwrap().is_empty());
    s.add_stream_at(b"s", IdSpec::Explicit(id(1, 1)), fields(&[("a", "1")]), 0);
    s.add_stream_at(b"s", IdSpec::Explicit(id(2, 1)), fields(&[("b", "2")]), 0);
    let after: Vec<StreamEntryId> =
        s.get_streams_from_start(b"s", id(1, 1), 0).unwrap().iter().map(|e| e.id()).collect();
    assert_eq!(after, vec![id(2, 1)]);
    s.set_value_at(b"x", b"1", None, 0).unwrap();
    assert!(s.get_streams_from_start(b"x", id(0, 0), 0).is_err());
}

#[test]
fn entry_fields_keep_insertion_order() {
    let mut e = StreamType::new_with_stream_id(b"5-3").unwrap();
    assert_eq!(e.id(), id(5, 3));
    assert_eq!(e.get_stream_id(), b"5-3".to_vec());
    e.add_to_collection(b"b", b"1");
    e.add_to_collection(b"a", b"2");
    e.add_to_collection(b"b", b"3");
    assert_eq!(e.get_collection(), &fields(&[("b", "3"), ("a", "2")]));
    assert!(StreamType::new_with_stream_id(b"53").is_none());
}

#[test]
fn id_specs_and_splitting() {
    assert_eq!(parse_id_spec(b"*"), Some(IdSpec::Auto));
    assert_eq!(parse_id_spec(b"12-*"), Some(IdSpec::AutoSeq(12)));
    assert_eq!(parse_id_spec(b"12-4"), Some(IdSpec::Explicit(id(12, 4))));
    assert_eq!(parse_id_spec(b"12"), None);
    assert_eq!(parse_id_spec(b"a-1"), None);
    assert_eq!(split_stream_id(b"10-20"), Some((b"10".to_vec(), b"20".to_vec())));
    assert_eq!(split_stream_id(b"1020"), None);
    assert_eq!(id(18446744073709551615, 0).to_text(), b"18446744073709551615-0".to_vec());
}

#[test]
fn store_value_text() {
    assert_eq!(StoreValueType::String(b"x".to_vec()).to_string(), b"x".to_vec());
    assert_eq!(StoreValueType::Stream(Vec::new()).to_string(), Vec::<u8>::new());
}
