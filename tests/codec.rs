use redis_lite::resp::{extract_command, parse_payload, unwrap_value_to_string, RespError, Value};

fn bulk(s: &str) -> Value {
    Value::BulkString(s.as_bytes().to_vec())
}

#[test]
fn encodes_each_shape() {
    assert_eq!(Value::SimpleString(b"OK".to_vec()).serialize(), b"+OK\r\n".to_vec());
    assert_eq!(Value::SimpleError(b"ERR x".to_vec()).serialize(), b"-ERR x\r\n".to_vec());
    assert_eq!(bulk("PING").serialize(), b"$4\r\nPING\r\n".to_vec());
    assert_eq!(bulk("").serialize(), b"$0\r\n\r\n".to_vec());
    assert_eq!(Value::NullBulkString.serialize(), b"$-1\r\n".to_vec());
    let a = Value::Array(vec![bulk("ECHO"), bulk("hey")]);
    assert_eq!(a.serialize(), b"*2\r\n$4\r\nECHO\r\n$3\r\nhey\r\n".to_vec());
    assert_eq!(Value::Array(vec![]).serialize(), b"*0\r\n".to_vec());
}

#[test]
fn encodes_long_length_in_decimal() {
    let body = vec![b'x'; 1234];
    let enc = Value::BulkString(body.clone()).serialize();
    assert!(enc.starts_with(b"$1234\r\n"));
    assert_eq!(enc.len(), 1 + 4 + 2 + 1234 + 2);
}

fn round_trip(v: Value) {
    let enc = v.serialize();
    let (back, used) = parse_payload(&enc).unwrap();
    assert_eq!(back, v);
    assert_eq!(used, enc.len());
}

#[test]
fn round_trip_every_shape() {
    round_trip(Value::SimpleString(b"PONG".to_vec()));
    round_trip(Value::SimpleError(b"ERR nope".to_vec()));
    round_trip(bulk("hello world"));
    round_trip(Value::BulkString(b"with\r\ninside".to_vec()));
    round_trip(Value::NullBulkString);
    round_trip(Value::Array(vec![]));
    round_trip(Value::Array(vec![
        bulk("SET"),
        Value::Array(vec![bulk("a"), Value::NullBulkString, Value::SimpleString(b"s".to_vec())]),
        Value::Array(vec![]),
        Value::SimpleError(b"e".to_vec()),
    ]));
}

#[test]
fn decode_stops_at_frame_end() {
    let mut bytes = bulk("one").serialize();
    bytes.extend_from_slice(b"+two\r\n");
    let (v, used) = parse_payload(&bytes).unwrap();
    assert_eq!(v, bulk("one"));
    assert_eq!(used, 9);
}

#[test]
fn decode_needs_more_data() {
    assert_eq!(parse_payload(b""), Err(RespError::NeedMoreData));
    assert_eq!(parse_payload(b"+PON"), Err(RespError::NeedMoreData));
    assert_eq!(parse_payload(b"$5\r\nhel"), Err(RespError::NeedMoreData));
    assert_eq!(parse_payload(b"*2\r\n$3\r\nGET\r\n"), Err(RespError::NeedMoreData));
    assert_eq!(parse_payload(b"$4"), Err(RespError::NeedMoreData));
}

#[test]
fn decode_rejects_malformed_frames() {
    assert_eq!(parse_payload(b"!oops\r\n"), Err(RespError::ProtocolError));
    assert_eq!(parse_payload(b"$x\r\nab\r\n"), Err(RespError::ProtocolError));
    assert_eq!(parse_payload(b"$\r\n\r\n"), Err(RespError::ProtocolError));
    assert_eq!(parse_payload(b"$2\r\nabcd\r\n"), Err(RespError::ProtocolError));
    assert_eq!(parse_payload(b"*1\r\n?\r\n"), Err(RespError::ProtocolError));
}

#[test]
fn decodes_a_request() {
    let (v, used) = parse_payload(b"*2\r\n$4\r\nECHO\r\n$3\r\nhey\r\n").unwrap();
    assert_eq!(used, 23);
    assert_eq!(v, Value::Array(vec![bulk("ECHO"), bulk("hey")]));
    let (name, args) = extract_command(v).unwrap();
    assert_eq!(name, b"ECHO".to_vec());
    assert_eq!(args, vec![bulk("hey")]);
}

#[test]
fn extract_command_needs_an_array_of_strings() {
    assert_eq!(extract_command(bulk("PING")), Err(RespError::ProtocolError));
    assert_eq!(extract_command(Value::Array(vec![])), Err(RespError::ProtocolError));
    assert_eq!(
        extract_command(Value::Array(vec![Value::NullBulkString])),
        Err(RespError::ProtocolError)
    );
}

#[test]
fn unwraps_strings_only() {
    assert_eq!(unwrap_value_to_string(&bulk("k")), Ok(b"k".to_vec()));
    assert_eq!(unwrap_value_to_string(&Value::SimpleString(b"s".to_vec())), Ok(b"s".to_vec()));
    assert_eq!(unwrap_value_to_string(&Value::NullBulkString), Err(RespError::ProtocolError));
}
