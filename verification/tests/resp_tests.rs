use foobar_db::parser::Parser;
use foobar_db::resp::RespValue;

fn round_trip(v: RespValue) -> RespValue {
    let bytes = v.encode();
    let mut parser = Parser::new(100, 1000000);
    parser.read_buf(&bytes);
    match parser.try_parse() {
        Ok(Some(w)) => w,
        other => panic!("encode-then-decode failed: {:?}", other),
    }
}

#[test]
fn test_encode_simple_string() {
    assert_eq!(
        RespValue::SimpleString(b"OK".to_vec()).encode(),
        b"+OK\r\n".to_vec()
    );
}

#[test]
fn test_encode_error() {
    assert_eq!(
        RespValue::Error(b"ERR boom".to_vec()).encode(),
        b"-ERR boom\r\n".to_vec()
    );
}

#[test]
fn test_encode_integer() {
    assert_eq!(RespValue::Integer(0).encode(), b":0\r\n".to_vec());
    assert_eq!(RespValue::Integer(1234).encode(), b":1234\r\n".to_vec());
    assert_eq!(RespValue::Integer(-1234).encode(), b":-1234\r\n".to_vec());
    assert_eq!(
        RespValue::Integer(i64::MAX).encode(),
        format!(":{}\r\n", i64::MAX).into_bytes()
    );
    assert_eq!(
        RespValue::Integer(i64::MIN).encode(),
        format!(":{}\r\n", i64::MIN).into_bytes()
    );
}

#[test]
fn test_encode_bulk_string() {
    assert_eq!(
        RespValue::BulkString(Some(b"hello".to_vec())).encode(),
        b"$5\r\nhello\r\n".to_vec()
    );
    assert_eq!(
        RespValue::BulkString(Some(Vec::new())).encode(),
        b"$0\r\n\r\n".to_vec()
    );
    assert_eq!(RespValue::BulkString(None).encode(), b"$-1\r\n".to_vec());
    assert_eq!(RespValue::Null.encode(), b"$-1\r\n".to_vec());
}

#[test]
fn test_encode_array() {
    assert_eq!(RespValue::Array(None).encode(), b"*-1\r\n".to_vec());
    assert_eq!(RespValue::Array(Some(Vec::new())).encode(), b"*0\r\n".to_vec());
    assert_eq!(
        RespValue::Array(Some(vec![
            RespValue::Integer(1),
            RespValue::BulkString(Some(b"hi".to_vec())),
        ]))
        .encode(),
        b"*2\r\n:1\r\n$2\r\nhi\r\n".to_vec()
    );
}

#[test]
fn test_round_trip_simple_string() {
    let v = RespValue::SimpleString(b"fine".to_vec());
    assert_eq!(round_trip(v), RespValue::SimpleString(b"fine".to_vec()));
}

#[test]
fn test_round_trip_error() {
    let v = RespValue::Error(b"ERR x".to_vec());
    assert_eq!(round_trip(v), RespValue::Error(b"ERR x".to_vec()));
}

#[test]
fn test_round_trip_integer() {
    assert_eq!(round_trip(RespValue::Integer(42)), RespValue::Integer(42));
    assert_eq!(round_trip(RespValue::Integer(-7)), RespValue::Integer(-7));
    assert_eq!(
        round_trip(RespValue::Integer(i64::MAX)),
        RespValue::Integer(i64::MAX)
    );
}

#[test]
fn test_round_trip_bulk_string() {
    assert_eq!(
        round_trip(RespValue::BulkString(Some(b"abc".to_vec()))),
        RespValue::BulkString(Some(b"abc".to_vec()))
    );
    assert_eq!(
        round_trip(RespValue::BulkString(Some(Vec::new()))),
        RespValue::BulkString(Some(Vec::new()))
    );
}

#[test]
fn test_round_trip_null_forms() {
    // Both null spellings encode as a null bulk string, whose decoded form is
    // Null; a null array round-trips as itself.
    assert_eq!(round_trip(RespValue::Null), RespValue::Null);
    assert_eq!(round_trip(RespValue::BulkString(None)), RespValue::Null);
    assert_eq!(round_trip(RespValue::Array(None)), RespValue::Array(None));
}

#[test]
fn test_round_trip_array() {
    let v = RespValue::Array(Some(vec![
        RespValue::Integer(1),
        RespValue::SimpleString(b"two".to_vec()),
        RespValue::BulkString(Some(b"three".to_vec())),
        RespValue::Array(Some(vec![RespValue::Integer(4)])),
        RespValue::Array(None),
        RespValue::Array(Some(Vec::new())),
    ]));
    let w = RespValue::Array(Some(vec![
        RespValue::Integer(1),
        RespValue::SimpleString(b"two".to_vec()),
        RespValue::BulkString(Some(b"three".to_vec())),
        RespValue::Array(Some(vec![RespValue::Integer(4)])),
        RespValue::Array(None),
        RespValue::Array(Some(Vec::new())),
    ]));
    assert_eq!(round_trip(v), w);
}
