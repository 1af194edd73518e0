use resp_core::encode::encode;
use resp_core::parser::model::ParseError;
use resp_core::parser::{parse_resp, RedisType};

#[test]
fn test_encode_exact_bytes() {
    assert_eq!(
        encode(&RedisType::SimpleString(String::from("OK"))),
        b"+OK\r\n".to_vec()
    );
    assert_eq!(encode(&RedisType::Integer(-1000)), b":-1000\r\n".to_vec());
    assert_eq!(encode(&RedisType::Integer(0)), b":0\r\n".to_vec());
    assert_eq!(encode(&RedisType::BulkString(None)), b"$-1\r\n".to_vec());
    assert_eq!(
        encode(&RedisType::BulkString(Some(Vec::new()))),
        b"$0\r\n\r\n".to_vec()
    );
    assert_eq!(encode(&RedisType::Array(Vec::new())), b"*0\r\n".to_vec());
    assert_eq!(
        encode(&RedisType::Error(String::from("ERR"))),
        b"-ERR\r\n".to_vec()
    );
}

#[test]
fn test_roundtrip_simple_values() {
    let values = vec![
        RedisType::SimpleString(String::from("PONG")),
        RedisType::Integer(i64::MIN),
        RedisType::Integer(i64::MAX),
        RedisType::BulkString(None),
        RedisType::BulkString(Some(b"hello\r\nworld".to_vec())),
        RedisType::BulkString(Some(Vec::new())),
    ];
    for v in values {
        let enc = encode(&v);
        let parsed = parse_resp(&enc).unwrap();
        assert_eq!(parsed.redis_type, v);
        assert_eq!(parsed.bytes_read, enc.len());
    }
}

#[test]
fn test_roundtrip_nested_array() {
    let v = RedisType::Array(vec![
        RedisType::SimpleString(String::from("OK")),
        RedisType::Array(vec![
            RedisType::Integer(-42),
            RedisType::BulkString(None),
            RedisType::BulkString(Some(b"ab".to_vec())),
        ]),
        RedisType::Array(Vec::new()),
    ]);
    let enc = encode(&v);
    let parsed = parse_resp(&enc).unwrap();
    assert_eq!(parsed.redis_type, v);
    assert_eq!(parsed.bytes_read, enc.len());
}

#[test]
fn test_every_truncation_fails() {
    let v = RedisType::Array(vec![
        RedisType::BulkString(Some(b"hello".to_vec())),
        RedisType::Integer(7),
        RedisType::SimpleString(String::from("done")),
    ]);
    let enc = encode(&v);
    for n in 0..enc.len() {
        let r = parse_resp(&enc[..n]);
        match r {
            Err(ParseError::TruncatedData) | Err(ParseError::MissingTerminator) => {}
            other => panic!("prefix of {} bytes gave {:?}", n, other),
        }
    }
}
