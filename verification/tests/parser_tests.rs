use resp_core::parser::model::ParseError;
use resp_core::parser::{
    parse_array, parse_bulk_string, parse_integer, parse_resp, parse_simple_string, RedisType,
};

#[test]
fn test_parsing_simple_string() {
    let parsed = parse_simple_string(b"OK\r\n").unwrap();
    match parsed.redis_type {
        RedisType::SimpleString(x) => {
            assert_eq!(x, String::from("OK"));
            assert_eq!(parsed.bytes_read, 2);
        }
        _ => panic!("Incorrect type"),
    }
}

#[test]
fn test_parsing_negative_integer() {
    let parsed = parse_integer(b"-1000\r\n").unwrap();
    match parsed.redis_type {
        RedisType::Integer(x) => {
            assert_eq!(x, -1000);
            assert_eq!(parsed.bytes_read, 5);
        }
        _ => panic!("Incorrect type"),
    }
}

#[test]
fn test_parse_bulk_string() {
    let parsed = parse_bulk_string(b"5\r\nhello\r\n").unwrap();
    match parsed.redis_type {
        RedisType::BulkString(Some(s)) => {
            assert_eq!(s, b"hello".to_vec());
            assert_eq!(parsed.bytes_read, 8)
        }
        _ => panic!("Expected bulk string type"),
    }
}

#[test]
fn test_parse_array() {
    let parsed = parse_array(b"2\r\n$5\r\nhello\r\n$5\r\nworld\r\n").unwrap();
    match parsed.redis_type {
        RedisType::Array(arr) => {
            assert_eq!(arr.len(), 2);
            match &arr[0] {
                RedisType::BulkString(Some(s)) => assert_eq!(s, &b"hello".to_vec()),
                _ => panic!("Expected bulk string type"),
            };
        }
        _ => panic!("Expected array type"),
    }
}

#[test]
fn test_parse_resp_spans_whole_frame() {
    let parsed = parse_resp(b"$5\r\nhello\r\n").unwrap();
    match parsed.redis_type {
        RedisType::BulkString(Some(s)) => assert_eq!(s, b"hello".to_vec()),
        _ => panic!("Expected bulk string type"),
    }
    assert_eq!(parsed.bytes_read, 11);
}

#[test]
fn test_parse_resp_ignores_trailing_bytes() {
    let mut buffer = b"+PONG\r\n".to_vec();
    buffer.resize(1024, 0);
    let parsed = parse_resp(&buffer).unwrap();
    match parsed.redis_type {
        RedisType::SimpleString(x) => assert_eq!(x, String::from("PONG")),
        _ => panic!("Incorrect type"),
    }
    assert_eq!(parsed.bytes_read, 7);
}

#[test]
fn test_parse_null_bulk_string() {
    let parsed = parse_resp(b"$-1\r\n").unwrap();
    assert_eq!(parsed.redis_type, RedisType::BulkString(None));
    assert_eq!(parsed.bytes_read, 5);
}

#[test]
fn test_parse_zero_length_bulk_string() {
    let parsed = parse_resp(b"$0\r\n\r\n").unwrap();
    assert_eq!(parsed.redis_type, RedisType::BulkString(Some(Vec::new())));
    assert_eq!(parsed.bytes_read, 6);
}

#[test]
fn test_parse_empty_array() {
    let parsed = parse_resp(b"*0\r\n").unwrap();
    assert_eq!(parsed.redis_type, RedisType::Array(Vec::new()));
    assert_eq!(parsed.bytes_read, 4);
}

#[test]
fn test_parse_unknown_type() {
    assert_eq!(parse_resp(b"?what\r\n"), Err(ParseError::UnknownType));
}

#[test]
fn test_parse_empty_buffer() {
    assert_eq!(parse_resp(b""), Err(ParseError::TruncatedData));
}

#[test]
fn test_parse_missing_terminator() {
    assert_eq!(parse_resp(b"+OK"), Err(ParseError::MissingTerminator));
}

#[test]
fn test_parse_invalid_integer() {
    assert_eq!(parse_resp(b":12a\r\n"), Err(ParseError::InvalidInteger));
    assert_eq!(parse_resp(b":\r\n"), Err(ParseError::InvalidInteger));
    assert_eq!(parse_resp(b":-\r\n"), Err(ParseError::InvalidInteger));
}

#[test]
fn test_parse_integer_overflow() {
    assert_eq!(
        parse_resp(b":9223372036854775808\r\n"),
        Err(ParseError::InvalidInteger)
    );
    let parsed = parse_resp(b":9223372036854775807\r\n").unwrap();
    assert_eq!(parsed.redis_type, RedisType::Integer(i64::MAX));
    let parsed = parse_resp(b":-9223372036854775808\r\n").unwrap();
    assert_eq!(parsed.redis_type, RedisType::Integer(i64::MIN));
    assert_eq!(
        parse_resp(b":-9223372036854775809\r\n"),
        Err(ParseError::InvalidInteger)
    );
}

#[test]
fn test_parse_invalid_utf8_simple_string() {
    let buffer: Vec<u8> = vec![43, 255, 254, 13, 10];
    assert_eq!(parse_resp(&buffer), Err(ParseError::Utf8Invalid));
}

#[test]
fn test_parse_truncated_bulk_payload() {
    assert_eq!(parse_resp(b"$5\r\nhel"), Err(ParseError::TruncatedData));
    assert_eq!(parse_resp(b"$5\r\nhello"), Err(ParseError::TruncatedData));
    assert_eq!(parse_resp(b"$5\r\nhelloXY"), Err(ParseError::MissingTerminator));
}
