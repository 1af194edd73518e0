use resp_core::dispatch::{dispatch, DispatchError};
use resp_core::parser::RedisType;

fn bulk(s: &str) -> RedisType {
    RedisType::BulkString(Some(s.as_bytes().to_vec()))
}

#[test]
fn test_dispatch_ping_is_case_insensitive() {
    for name in ["PING", "ping", "PiNg"] {
        let v = RedisType::Array(vec![bulk(name)]);
        assert_eq!(dispatch(&v).unwrap(), b"+PONG\r\n".to_vec());
    }
}

#[test]
fn test_dispatch_ping_simple_string_name() {
    let v = RedisType::Array(vec![RedisType::SimpleString(String::from("ping"))]);
    assert_eq!(dispatch(&v).unwrap(), b"+PONG\r\n".to_vec());
}

#[test]
fn test_dispatch_echo_replies_bulk_with_length() {
    let v = RedisType::Array(vec![bulk("ECHO"), bulk("hi")]);
    assert_eq!(dispatch(&v).unwrap(), b"$2\r\nhi\r\n".to_vec());
}

#[test]
fn test_dispatch_echo_missing_argument() {
    let v = RedisType::Array(vec![bulk("echo")]);
    assert_eq!(dispatch(&v), Err(DispatchError::MalformedCommand));
}

#[test]
fn test_dispatch_unknown_command() {
    let v = RedisType::Array(vec![bulk("FLUSH")]);
    assert_eq!(
        dispatch(&v),
        Err(DispatchError::UnknownCommand(b"FLUSH".to_vec()))
    );
}

#[test]
fn test_dispatch_malformed_inputs() {
    // not an array at all
    assert_eq!(
        dispatch(&RedisType::Integer(5)),
        Err(DispatchError::MalformedCommand)
    );
    assert_eq!(
        dispatch(&RedisType::SimpleString(String::from("PING"))),
        Err(DispatchError::MalformedCommand)
    );
    // empty array
    assert_eq!(
        dispatch(&RedisType::Array(Vec::new())),
        Err(DispatchError::MalformedCommand)
    );
    // an element that is not a string
    let v = RedisType::Array(vec![bulk("PING"), RedisType::Integer(1)]);
    assert_eq!(dispatch(&v), Err(DispatchError::MalformedCommand));
    // a null bulk string carries no text
    let v = RedisType::Array(vec![RedisType::BulkString(None)]);
    assert_eq!(dispatch(&v), Err(DispatchError::MalformedCommand));
}
