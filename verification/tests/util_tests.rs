#[test]
fn test_read_until_crlf_empty() {
    // Test when the input buffer is empty.
    let buf: &[u8] = &[];
    assert_eq!(resp_core::parser::util::read_until_crlf(buf), None);
}

#[test]
fn test_read_until_crlf_no_crlf() {
    // Test when there is no CRLF in the buffer.
    let buf = b"Hello, World!";
    assert_eq!(resp_core::parser::util::read_until_crlf(buf), None);
}

#[test]
fn test_read_until_crlf_multiple_crlf() {
    // Test when there are multiple CRLF sequences in the buffer.
    let buf = b"Line 1\r\nLine 2\r\nLine 3";
    assert_eq!(
        resp_core::parser::util::read_until_crlf(buf),
        Some(b"Line 1" as &[u8])
    );
}

#[test]
fn util_test_read_until_crlf_empty() {
    // Test when the input buffer is empty.
    let buf: &[u8] = &[];
    assert_eq!(resp_core::util::read_until_crlf(buf), None);
}

#[test]
fn util_test_read_until_crlf_no_crlf() {
    // Test when there is no CRLF in the buffer.
    let buf = b"Hello, World!";
    assert_eq!(resp_core::util::read_until_crlf(buf), None);
}

#[test]
fn util_test_read_until_crlf_multiple_crlf() {
    // Test when there are multiple CRLF sequences in the buffer.
    let buf = b"Line 1\r\nLine 2\r\nLine 3";
    assert_eq!(
        resp_core::util::read_until_crlf(buf),
        Some(b"Line 1" as &[u8])
    );
}

#[test]
fn test_to_string_removes_unescaped_characters() {
    let expected = std::str::from_utf8(b"hello\r\nworld").unwrap();
    let result = resp_core::parser::util::to_string("hello\r\nworld".as_bytes()).unwrap();
    assert_eq!(result, expected)
}

#[test]
fn test_to_string_unescapes_literal_pairs() {
    let result = resp_core::parser::util::to_string(b"ab\\r\\ncd").unwrap();
    assert_eq!(result, "ab\r\ncd");
}

#[test]
fn test_to_string_rejects_invalid_utf8() {
    let buf: Vec<u8> = vec![104, 105, 255];
    assert_eq!(
        resp_core::parser::util::to_string(&buf),
        Err(resp_core::parser::model::ParseError::Utf8Invalid)
    );
}
