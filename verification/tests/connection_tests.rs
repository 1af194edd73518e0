use resp_core::connection::{connection_step, ConnState, ConnectionError, ReadEvent};

#[test]
fn test_connection_ping_then_echo_stays_open() {
    let r1 = connection_step(
        ConnState::Reading,
        ReadEvent::Data(b"*1\r\n$4\r\nPING\r\n".to_vec()),
    );
    assert_eq!(r1.reply, Some(b"+PONG\r\n".to_vec()));
    assert_eq!(r1.next, ConnState::Reading);
    assert_eq!(r1.report, None);

    let r2 = connection_step(
        r1.next,
        ReadEvent::Data(b"*2\r\n$4\r\nECHO\r\n$3\r\nfoo\r\n".to_vec()),
    );
    assert_eq!(r2.reply, Some(b"$3\r\nfoo\r\n".to_vec()));
    assert_eq!(r2.next, ConnState::Reading);
    assert_eq!(r2.report, None);

    let r3 = connection_step(r2.next, ReadEvent::Data(b"*1\r\n$4\r\nping\r\n".to_vec()));
    assert_eq!(r3.reply, Some(b"+PONG\r\n".to_vec()));
    assert_eq!(r3.next, ConnState::Reading);
}

#[test]
fn test_connection_decode_failure_replies_and_closes() {
    let r = connection_step(ConnState::Reading, ReadEvent::Data(b"?junk\r\n".to_vec()));
    assert_eq!(r.reply, Some(b"-ERR\r\n".to_vec()));
    assert_eq!(r.next, ConnState::Closed);
    assert_eq!(r.report, None);
}

#[test]
fn test_connection_dispatch_failure_replies_and_closes() {
    let r = connection_step(ConnState::Reading, ReadEvent::Data(b":42\r\n".to_vec()));
    assert_eq!(r.reply, Some(b"-ERR\r\n".to_vec()));
    assert_eq!(r.next, ConnState::Closed);
}

#[test]
fn test_connection_eof_closes_cleanly() {
    let r = connection_step(ConnState::Reading, ReadEvent::Eof);
    assert_eq!(r.reply, None);
    assert_eq!(r.next, ConnState::Closed);
    assert_eq!(r.report, Some(ConnectionError::PeerClosed));
}

#[test]
fn test_connection_would_block_keeps_reading() {
    let r = connection_step(ConnState::Reading, ReadEvent::WouldBlock);
    assert_eq!(r.reply, None);
    assert_eq!(r.next, ConnState::Reading);
    assert_eq!(r.report, None);
}

#[test]
fn test_connection_io_failure_closes() {
    let r = connection_step(ConnState::Reading, ReadEvent::Failed);
    assert_eq!(r.reply, None);
    assert_eq!(r.next, ConnState::Closed);
    assert_eq!(r.report, Some(ConnectionError::IoFailure));
}

#[test]
fn test_closed_connection_stays_closed() {
    let r = connection_step(ConnState::Closed, ReadEvent::Data(b"+OK\r\n".to_vec()));
    assert_eq!(r.reply, None);
    assert_eq!(r.next, ConnState::Closed);
    assert_eq!(r.report, None);
}
