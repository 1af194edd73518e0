//! Decision logic of the per-connection loop: what one read event leads
//! to — a reply to write, the next state, and what to report. The I/O
//! around it is the caller's: it hands in what the read produced and
//! performs the write and the close that the step decides.

use vstd::prelude::*;

use crate::dispatch::{dispatch, dispatch_spec};
use crate::parser::model::{dec_frame, CR, LF};
use crate::parser::parse_resp;

verus! {

/// What ends a connection.
#[derive(Clone, Copy, Debug, PartialEq, Eq, Structural)]
pub enum ConnectionError {
    PeerClosed,
    IoFailure,
}

/// The state a connection is in between read events.
#[derive(Clone, Copy, Debug, PartialEq, Eq, Structural)]
pub enum ConnState {
    Reading,
    Closed,
}

/// One outcome of waiting to read on the socket.
#[derive(Debug)]
pub enum ReadEvent {
    Data(Vec<u8>),
    Eof,
    WouldBlock,
    Failed,
}

/// What one step decides: bytes to write back, if any; the next state;
/// and the condition to report when the connection ends without a reply.
#[derive(Debug)]
pub struct StepResult {
    pub reply: Option<Vec<u8>>,
    pub next: ConnState,
    pub report: Option<ConnectionError>,
}

/// The generic error line written before closing on a failed decode or
/// dispatch: a conventional error frame.
pub open spec fn error_reply() -> Seq<u8> {
    seq![45u8, 69u8, 82u8, 82u8, CR, LF]
}

pub open spec fn reply_view(r: Option<Vec<u8>>) -> Option<Seq<u8>> {
    match r {
        Some(v) => Some(v@),
        None => None,
    }
}

/// The connection state machine, one read event at a time. A decoded
/// command is answered and the connection keeps reading; a decode or
/// dispatch failure is answered with the error line and then closes it;
/// end of input and an unrecoverable read failure close it silently; a
/// retryable read leaves it unchanged.
pub open spec fn step_spec(state: ConnState, event: ReadEvent) -> (Option<Seq<u8>>, ConnState, Option<
    ConnectionError,
>) {
    if state is Closed {
        (None, ConnState::Closed, None)
    } else {
        match event {
            ReadEvent::Data(bytes) => match dec_frame(bytes@) {
                Ok((v, n)) => match dispatch_spec(v) {
                    Ok(rep) => (Some(rep), ConnState::Reading, None),
                    Err(_) => (Some(error_reply()), ConnState::Closed, None),
                },
                Err(_) => (Some(error_reply()), ConnState::Closed, None),
            },
            ReadEvent::Eof => (None, ConnState::Closed, Some(ConnectionError::PeerClosed)),
            ReadEvent::WouldBlock => (None, ConnState::Reading, None),
            ReadEvent::Failed => (None, ConnState::Closed, Some(ConnectionError::IoFailure)),
        }
    }
}

fn error_line() -> (r: Vec<u8>)
    ensures
        r@ == error_reply(),
{
    let mut out: Vec<u8> = Vec::new();
    out.push(45);
    out.push(69);
    out.push(82);
    out.push(82);
    out.push(CR);
    out.push(LF);
    proof {
        assert(out@ =~= error_reply());
    }
    out
}

/// Run one step of the connection loop on a read event.
pub fn connection_step(state: ConnState, event: ReadEvent) -> (r: StepResult)
    ensures
        (reply_view(r.reply), r.next, r.report) == step_spec(state, event),
{
    match state {
        ConnState::Closed => StepResult { reply: None, next: ConnState::Closed, report: None },
        ConnState::Reading => match event {
            ReadEvent::Data(bytes) => match parse_resp(bytes.as_slice()) {
                Ok(p) => match dispatch(&p.redis_type) {
                    Ok(rep) => StepResult {
                        reply: Some(rep),
                        next: ConnState::Reading,
                        report: None,
                    },
                    Err(_) => StepResult {
                        reply: Some(error_line()),
                        next: ConnState::Closed,
                        report: None,
                    },
                },
                Err(_) => StepResult {
                    reply: Some(error_line()),
                    next: ConnState::Closed,
                    report: None,
                },
            },
            ReadEvent::Eof => StepResult {
                reply: None,
                next: ConnState::Closed,
                report: Some(ConnectionError::PeerClosed),
            },
            ReadEvent::WouldBlock => StepResult {
                reply: None,
                next: ConnState::Reading,
                report: None,
            },
            ReadEvent::Failed => StepResult {
                reply: None,
                next: ConnState::Closed,
                report: Some(ConnectionError::IoFailure),
            },
        },
    }
}

} // verus!
