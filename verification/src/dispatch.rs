//! Command dispatcher: maps a decoded array-shaped value to the bytes
//! of its reply, with no state and no side effects.

use vstd::prelude::*;
use vstd::utf8::encode_utf8;

use crate::encode::encode_bulk;
use crate::parser::model::{encode_spec, RespVal, CR, LF};
use crate::parser::{lemma_views_of, views_of, RedisType};

verus! {

/// Why a decoded value could not be dispatched as a command.
#[derive(Debug, PartialEq, Eq)]
pub enum DispatchError {
    MalformedCommand,
    UnknownCommand(Vec<u8>),
}

/// Ghost counterpart of a dispatch failure.
pub enum DispatchErrView {
    MalformedCommand,
    UnknownCommand(Seq<u8>),
}

impl View for DispatchError {
    type V = DispatchErrView;

    open spec fn view(&self) -> DispatchErrView {
        match self {
            DispatchError::MalformedCommand => DispatchErrView::MalformedCommand,
            DispatchError::UnknownCommand(name) => DispatchErrView::UnknownCommand(name@),
        }
    }
}

pub open spec fn ascii_upper(b: u8) -> u8 {
    if 97 <= b <= 122 {
        (b - 32) as u8
    } else {
        b
    }
}

pub open spec fn upper_seq(s: Seq<u8>) -> Seq<u8> {
    Seq::new(s.len(), |i: int| ascii_upper(s[i]))
}

/// A command element: a simple string or a present bulk string.
pub open spec fn stringish(v: RespVal) -> bool {
    match v {
        RespVal::SimpleString(_) => true,
        RespVal::BulkString(o) => o is Some,
        _ => false,
    }
}

/// The bytes a command element contributes: the UTF-8 form of a simple
/// string, or a bulk string's payload itself.
pub open spec fn elem_bytes(v: RespVal) -> Seq<u8> {
    match v {
        RespVal::SimpleString(s) => encode_utf8(s),
        RespVal::BulkString(Some(b)) => b,
        _ => Seq::empty(),
    }
}

pub open spec fn ping_name() -> Seq<u8> {
    seq![80u8, 73u8, 78u8, 71u8]
}

pub open spec fn echo_name() -> Seq<u8> {
    seq![69u8, 67u8, 72u8, 79u8]
}

/// The fixed acknowledgment of the liveness command, a simple string.
pub open spec fn pong_reply() -> Seq<u8> {
    seq![43u8, 80u8, 79u8, 78u8, 71u8, CR, LF]
}

/// What dispatching a decoded value yields: a command is an array of
/// string elements whose first, compared without regard to ASCII case,
/// names it. The liveness command is acknowledged; the echo command
/// answers its argument as a bulk string; anything else is refused with
/// the reason.
pub open spec fn dispatch_spec(v: RespVal) -> Result<Seq<u8>, DispatchErrView> {
    match v {
        RespVal::Array(es) => if es.len() == 0 || !(forall|i: int|
            0 <= i < es.len() ==> stringish(#[trigger] es[i])) {
            Err(DispatchErrView::MalformedCommand)
        } else {
            let name = elem_bytes(es[0]);
            if upper_seq(name) == ping_name() {
                Ok(pong_reply())
            } else if upper_seq(name) == echo_name() {
                if es.len() >= 2 {
                    Ok(encode_spec(RespVal::BulkString(Some(elem_bytes(es[1])))))
                } else {
                    Err(DispatchErrView::MalformedCommand)
                }
            } else {
                Err(DispatchErrView::UnknownCommand(name))
            }
        },
        _ => Err(DispatchErrView::MalformedCommand),
    }
}

pub open spec fn dispatch_res_view(r: Result<Vec<u8>, DispatchError>) -> Result<
    Seq<u8>,
    DispatchErrView,
> {
    match r {
        Ok(v) => Ok(v@),
        Err(e) => Err(e@),
    }
}

/// Uppercase one byte the way command names are compared.
fn upper_byte(b: u8) -> (r: u8)
    ensures
        r == ascii_upper(b),
{
    if b >= 97 && b <= 122 {
        b - 32
    } else {
        b
    }
}

/// Whether a name matches a four-byte command word, case-insensitively.
fn name_is(name: &[u8], c0: u8, c1: u8, c2: u8, c3: u8) -> (r: bool)
    ensures
        r == (upper_seq(name@) == seq![c0, c1, c2, c3]),
{
    if name.len() != 4 {
        proof {
            assert(upper_seq(name@).len() == name@.len());
        }
        return false;
    }
    let r = upper_byte(name[0]) == c0 && upper_byte(name[1]) == c1 && upper_byte(name[2]) == c2
        && upper_byte(name[3]) == c3;
    proof {
        if r {
            assert(upper_seq(name@) =~= seq![c0, c1, c2, c3]);
        } else {
            assert(upper_seq(name@) != seq![c0, c1, c2, c3]);
        }
    }
    r
}

/// The bytes of a command element that carries a string.
fn elem_bytes_exec<'a>(e: &'a RedisType) -> (r: &'a [u8])
    requires
        stringish(e@),
    ensures
        r@ == elem_bytes(e@),
{
    match e {
        RedisType::SimpleString(s) => s.as_str().as_bytes(),
        RedisType::BulkString(Some(b)) => b.as_slice(),
        _ => vstd::pervasive::unreached(),
    }
}

/// Map a decoded value to its reply bytes, or to the reason it is no
/// command.
#[verifier::loop_isolation(false)]
pub fn dispatch(value: &RedisType) -> (r: Result<Vec<u8>, DispatchError>)
    ensures
        dispatch_res_view(r) == dispatch_spec(value@),
{
    match value {
        RedisType::Array(es) => {
            proof {
                lemma_views_of(es@);
            }
            let n = es.len();
            if n == 0 {
                return Err(DispatchError::MalformedCommand);
            }
            let mut j: usize = 0;
            while j < n
                invariant
                    j <= n,
                    forall|i: int| 0 <= i < j ==> stringish(#[trigger] views_of(es@)[i]),
                decreases n - j,
            {
                let ok = match &es[j] {
                    RedisType::SimpleString(_) => true,
                    RedisType::BulkString(Some(_)) => true,
                    _ => false,
                };
                if !ok {
                    proof {
                        assert(!stringish(views_of(es@)[j as int]));
                    }
                    return Err(DispatchError::MalformedCommand);
                }
                j += 1;
            }
            let name = elem_bytes_exec(&es[0]);
            if name_is(name, 80, 73, 78, 71) {
                let mut out: Vec<u8> = Vec::new();
                out.push(43);
                out.push(80);
                out.push(79);
                out.push(78);
                out.push(71);
                out.push(CR);
                out.push(LF);
                proof {
                    assert(out@ =~= pong_reply());
                }
                Ok(out)
            } else if name_is(name, 69, 67, 72, 79) {
                if es.len() >= 2 {
                    let arg = elem_bytes_exec(&es[1]);
                    Ok(encode_bulk(arg))
                } else {
                    Err(DispatchError::MalformedCommand)
                }
            } else {
                Err(DispatchError::UnknownCommand(vstd::slice::slice_to_vec(name)))
            }
        },
        _ => Err(DispatchError::MalformedCommand),
    }
}

} // verus!
