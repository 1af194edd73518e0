//! Frame decoder: reads one typed value from the front of a byte buffer
//! and reports the exact number of bytes it spans.

pub mod model;
pub mod util;

use vstd::prelude::*;
use vstd::utf8::{decode_utf8, valid_utf8};

use crate::parser::model::{
    all_digits, dec_array, dec_bulk, dec_elems, dec_frame, dec_integer, dec_simple, digits_val,
    int_text_val, int_text_valid, lemma_digits_val_mono, lemma_digits_val_take_succ,
    parse_int_spec, ParseError, RespVal, CR, LF,
};
use crate::parser::util::read_until_crlf;

verus! {

/// A decoded protocol value. Bulk strings are binary-safe byte payloads;
/// the absent payload stands for the protocol's null bulk string.
#[derive(Debug, PartialEq, Eq)]
pub enum RedisType {
    SimpleString(String),
    Error(String),
    Integer(i64),
    BulkString(Option<Vec<u8>>),
    Array(Vec<RedisType>),
}

pub open spec fn value_view(v: RedisType) -> RespVal
    decreases v,
    via value_view_decreases
{
    match v {
        RedisType::SimpleString(s) => RespVal::SimpleString(s@),
        RedisType::Error(s) => RespVal::Error(s@),
        RedisType::Integer(i) => RespVal::Integer(i),
        RedisType::BulkString(o) => RespVal::BulkString(
            match o {
                Some(b) => Some(b@),
                None => None,
            },
        ),
        RedisType::Array(elems) => RespVal::Array(views_of(elems@)),
    }
}

/// Ghost views of a sequence of decoded values, element by element.
pub open spec fn views_of(s: Seq<RedisType>) -> Seq<RespVal>
    decreases s,
{
    if s.len() == 0 {
        Seq::empty()
    } else {
        seq![value_view(s[0])] + views_of(s.drop_first())
    }
}

#[via_fn]
proof fn value_view_decreases(v: RedisType) {
    match v {
        RedisType::Array(elems) => {
            assert(decreases_to!(v => elems));
            assert(decreases_to!(elems => elems@));
        },
        _ => (),
    }
}

pub proof fn lemma_views_of_push(s: Seq<RedisType>, v: RedisType)
    ensures
        views_of(s.push(v)) == views_of(s) + seq![value_view(v)],
    decreases s.len(),
{
    if s.len() == 0 {
        assert(s.push(v).drop_first() =~= Seq::<RedisType>::empty());
        assert(s.push(v)[0] == v);
        assert(views_of(s.push(v)) == seq![value_view(v)] + views_of(s.push(v).drop_first()));
        assert(views_of(Seq::<RedisType>::empty()) =~= Seq::<RespVal>::empty());
        assert(views_of(s.push(v)) =~= views_of(s) + seq![value_view(v)]);
    } else {
        assert(s.push(v).drop_first() =~= s.drop_first().push(v));
        lemma_views_of_push(s.drop_first(), v);
        assert(s.push(v)[0] == s[0]);
        assert(views_of(s.push(v)) == seq![value_view(s[0])] + (views_of(s.drop_first())
            + seq![value_view(v)]));
        assert(views_of(s.push(v)) =~= views_of(s) + seq![value_view(v)]);
    }
}

pub proof fn lemma_views_of(s: Seq<RedisType>)
    ensures
        views_of(s).len() == s.len(),
        forall|i: int| 0 <= i < s.len() ==> views_of(s)[i] == value_view(#[trigger] s[i]),
    decreases s.len(),
{
    if s.len() > 0 {
        lemma_views_of(s.drop_first());
        assert forall|i: int| 0 <= i < s.len() implies views_of(s)[i] == value_view(
            #[trigger] s[i],
        ) by {
            if i > 0 {
                assert(s.drop_first()[i - 1] == s[i]);
            }
        }
    }
}

impl View for RedisType {
    type V = RespVal;

    open spec fn view(&self) -> RespVal {
        value_view(*self)
    }
}

/// A decoded value together with the exact byte count it spans in the
/// input, from the leading type tag through the final terminator.
#[derive(Debug, PartialEq, Eq)]
pub struct Parsed {
    pub redis_type: RedisType,
    pub bytes_read: usize,
}

pub open spec fn parsed_res_view(r: Result<Parsed, ParseError>) -> Result<
    (RespVal, int),
    ParseError,
> {
    match r {
        Ok(p) => Ok((p.redis_type@, p.bytes_read as int)),
        Err(e) => Err(e),
    }
}

/// Relies on String::from_utf8: it succeeds exactly on well-formed UTF-8
/// input and decodes those bytes, without copying or altering them.
#[verifier::external_body]
pub(crate) fn bytes_to_string(bytes: Vec<u8>) -> (r: Option<String>)
    ensures
        r is Some <==> valid_utf8(bytes@),
        r matches Some(s) ==> s@ == decode_utf8(bytes@),
{
    match String::from_utf8(bytes) {
        Ok(s) => Some(s),
        Err(_) => None,
    }
}

/// Parse a whole buffer of text as a signed 64-bit decimal number.
fn parse_i64(s: &[u8]) -> (r: Option<i64>)
    ensures
        r == parse_int_spec(s@),
{
    let n = s.len();
    if n == 0 {
        return None;
    }
    let neg = s[0] == 45;
    let start: usize = if neg {
        1
    } else {
        0
    };
    if n == start {
        return None;
    }
    let ghost digits = if neg {
        s@.skip(1)
    } else {
        s@
    };
    proof {
        assert(digits =~= s@.subrange(start as int, n as int));
    }
    let mut acc: u64 = 0;
    let mut i: usize = start;
    while i < n
        invariant
            n == s@.len(),
            start <= i <= n,
            start < n,
            neg <==> s@[0] == 45,
            start == if neg {
                1int
            } else {
                0int
            },
            digits == s@.subrange(start as int, n as int),
            all_digits(s@.subrange(start as int, i as int)),
            acc == digits_val(s@.subrange(start as int, i as int)),
            acc <= 9223372036854775808u64,
        decreases n - i,
    {
        let b = s[i];
        if b < 48 || b > 57 {
            proof {
                assert(digits[i - start] == s@[i as int]);
                assert(!int_text_valid(s@));
            }
            return None;
        }
        let d = (b - 48) as u64;
        let ghost k = i - start;
        proof {
            assert(digits.take(k as int) =~= s@.subrange(start as int, i as int));
            assert(digits.take(k as int + 1) =~= s@.subrange(start as int, i as int + 1));
            assert(digits[k as int] == b);
            lemma_digits_val_take_succ(digits, k as int);
        }
        if acc > 922337203685477580u64 {
            proof {
                lemma_too_large(s@, digits, neg, i as int, start as int, acc as int, d as int);
            }
            return None;
        }
        acc = acc * 10;
        if acc > 9223372036854775808u64 - d {
            proof {
                lemma_too_large(
                    s@,
                    digits,
                    neg,
                    i as int,
                    start as int,
                    acc as int / 10,
                    d as int,
                );
            }
            return None;
        }
        acc = acc + d;
        i += 1;
    }
    proof {
        assert(digits =~= s@.subrange(start as int, i as int));
        assert(int_text_valid(s@));
        assert(int_text_val(s@) == if neg {
            -(acc as int)
        } else {
            acc as int
        });
    }
    if neg {
        if acc == 9223372036854775808u64 {
            Some(i64::MIN)
        } else {
            Some(-(acc as i64))
        }
    } else {
        if acc >= 9223372036854775808u64 {
            proof {
                assert(int_text_val(s@) > i64::MAX);
            }
            None
        } else {
            Some(acc as i64)
        }
    }
}

/// The digits read so far already exceed the 64-bit magnitude bound, so
/// whatever follows, the text is not a 64-bit number.
proof fn lemma_too_large(
    s: Seq<u8>,
    digits: Seq<u8>,
    neg: bool,
    i: int,
    start: int,
    acc: int,
    d: int,
)
    requires
        start <= i < s.len(),
        start == if neg {
            1int
        } else {
            0int
        },
        neg <==> s[0] == 45,
        digits == s.subrange(start, s.len() as int),
        digits_val(digits.take(i - start + 1)) == acc * 10 + d,
        acc * 10 + d > 9223372036854775808,
    ensures
        parse_int_spec(s) is None,
{
    if int_text_valid(s) {
        assert(all_digits(digits));
        lemma_digits_val_mono(digits, i - start + 1);
        assert(digits_val(digits) > 9223372036854775808);
        if neg {
            assert(digits =~= s.skip(1));
            assert(int_text_val(s) < i64::MIN);
        } else {
            assert(digits =~= s);
            assert(int_text_val(s) > i64::MAX);
        }
    }
}

/// Decode a simple-string body: the text before the first terminator.
pub fn parse_simple_string(buffer: &[u8]) -> (r: Result<Parsed, ParseError>)
    ensures
        parsed_res_view(r) == dec_simple(buffer@),
        r matches Ok(p) ==> p.bytes_read + 2 <= buffer@.len(),
{
    match read_until_crlf(buffer) {
        None => Err(ParseError::MissingTerminator),
        Some(content) => {
            let bytes_read = content.len();
            let owned = vstd::slice::slice_to_vec(content);
            match bytes_to_string(owned) {
                None => Err(ParseError::Utf8Invalid),
                Some(s) => Ok(
                    Parsed { redis_type: RedisType::SimpleString(s), bytes_read },
                ),
            }
        },
    }
}

/// Decode an integer body: signed decimal text before the terminator.
pub fn parse_integer(buffer: &[u8]) -> (r: Result<Parsed, ParseError>)
    ensures
        parsed_res_view(r) == dec_integer(buffer@),
        r matches Ok(p) ==> p.bytes_read + 2 <= buffer@.len(),
{
    match read_until_crlf(buffer) {
        None => Err(ParseError::MissingTerminator),
        Some(content) => match parse_i64(content) {
            None => Err(ParseError::InvalidInteger),
            Some(v) => Ok(Parsed { redis_type: RedisType::Integer(v), bytes_read: content.len() }),
        },
    }
}

/// Decode a bulk-string body: a declared length, then exactly that many
/// payload bytes, then one more terminator. A negative declared length is
/// the null bulk string, whose payload is absent.
pub fn parse_bulk_string(buffer: &[u8]) -> (r: Result<Parsed, ParseError>)
    ensures
        parsed_res_view(r) == dec_bulk(buffer@),
        r matches Ok(p) ==> p.bytes_read + 2 <= buffer@.len(),
{
    match read_until_crlf(buffer) {
        None => Err(ParseError::MissingTerminator),
        Some(content) => match parse_i64(content) {
            None => Err(ParseError::InvalidInteger),
            Some(len) => {
                let i: usize = content.len();
                if len < 0 {
                    return Ok(
                        Parsed { redis_type: RedisType::BulkString(None), bytes_read: i },
                    );
                }
                let total: usize = buffer.len();
                let start: usize = i + 2;
                let remaining: usize = total - start;
                if (len as u64) > (remaining as u64) {
                    return Err(ParseError::TruncatedData);
                }
                let payload_len = len as usize;
                if remaining - payload_len < 2 {
                    return Err(ParseError::TruncatedData);
                }
                if buffer[start + payload_len] == CR && buffer[start + payload_len + 1] == LF {
                    let payload = vstd::slice::slice_to_vec(
                        vstd::slice::slice_subrange(buffer, start, start + payload_len),
                    );
                    Ok(
                        Parsed {
                            redis_type: RedisType::BulkString(Some(payload)),
                            bytes_read: start + payload_len,
                        },
                    )
                } else {
                    Err(ParseError::MissingTerminator)
                }
            },
        },
    }
}

/// Decode one frame from the front of the buffer. The reported span runs
/// from the leading type-tag byte through the final terminator, so a
/// caller knows exactly where the next frame would begin.
pub fn parse_resp(buffer: &[u8]) -> (r: Result<Parsed, ParseError>)
    ensures
        parsed_res_view(r) == dec_frame(buffer@),
        r matches Ok(p) ==> 3 <= p.bytes_read <= buffer@.len(),
    decreases buffer@.len(), 1int,
{
    if buffer.len() == 0 {
        return Err(ParseError::TruncatedData);
    }
    let tag = buffer[0];
    let tail = vstd::slice::slice_subrange(buffer, 1, buffer.len());
    proof {
        assert(tail@ =~= buffer@.skip(1));
    }
    let sub = if tag == 43 {
        parse_simple_string(tail)
    } else if tag == 58 {
        parse_integer(tail)
    } else if tag == 36 {
        parse_bulk_string(tail)
    } else if tag == 42 {
        parse_array(tail)
    } else {
        return Err(ParseError::UnknownType);
    };
    match sub {
        Err(e) => Err(e),
        Ok(p) => Ok(Parsed { redis_type: p.redis_type, bytes_read: p.bytes_read + 3 }),
    }
}

/// Decode an array body: a declared element count, then that many frames
/// in sequence, accumulating the bytes each one spans.
#[verifier::loop_isolation(false)]
pub fn parse_array(buffer: &[u8]) -> (r: Result<Parsed, ParseError>)
    ensures
        parsed_res_view(r) == dec_array(buffer@),
        r matches Ok(p) ==> p.bytes_read + 2 <= buffer@.len(),
    decreases buffer@.len(), 0int,
{
    match read_until_crlf(buffer) {
        None => Err(ParseError::MissingTerminator),
        Some(content) => match parse_i64(content) {
            None => Err(ParseError::InvalidInteger),
            Some(count) => {
                let i: usize = content.len();
                let total: usize = buffer.len();
                let ghost region = buffer@.skip(i as int + 2);
                let mut elems: Vec<RedisType> = Vec::new();
                let mut idx: usize = i + 2;
                let mut k: i64 = 0;
                proof {
                    if dec_elems(region, count as int) is Ok {
                        let (vs, m) = dec_elems(region, count as int)->Ok_0;
                        assert(views_of(elems@) + vs =~= vs);
                    }
                }
                while k < count
                    invariant
                        0 <= k,
                        count > 0 ==> k <= count,
                        i + 2 <= idx <= buffer@.len(),
                        region == buffer@.skip(i as int + 2),
                        elems@.len() == k,
                        dec_elems(region, count as int) == (match dec_elems(
                            buffer@.skip(idx as int),
                            count - k,
                        ) {
                            Ok((vs, m)) => Ok::<_, ParseError>(
                                (views_of(elems@) + vs, idx - (i + 2) + m),
                            ),
                            Err(e) => Err(e),
                        }),
                    decreases count - k,
                {
                    let sub = vstd::slice::slice_subrange(buffer, idx, buffer.len());
                    proof {
                        assert(sub@ =~= buffer@.skip(idx as int));
                    }
                    match parse_resp(sub) {
                        Err(e) => {
                            proof {
                                assert(dec_elems(region, count as int) == Err::<
                                    (Seq<RespVal>, int),
                                    _,
                                >(e));
                                assert(buffer@.take(i as int) == content@);
                                assert(dec_array(buffer@) == Err::<(RespVal, int), ParseError>(e));
                            }
                            return Err(e);
                        },
                        Ok(p) => {
                            let ghost prev = elems@;
                            let ghost prev_idx = idx as int;
                            let ghost v = p.redis_type@;
                            let ghost n = p.bytes_read as int;
                            elems.push(p.redis_type);
                            idx += p.bytes_read;
                            k += 1;
                            proof {
                                lemma_views_of_push(prev, p.redis_type);
                                let s_prev = buffer@.skip(prev_idx);
                                assert(s_prev.skip(n) =~= buffer@.skip(idx as int));
                                assert(dec_frame(s_prev) == Ok::<_, ParseError>((v, n)));
                                assert(dec_elems(s_prev, count - k + 1) == (match dec_elems(
                                    buffer@.skip(idx as int),
                                    count - k,
                                ) {
                                    Ok((vs, m)) => Ok::<_, ParseError>((seq![v] + vs, n + m)),
                                    Err(e) => Err(e),
                                }));
                                if dec_elems(buffer@.skip(idx as int), count - k) is Ok {
                                    let (vs, m) = dec_elems(
                                        buffer@.skip(idx as int),
                                        count - k,
                                    )->Ok_0;
                                    assert(views_of(prev) + (seq![v] + vs) =~= views_of(elems@)
                                        + vs);
                                }
                            }
                        },
                    }
                }
                proof {
                    assert(dec_elems(buffer@.skip(idx as int), 0) == Ok::<_, ParseError>(
                        (Seq::<RespVal>::empty(), 0int),
                    ));
                    assert(views_of(elems@) + Seq::<RespVal>::empty() =~= views_of(elems@));
                }
                Ok(
                    Parsed { redis_type: RedisType::Array(elems), bytes_read: idx - 2 },
                )
            },
        },
    }
}

} // verus!
