//! Frame encoder: turns a value back into its unique wire form.

use vstd::prelude::*;

use crate::parser::model::{
    crlf, dec_digits, encode_list, encode_spec, int_digits, lemma_encode_list_push, RespVal, CR,
    LF,
};
use crate::parser::{lemma_views_of, lemma_views_of_push, value_view, views_of, RedisType};

verus! {

/// Append every byte of a slice to a vector.
pub fn push_bytes(out: &mut Vec<u8>, src: &[u8])
    ensures
        final(out)@ == old(out)@ + src@,
{
    let n = src.len();
    let mut i: usize = 0;
    while i < n
        invariant
            n == src@.len(),
            i <= n,
            out@ == old(out)@ + src@.take(i as int),
        decreases n - i,
    {
        out.push(src[i]);
        i += 1;
        proof {
            assert(old(out)@ + src@.take(i as int - 1).push(src@[i as int - 1]) =~= old(out)@
                + src@.take(i as int));
        }
    }
    proof {
        assert(src@.take(n as int) =~= src@);
    }
}

/// Decimal digits of an unsigned value, most significant first.
fn u64_to_dec(n: u64) -> (r: Vec<u8>)
    ensures
        r@ == dec_digits(n as int),
    decreases n,
{
    if n < 10 {
        let mut v: Vec<u8> = Vec::new();
        v.push((48 + n) as u8);
        proof {
            assert(v@ =~= dec_digits(n as int));
        }
        v
    } else {
        let mut v = u64_to_dec(n / 10);
        v.push((48 + n % 10) as u8);
        v
    }
}

/// Decimal digits of a signed value, sign first.
fn i64_to_dec(i: i64) -> (r: Vec<u8>)
    ensures
        r@ == int_digits(i as int),
{
    if i >= 0 {
        u64_to_dec(i as u64)
    } else {
        let wide: i128 = -(i as i128);
        let mag: u64 = wide as u64;
        proof {
            assert(mag as int == -(i as int));
        }
        let mut v: Vec<u8> = Vec::new();
        v.push(45);
        let mut digits = u64_to_dec(mag);
        v.append(&mut digits);
        proof {
            assert(v@ =~= int_digits(i as int));
        }
        v
    }
}

/// Encode a bulk string around its payload bytes.
pub fn encode_bulk(payload: &[u8]) -> (r: Vec<u8>)
    ensures
        r@ == encode_spec(RespVal::BulkString(Some(payload@))),
{
    let mut out: Vec<u8> = Vec::new();
    out.push(36);
    let mut digits = u64_to_dec(payload.len() as u64);
    out.append(&mut digits);
    out.push(CR);
    out.push(LF);
    push_bytes(&mut out, payload);
    out.push(CR);
    out.push(LF);
    proof {
        assert(out@ =~= encode_spec(RespVal::BulkString(Some(payload@))));
    }
    out
}

/// Encode a value as the exact byte sequence its decoding came from.
#[verifier::loop_isolation(false)]
pub fn encode(value: &RedisType) -> (r: Vec<u8>)
    ensures
        r@ == encode_spec(value@),
    decreases value,
{
    match value {
        RedisType::SimpleString(s) => {
            let mut out: Vec<u8> = Vec::new();
            out.push(43);
            push_bytes(&mut out, s.as_str().as_bytes());
            out.push(CR);
            out.push(LF);
            proof {
                assert(out@ =~= encode_spec(value@));
            }
            out
        },
        RedisType::Error(s) => {
            let mut out: Vec<u8> = Vec::new();
            out.push(45);
            push_bytes(&mut out, s.as_str().as_bytes());
            out.push(CR);
            out.push(LF);
            proof {
                assert(out@ =~= encode_spec(value@));
            }
            out
        },
        RedisType::Integer(i) => {
            let mut out: Vec<u8> = Vec::new();
            out.push(58);
            let mut digits = i64_to_dec(*i);
            out.append(&mut digits);
            out.push(CR);
            out.push(LF);
            proof {
                assert(out@ =~= encode_spec(value@));
            }
            out
        },
        RedisType::BulkString(None) => {
            let mut out: Vec<u8> = Vec::new();
            out.push(36);
            out.push(45);
            out.push(49);
            out.push(CR);
            out.push(LF);
            proof {
                assert(out@ =~= encode_spec(value@));
            }
            out
        },
        RedisType::BulkString(Some(b)) => {
            let out = encode_bulk(b.as_slice());
            out
        },
        RedisType::Array(elems) => {
            let mut out: Vec<u8> = Vec::new();
            out.push(42);
            let mut digits = u64_to_dec(elems.len() as u64);
            out.append(&mut digits);
            out.push(CR);
            out.push(LF);
            let ghost header = out@;
            proof {
                assert(header =~= seq![42u8] + dec_digits(elems@.len() as int) + crlf());
                assert(views_of(elems@.take(0)) =~= Seq::<RespVal>::empty());
                assert(out@ =~= header + encode_list(views_of(elems@.take(0))));
            }
            let n = elems.len();
            let mut j: usize = 0;
            while j < n
                invariant
                    n == elems@.len(),
                    j <= n,
                    out@ == header + encode_list(views_of(elems@.take(j as int))),
                decreases n - j,
            {
                let mut piece = encode(&elems[j]);
                out.append(&mut piece);
                j += 1;
                proof {
                    let prefix = elems@.take(j as int - 1);
                    let e = elems@[j as int - 1];
                    let vv = value_view(e);
                    assert(elems@.take(j as int) =~= prefix.push(e));
                    lemma_views_of_push(prefix, e);
                    lemma_encode_list_push(views_of(prefix), vv);
                    assert(views_of(prefix) + seq![vv] =~= views_of(prefix).push(vv));
                    assert(encode_list(views_of(elems@.take(j as int))) == encode_list(
                        views_of(prefix),
                    ) + encode_spec(vv));
                    assert(out@ =~= header + encode_list(views_of(elems@.take(j as int))));
                }
            }
            proof {
                assert(elems@.take(n as int) =~= elems@);
                lemma_views_of(elems@);
                assert(value@ == RespVal::Array(views_of(elems@)));
                assert(out@ =~= encode_spec(value@));
            }
            out
        },
    }
}

} // verus!
