//! Byte-buffer helpers shared by the decoder.

use vstd::prelude::*;
use vstd::utf8::{decode_utf8, valid_utf8};

use crate::parser::bytes_to_string;
use crate::parser::model::{
    find_crlf, lemma_find_crlf_none, lemma_find_crlf_some, ParseError, CR, LF,
};

verus! {

/// Scan a buffer for the first carriage-return/line-feed pair and hand
/// back the bytes before it; nothing when no pair is present.
pub fn read_until_crlf(buf: &[u8]) -> (r: Option<&[u8]>)
    ensures
        match r {
            Some(p) => find_crlf(buf@) == Some(p@.len() as int) && p@ == buf@.take(
                p@.len() as int,
            ) && p@.len() + 2 <= buf@.len(),
            None => find_crlf(buf@) is None,
        },
{
    let n = buf.len();
    let mut i: usize = 0;
    while i < n && i + 1 < n
        invariant
            n == buf@.len(),
            i <= n,
            forall|j: int| 0 <= j < i ==> !(#[trigger] buf@[j] == CR && buf@[j + 1] == LF),
        decreases n - i,
    {
        if buf[i] == CR && buf[i + 1] == LF {
            proof {
                lemma_find_crlf_some(buf@, i as int);
            }
            let p = vstd::slice::slice_subrange(buf, 0, i);
            return Some(p);
        }
        i += 1;
    }
    proof {
        lemma_find_crlf_none(buf@);
    }
    None
}

/// The buffer with each literal four-byte sequence backslash, r,
/// backslash, n replaced, left to right, by a real terminator pair.
pub open spec fn unescape_crlf(s: Seq<u8>) -> Seq<u8>
    decreases s.len(),
{
    if s.len() >= 4 && s[0] == 92 && s[1] == 114 && s[2] == 92 && s[3] == 110 {
        seq![CR, LF] + unescape_crlf(s.skip(4))
    } else if s.len() == 0 {
        Seq::empty()
    } else {
        seq![s[0]] + unescape_crlf(s.skip(1))
    }
}

/// Convert a raw chunk to text, reading each escaped terminator as a
/// real one; fails on bytes that are not well-formed UTF-8.
#[verifier::loop_isolation(false)]
pub fn to_string(buf: &[u8]) -> (r: Result<String, ParseError>)
    ensures
        r matches Ok(s) ==> valid_utf8(unescape_crlf(buf@)) && s@ == decode_utf8(
            unescape_crlf(buf@),
        ),
        r is Err ==> r == Err::<String, ParseError>(ParseError::Utf8Invalid) && !valid_utf8(
            unescape_crlf(buf@),
        ),
{
    let n = buf.len();
    let mut out: Vec<u8> = Vec::new();
    let mut i: usize = 0;
    proof {
        assert(buf@.skip(0) =~= buf@);
        assert(out@ + unescape_crlf(buf@) =~= unescape_crlf(buf@));
    }
    while i < n
        invariant
            i <= n,
            unescape_crlf(buf@) == out@ + unescape_crlf(buf@.skip(i as int)),
        decreases n - i,
    {
        let ghost tail = buf@.skip(i as int);
        if n - i >= 4 && buf[i] == 92 && buf[i + 1] == 114 && buf[i + 2] == 92 && buf[i + 3]
            == 110 {
            out.push(CR);
            out.push(LF);
            i += 4;
            proof {
                assert(tail[0] == 92 && tail[1] == 114 && tail[2] == 92 && tail[3] == 110);
                assert(tail.skip(4) =~= buf@.skip(i as int));
                assert(unescape_crlf(tail) == seq![CR, LF] + unescape_crlf(buf@.skip(i as int)));
                assert(out@ + unescape_crlf(buf@.skip(i as int)) =~= unescape_crlf(buf@));
            }
        } else {
            out.push(buf[i]);
            i += 1;
            proof {
                assert(tail[0] == buf@[i as int - 1]);
                if tail.len() >= 4 {
                    assert(tail[1] == buf@[i as int]);
                    assert(tail[2] == buf@[i as int + 1]);
                    assert(tail[3] == buf@[i as int + 2]);
                }
                assert(tail.skip(1) =~= buf@.skip(i as int));
                assert(unescape_crlf(tail) == seq![tail[0]] + unescape_crlf(buf@.skip(i as int)));
                assert(out@ + unescape_crlf(buf@.skip(i as int)) =~= unescape_crlf(buf@));
            }
        }
    }
    proof {
        assert(buf@.skip(n as int) =~= Seq::<u8>::empty());
        assert(out@ =~= unescape_crlf(buf@));
    }
    match bytes_to_string(out) {
        Some(s) => Ok(s),
        None => Err(ParseError::Utf8Invalid),
    }
}

} // verus!
