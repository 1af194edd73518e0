//! General byte-buffer helpers.

use vstd::prelude::*;

use crate::parser::model::{
    find_crlf, lemma_find_crlf_none, lemma_find_crlf_some, CR, LF,
};

verus! {

/// Scan a buffer for the first carriage-return/line-feed pair and hand
/// back the bytes before it; nothing when no pair is present.
pub fn read_until_crlf(buf: &[u8]) -> (r: Option<&[u8]>)
    ensures
        match r {
            Some(p) => find_crlf(buf@) == Some(p@.len() as int) && p@ == buf@.take(
                p@.len() as int,
            ) && p@.len() + 2 <= buf@.len(),
            None => find_crlf(buf@) is None,
        },
{
    let n = buf.len();
    let mut i: usize = 0;
    while i < n && i + 1 < n
        invariant
            n == buf@.len(),
            i <= n,
            forall|j: int| 0 <= j < i ==> !(#[trigger] buf@[j] == CR && buf@[j + 1] == LF),
        decreases n - i,
    {
        if buf[i] == CR && buf[i + 1] == LF {
            proof {
                lemma_find_crlf_some(buf@, i as int);
            }
            let p = vstd::slice::slice_subrange(buf, 0, i);
            return Some(p);
        }
        i += 1;
    }
    proof {
        lemma_find_crlf_none(buf@);
    }
    None
}

} // verus!
