//! Mathematical model of the wire format: byte-level encoding and decoding
//! functions, and the laws that relate them.

use vstd::prelude::*;
use vstd::utf8::{decode_utf8, encode_utf8, valid_utf8};

verus! {

pub const CR: u8 = 13;

pub const LF: u8 = 10;

/// Why a buffer failed to decode as a frame.
#[derive(Clone, Copy, Debug, PartialEq, Eq, Structural)]
pub enum ParseError {
    UnknownType,
    MissingTerminator,
    InvalidInteger,
    TruncatedData,
    Utf8Invalid,
}

/// Ghost counterpart of a decoded value: sequences in place of vectors.
#[verifier::ext_equal]
pub enum RespVal {
    SimpleString(Seq<char>),
    Error(Seq<char>),
    Integer(i64),
    BulkString(Option<Seq<u8>>),
    Array(Seq<RespVal>),
}

/// Index of the first carriage-return/line-feed pair, if any.
pub open spec fn find_crlf(s: Seq<u8>) -> Option<int>
    decreases s.len(),
{
    if s.len() < 2 {
        None
    } else if s[0] == CR && s[1] == LF {
        Some(0)
    } else {
        match find_crlf(s.skip(1)) {
            Some(i) => Some(i + 1),
            None => None,
        }
    }
}

pub open spec fn no_crlf(s: Seq<u8>) -> bool {
    forall|j: int| 0 <= j && j + 2 <= s.len() ==> !(#[trigger] s[j] == CR && s[j + 1] == LF)
}

pub proof fn lemma_find_crlf_some(s: Seq<u8>, i: int)
    requires
        0 <= i,
        i + 2 <= s.len(),
        s[i] == CR,
        s[i + 1] == LF,
        forall|j: int| 0 <= j < i ==> !(#[trigger] s[j] == CR && s[j + 1] == LF),
    ensures
        find_crlf(s) == Some(i),
    decreases i,
{
    if i > 0 {
        let t = s.skip(1);
        assert(forall|j: int| 0 <= j < i - 1 ==> !(#[trigger] t[j] == CR && t[j + 1] == LF));
        lemma_find_crlf_some(t, i - 1);
    }
}

pub proof fn lemma_find_crlf_none(s: Seq<u8>)
    requires
        no_crlf(s),
    ensures
        find_crlf(s) is None,
    decreases s.len(),
{
    if s.len() >= 2 {
        let t = s.skip(1);
        assert(forall|j: int| 0 <= j && j + 2 <= t.len() ==> !(#[trigger] t[j] == CR && t[j + 1] == LF));
        lemma_find_crlf_none(t);
    }
}

pub open spec fn is_digit(b: u8) -> bool {
    48 <= b <= 57
}

pub open spec fn all_digits(s: Seq<u8>) -> bool {
    forall|i: int| 0 <= i < s.len() ==> is_digit(#[trigger] s[i])
}

/// Value of a string of decimal digits, most significant first.
pub open spec fn digits_val(s: Seq<u8>) -> int
    decreases s.len(),
{
    if s.len() == 0 {
        0
    } else {
        digits_val(s.drop_last()) * 10 + (s.last() - 48)
    }
}

pub proof fn lemma_digits_val_nonneg(s: Seq<u8>)
    requires
        all_digits(s),
    ensures
        digits_val(s) >= 0,
    decreases s.len(),
{
    if s.len() > 0 {
        assert(all_digits(s.drop_last()));
        lemma_digits_val_nonneg(s.drop_last());
    }
}

pub proof fn lemma_digits_val_take_succ(s: Seq<u8>, k: int)
    requires
        0 <= k < s.len(),
    ensures
        digits_val(s.take(k + 1)) == digits_val(s.take(k)) * 10 + (s[k] - 48),
{
    assert(s.take(k + 1).drop_last() =~= s.take(k));
    assert(s.take(k + 1).last() == s[k]);
}

/// Reading further digits never shrinks the value already read.
pub proof fn lemma_digits_val_mono(s: Seq<u8>, k: int)
    requires
        all_digits(s),
        0 <= k <= s.len(),
    ensures
        digits_val(s.take(k)) <= digits_val(s),
    decreases s.len() - k,
{
    if k == s.len() {
        assert(s.take(k) =~= s);
    } else {
        lemma_digits_val_take_succ(s, k);
        assert(all_digits(s.take(k)));
        lemma_digits_val_nonneg(s.take(k));
        lemma_digits_val_mono(s, k + 1);
    }
}

/// Shape of a signed decimal integer: an optional leading minus sign
/// followed by at least one digit.
pub open spec fn int_text_valid(s: Seq<u8>) -> bool {
    if s.len() >= 1 && s[0] == 45 {
        s.len() >= 2 && all_digits(s.skip(1))
    } else {
        s.len() >= 1 && all_digits(s)
    }
}

pub open spec fn int_text_val(s: Seq<u8>) -> int {
    if s.len() >= 1 && s[0] == 45 {
        -digits_val(s.skip(1))
    } else {
        digits_val(s)
    }
}

/// What parsing an integer field yields: the value when the text is a
/// signed decimal that fits in 64 bits, nothing otherwise.
pub open spec fn parse_int_spec(s: Seq<u8>) -> Option<i64> {
    if int_text_valid(s) && i64::MIN <= int_text_val(s) <= i64::MAX {
        Some(int_text_val(s) as i64)
    } else {
        None
    }
}

/// Decimal digits of a non-negative number, most significant first.
pub open spec fn dec_digits(n: int) -> Seq<u8>
    recommends
        n >= 0,
    decreases n,
{
    if n < 10 {
        seq![(48 + n) as u8]
    } else {
        dec_digits(n / 10).push((48 + n % 10) as u8)
    }
}

pub open spec fn int_digits(i: int) -> Seq<u8> {
    if i < 0 {
        seq![45u8] + dec_digits(-i)
    } else {
        dec_digits(i)
    }
}

pub proof fn lemma_dec_digits(n: int)
    requires
        n >= 0,
    ensures
        all_digits(dec_digits(n)),
        digits_val(dec_digits(n)) == n,
        dec_digits(n).len() >= 1,
    decreases n,
{
    if n < 10 {
        let s = dec_digits(n);
        assert(s.len() == 1);
        assert(s.drop_last() =~= Seq::<u8>::empty());
        assert(s.last() == (48 + n) as u8);
        assert((48 + n) as u8 == 48 + n);
        assert(digits_val(Seq::<u8>::empty()) == 0);
        assert(digits_val(s) == n);
    } else {
        lemma_dec_digits(n / 10);
        let prev = dec_digits(n / 10);
        let d = (48 + n % 10) as u8;
        assert(prev.push(d).drop_last() =~= prev);
        assert(prev.push(d).last() == d);
        assert(d == 48 + n % 10);
        assert(digits_val(prev.push(d)) == (n / 10) * 10 + n % 10);
        assert((n / 10) * 10 + n % 10 == n);
        assert forall|i: int| 0 <= i < prev.push(d).len() implies is_digit(
            #[trigger] prev.push(d)[i],
        ) by {
            if i < prev.len() {
                assert(prev.push(d)[i] == prev[i]);
            }
        }
    }
}

/// The decimal text of any 64-bit value parses back to that value, and
/// contains no terminator pair.
pub proof fn lemma_int_digits(i: int)
    requires
        i64::MIN <= i <= i64::MAX,
    ensures
        parse_int_spec(int_digits(i)) == Some(i as i64),
        int_digits(i).len() >= 1,
        no_crlf(int_digits(i)),
{
    let s = int_digits(i);
    if i < 0 {
        lemma_dec_digits(-i);
        assert(s[0] == 45);
        assert(s.skip(1) =~= dec_digits(-i));
        assert(int_text_valid(s));
        assert(int_text_val(s) == i);
    } else {
        lemma_dec_digits(i);
        assert(is_digit(s[0]));
        assert(int_text_valid(s));
        assert(int_text_val(s) == i);
    }
    assert forall|j: int| 0 <= j && j + 2 <= s.len() implies !(#[trigger] s[j] == CR && s[j + 1]
        == LF) by {
        if i < 0 && j == 0 {
            assert(s[j] == 45);
        } else {
            if i < 0 {
                assert(s[j] == dec_digits(-i)[j - 1]);
                assert(is_digit(s[j]));
            } else {
                assert(is_digit(s[j]));
            }
        }
    }
}

/// The first terminator pair of a text field followed by its terminator
/// and anything further stands exactly at the end of the text.
pub proof fn lemma_find_crlf_concat(c: Seq<u8>, rest: Seq<u8>)
    requires
        no_crlf(c),
    ensures
        find_crlf(c + crlf() + rest) == Some(c.len() as int),
{
    let s = c + crlf() + rest;
    assert(s[c.len() as int] == CR);
    assert(s[c.len() as int + 1] == LF);
    assert forall|j: int| 0 <= j < c.len() implies !(#[trigger] s[j] == CR && s[j + 1] == LF) by {
        assert(s[j] == c[j]);
        if j + 1 < c.len() {
            assert(s[j + 1] == c[j + 1]);
        } else {
            assert(s[j + 1] == CR);
        }
    }
    lemma_find_crlf_some(s, c.len() as int);
}

pub open spec fn crlf() -> Seq<u8> {
    seq![CR, LF]
}

/// The unique encoding of a value, tag byte first.
pub open spec fn encode_spec(v: RespVal) -> Seq<u8>
    decreases v,
{
    match v {
        RespVal::SimpleString(s) => seq![43u8] + encode_utf8(s) + crlf(),
        RespVal::Error(s) => seq![45u8] + encode_utf8(s) + crlf(),
        RespVal::Integer(i) => seq![58u8] + int_digits(i as int) + crlf(),
        RespVal::BulkString(None) => seq![36u8, 45u8, 49u8] + crlf(),
        RespVal::BulkString(Some(b)) => seq![36u8] + dec_digits(b.len() as int) + crlf() + b
            + crlf(),
        RespVal::Array(elems) => seq![42u8] + dec_digits(elems.len() as int) + crlf()
            + encode_list(elems),
    }
}

pub open spec fn encode_list(elems: Seq<RespVal>) -> Seq<u8>
    decreases elems,
{
    if elems.len() == 0 {
        Seq::empty()
    } else {
        encode_spec(elems[0]) + encode_list(elems.drop_first())
    }
}

pub proof fn lemma_encode_list_push(s: Seq<RespVal>, v: RespVal)
    ensures
        encode_list(s.push(v)) == encode_list(s) + encode_spec(v),
    decreases s.len(),
{
    if s.len() == 0 {
        assert(s.push(v).drop_first() =~= Seq::<RespVal>::empty());
        assert(s.push(v)[0] == v);
        assert(encode_list(s.push(v)) == encode_spec(v) + encode_list(s.push(v).drop_first()));
        assert(encode_list(s.push(v)) =~= encode_list(s) + encode_spec(v));
    } else {
        assert(s.push(v).drop_first() =~= s.drop_first().push(v));
        lemma_encode_list_push(s.drop_first(), v);
        assert(s.push(v)[0] == s[0]);
        assert(encode_list(s.push(v)) == encode_spec(s[0]) + (encode_list(s.drop_first())
            + encode_spec(v)));
        assert(encode_list(s.push(v)) =~= encode_list(s) + encode_spec(v));
    }
}

/// A value every encoding of which decodes back to it: text fields carry
/// no terminator pair, and declared lengths fit in a signed 64-bit count.
pub open spec fn wf_value(v: RespVal) -> bool
    decreases v,
{
    match v {
        RespVal::SimpleString(s) => no_crlf(encode_utf8(s)),
        RespVal::Error(s) => no_crlf(encode_utf8(s)),
        RespVal::Integer(_) => true,
        RespVal::BulkString(o) => match o {
            Some(b) => b.len() <= i64::MAX,
            None => true,
        },
        RespVal::Array(elems) => elems.len() <= i64::MAX && (forall|i: int|
            0 <= i < elems.len() ==> wf_value(#[trigger] elems[i])),
    }
}

/// A value whose encoding the frame decoder can read back: everything
/// but the error frame, whose tag the decoder does not accept.
pub open spec fn decodable(v: RespVal) -> bool
    decreases v,
{
    match v {
        RespVal::Error(_) => false,
        RespVal::Array(elems) => forall|i: int|
            0 <= i < elems.len() ==> decodable(#[trigger] elems[i]),
        _ => true,
    }
}

/// An integer header field: its value and the byte count of its text.
pub open spec fn dec_int_header(s: Seq<u8>) -> Result<(i64, int), ParseError> {
    match find_crlf(s) {
        None => Err(ParseError::MissingTerminator),
        Some(i) => match parse_int_spec(s.take(i)) {
            None => Err(ParseError::InvalidInteger),
            Some(v) => Ok((v, i)),
        },
    }
}

/// Sub-decoders run on the bytes after the type tag and report the span
/// they consumed less the two final terminator bytes; the frame decoder
/// adds the tag byte and that terminator back.
pub open spec fn dec_simple(s: Seq<u8>) -> Result<(RespVal, int), ParseError> {
    match find_crlf(s) {
        None => Err(ParseError::MissingTerminator),
        Some(i) => {
            let content = s.take(i);
            if valid_utf8(content) {
                Ok((RespVal::SimpleString(decode_utf8(content)), i))
            } else {
                Err(ParseError::Utf8Invalid)
            }
        },
    }
}

pub open spec fn dec_integer(s: Seq<u8>) -> Result<(RespVal, int), ParseError> {
    match dec_int_header(s) {
        Err(e) => Err(e),
        Ok((v, i)) => Ok((RespVal::Integer(v), i)),
    }
}

pub open spec fn dec_bulk(s: Seq<u8>) -> Result<(RespVal, int), ParseError> {
    match dec_int_header(s) {
        Err(e) => Err(e),
        Ok((len, i)) => if len < 0 {
            Ok((RespVal::BulkString(None), i))
        } else {
            let start = i + 2;
            if s.len() < start + len {
                Err(ParseError::TruncatedData)
            } else if s.len() < start + len + 2 {
                Err(ParseError::TruncatedData)
            } else if s[start + len] == CR && s[start + len + 1] == LF {
                Ok((RespVal::BulkString(Some(s.subrange(start, start + len))), i + 2 + len))
            } else {
                Err(ParseError::MissingTerminator)
            }
        },
    }
}

pub open spec fn dec_array(s: Seq<u8>) -> Result<(RespVal, int), ParseError>
    decreases s.len(), 1int, 0int,
{
    match dec_int_header(s) {
        Err(e) => Err(e),
        Ok((count, i)) => {
            // the header's terminator always lies within the buffer; the
            // bound is restated so that the recursion visibly shrinks
            if 0 <= i && i + 2 <= s.len() {
                match dec_elems(s.skip(i + 2), count as int) {
                    Err(e) => Err(e),
                    Ok((vs, m)) => Ok((RespVal::Array(vs), i + m)),
                }
            } else {
                Err(ParseError::MissingTerminator)
            }
        },
    }
}

pub open spec fn dec_elems(s: Seq<u8>, k: int) -> Result<(Seq<RespVal>, int), ParseError>
    decreases s.len(), 2int, k,
{
    if k <= 0 {
        Ok((Seq::empty(), 0))
    } else {
        match dec_frame(s) {
            Err(e) => Err(e),
            Ok((v, n)) => {
                // a decoded frame never spans more than the buffer; the
                // bound is restated so that the recursion visibly shrinks
                if 0 < n <= s.len() {
                    match dec_elems(s.skip(n), k - 1) {
                        Err(e) => Err(e),
                        Ok((vs, m)) => Ok((seq![v] + vs, n + m)),
                    }
                } else {
                    Err(ParseError::TruncatedData)
                }
            },
        }
    }
}

/// One frame read from the front of the buffer: its value and the exact
/// byte count it spans, tag byte and final terminator included.
pub open spec fn dec_frame(s: Seq<u8>) -> Result<(RespVal, int), ParseError>
    decreases s.len(), 0int, 0int,
{
    if s.len() == 0 {
        Err(ParseError::TruncatedData)
    } else {
        let sub = if s[0] == 43 {
            dec_simple(s.skip(1))
        } else if s[0] == 58 {
            dec_integer(s.skip(1))
        } else if s[0] == 36 {
            dec_bulk(s.skip(1))
        } else if s[0] == 42 {
            dec_array(s.skip(1))
        } else {
            Err(ParseError::UnknownType)
        };
        match sub {
            Err(e) => Err(e),
            Ok((v, n)) => Ok((v, n + 3)),
        }
    }
}

/// Law: decoding the encoding of a well-formed, decodable value — with
/// any bytes at all following it — yields exactly that value back and
/// reports exactly the encoding's length as the span consumed.
#[verifier::rlimit(100)]
pub proof fn lemma_decode_encode(v: RespVal, rest: Seq<u8>)
    requires
        wf_value(v),
        decodable(v),
    ensures
        dec_frame(encode_spec(v) + rest) == Ok::<_, ParseError>(
            (v, encode_spec(v).len() as int),
        ),
    decreases v,
{
    let enc = encode_spec(v);
    let s = enc + rest;
    match v {
        RespVal::SimpleString(t) => {
            let eu = encode_utf8(t);
            assert(s[0] == 43);
            let tail = s.skip(1);
            assert(tail =~= eu + crlf() + rest);
            lemma_find_crlf_concat(eu, rest);
            let content = tail.take(eu.len() as int);
            assert(content =~= eu);
            vstd::utf8::encode_utf8_valid_utf8(t);
            vstd::utf8::encode_utf8_decode_utf8(t);
            assert(dec_simple(tail) == Ok::<_, ParseError>(
                (RespVal::SimpleString(t), eu.len() as int),
            ));
        },
        RespVal::Error(_) => {
            assert(false);
        },
        RespVal::Integer(i) => {
            assert(s[0] == 58);
            let tail = s.skip(1);
            let digits = int_digits(i as int);
            assert(tail =~= digits + crlf() + rest);
            lemma_int_digits(i as int);
            lemma_find_crlf_concat(digits, rest);
            assert(tail.take(digits.len() as int) =~= digits);
            assert(dec_integer(tail) == Ok::<_, ParseError>(
                (RespVal::Integer(i), digits.len() as int),
            ));
        },
        RespVal::BulkString(None) => {
            assert(s[0] == 36);
            let tail = s.skip(1);
            let header = seq![45u8, 49u8];
            assert(tail =~= header + crlf() + rest);
            assert(no_crlf(header));
            lemma_find_crlf_concat(header, rest);
            assert(tail.take(2) =~= header);
            assert(header.skip(1) =~= seq![49u8]);
            assert(seq![49u8].drop_last() =~= Seq::<u8>::empty());
            assert(digits_val(Seq::<u8>::empty()) == 0);
            assert(seq![49u8].last() == 49u8);
            assert(digits_val(seq![49u8]) == 1);
            assert(int_text_val(header) == -1);
            assert(int_text_valid(header));
            assert(parse_int_spec(header) == Some(-1i64));
            assert(dec_bulk(tail) == Ok::<_, ParseError>((RespVal::BulkString(None), 2int)));
        },
        RespVal::BulkString(Some(b)) => {
            assert(s[0] == 36);
            let tail = s.skip(1);
            let digits = dec_digits(b.len() as int);
            let after = b + crlf() + rest;
            assert(tail =~= digits + crlf() + after);
            lemma_int_digits(b.len() as int);
            assert(int_digits(b.len() as int) == digits);
            lemma_find_crlf_concat(digits, after);
            let d = digits.len() as int;
            assert(tail.take(d) =~= digits);
            assert(parse_int_spec(digits) == Some(b.len() as i64));
            let start = d + 2;
            let blen = b.len() as int;
            assert(tail.len() == d + 2 + blen + 2 + rest.len());
            assert(tail[start + blen] == CR);
            assert(tail[start + blen + 1] == LF);
            assert(tail.subrange(start, start + blen) =~= b);
            assert(dec_bulk(tail) == Ok::<_, ParseError>(
                (RespVal::BulkString(Some(b)), d + 2 + blen),
            ));
        },
        RespVal::Array(elems) => {
            assert(s[0] == 42);
            let tail = s.skip(1);
            let k = elems.len() as int;
            let digits = dec_digits(k);
            let body = encode_list(elems) + rest;
            assert(tail =~= digits + crlf() + body);
            lemma_int_digits(k);
            assert(int_digits(k) == digits);
            lemma_find_crlf_concat(digits, body);
            let d = digits.len() as int;
            assert(tail.take(d) =~= digits);
            assert(parse_int_spec(digits) == Some(k as i64));
            assert(tail.skip(d + 2) =~= body);
            lemma_decode_elems(elems, rest);
            assert(dec_elems(body, k) == Ok::<_, ParseError>(
                (elems, encode_list(elems).len() as int),
            ));
            assert(dec_array(tail) == Ok::<_, ParseError>(
                (RespVal::Array(elems), d + encode_list(elems).len() as int),
            ));
        },
    }
}

/// Law: a run of encoded frames, one per expected element, decodes to
/// exactly those elements and consumes exactly their encodings.
pub proof fn lemma_decode_elems(elems: Seq<RespVal>, rest: Seq<u8>)
    requires
        forall|i: int|
            0 <= i < elems.len() ==> wf_value(#[trigger] elems[i]) && decodable(elems[i]),
    ensures
        dec_elems(encode_list(elems) + rest, elems.len() as int) == Ok::<_, ParseError>(
            (elems, encode_list(elems).len() as int),
        ),
    decreases elems,
{
    if elems.len() == 0 {
        assert(encode_list(elems) + rest =~= rest);
        assert(elems =~= Seq::<RespVal>::empty());
    } else {
        let e0 = elems[0];
        let tail_elems = elems.drop_first();
        let s = encode_list(elems) + rest;
        let n0 = encode_spec(e0).len() as int;
        assert(s =~= encode_spec(e0) + (encode_list(tail_elems) + rest));
        lemma_decode_encode(e0, encode_list(tail_elems) + rest);
        assert(dec_frame(s) == Ok::<_, ParseError>((e0, n0)));
        assert(n0 >= 1);
        assert(s.skip(n0) =~= encode_list(tail_elems) + rest);
        assert(forall|i: int|
            0 <= i < tail_elems.len() ==> wf_value(#[trigger] tail_elems[i]) && decodable(
                tail_elems[i],
            ));
        lemma_decode_elems(tail_elems, rest);
        assert(seq![e0] + tail_elems =~= elems);
        assert(encode_list(elems).len() == n0 + encode_list(tail_elems).len());
    }
}

/// A prefix that cuts a text header short has no terminator pair.
proof fn lemma_truncated_header(c: Seq<u8>, tail2: Seq<u8>, m: int)
    requires
        no_crlf(c),
        0 <= m <= c.len() + 1,
    ensures
        find_crlf((c + crlf() + tail2).take(m)) is None,
{
    let b = (c + crlf() + tail2).take(m);
    assert forall|j: int| 0 <= j && j + 2 <= b.len() implies !(#[trigger] b[j] == CR && b[j + 1]
        == LF) by {
        assert(b[j] == c[j]);
        if j + 1 < c.len() {
            assert(b[j + 1] == c[j + 1]);
        } else {
            assert(b[j + 1] == CR);
        }
    }
    lemma_find_crlf_none(b);
}

/// Law: decoding any proper prefix of a valid encoding fails, reporting
/// the cut as missing data or as a missing terminator; being verified,
/// the decoder never reads past the buffer it is handed.
#[verifier::rlimit(100)]
pub proof fn lemma_decode_truncated(v: RespVal, n: int)
    requires
        wf_value(v),
        decodable(v),
        0 <= n < encode_spec(v).len(),
    ensures
        dec_frame(encode_spec(v).take(n)) == Err::<(RespVal, int), ParseError>(
            ParseError::TruncatedData,
        ) || dec_frame(encode_spec(v).take(n)) == Err::<(RespVal, int), ParseError>(
            ParseError::MissingTerminator,
        ),
    decreases v,
{
    let enc = encode_spec(v);
    let t = enc.take(n);
    if n == 0 {
        assert(t =~= Seq::<u8>::empty());
    } else {
        let body = enc.skip(1);
        let tb = t.skip(1);
        let m = n - 1;
        assert(tb =~= body.take(m));
        match v {
            RespVal::SimpleString(s) => {
                assert(t[0] == 43);
                let eu = encode_utf8(s);
                assert(body =~= eu + crlf() + Seq::<u8>::empty());
                lemma_truncated_header(eu, Seq::<u8>::empty(), m);
                assert(tb =~= (eu + crlf() + Seq::<u8>::empty()).take(m));
            },
            RespVal::Error(_) => {
                assert(false);
            },
            RespVal::Integer(i) => {
                assert(t[0] == 58);
                let digits = int_digits(i as int);
                lemma_int_digits(i as int);
                assert(body =~= digits + crlf() + Seq::<u8>::empty());
                lemma_truncated_header(digits, Seq::<u8>::empty(), m);
                assert(tb =~= (digits + crlf() + Seq::<u8>::empty()).take(m));
            },
            RespVal::BulkString(None) => {
                assert(t[0] == 36);
                let header = seq![45u8, 49u8];
                assert(no_crlf(header));
                assert(body =~= header + crlf() + Seq::<u8>::empty());
                lemma_truncated_header(header, Seq::<u8>::empty(), m);
                assert(tb =~= (header + crlf() + Seq::<u8>::empty()).take(m));
            },
            RespVal::BulkString(Some(b)) => {
                assert(t[0] == 36);
                let blen = b.len() as int;
                let digits = dec_digits(blen);
                let d = digits.len() as int;
                lemma_int_digits(blen);
                assert(int_digits(blen) == digits);
                assert(body =~= digits + crlf() + (b + crlf()));
                if m <= d + 1 {
                    lemma_truncated_header(digits, b + crlf(), m);
                    assert(tb =~= (digits + crlf() + (b + crlf())).take(m));
                } else {
                    let rest2 = (b + crlf()).take(m - d - 2);
                    assert(tb =~= digits + crlf() + rest2);
                    lemma_find_crlf_concat(digits, rest2);
                    assert(tb.take(d) =~= digits);
                    assert(parse_int_spec(digits) == Some(blen as i64));
                    assert(tb.len() == m);
                    assert(m < d + 2 + blen + 2);
                }
            },
            RespVal::Array(elems) => {
                assert(t[0] == 42);
                let k = elems.len() as int;
                let digits = dec_digits(k);
                let d = digits.len() as int;
                lemma_int_digits(k);
                assert(int_digits(k) == digits);
                let lst = encode_list(elems);
                assert(body =~= digits + crlf() + lst);
                if m <= d + 1 {
                    lemma_truncated_header(digits, lst, m);
                    assert(tb =~= (digits + crlf() + lst).take(m));
                } else {
                    let mm = m - d - 2;
                    let rest2 = lst.take(mm);
                    assert(tb =~= digits + crlf() + rest2);
                    lemma_find_crlf_concat(digits, rest2);
                    assert(tb.take(d) =~= digits);
                    assert(parse_int_spec(digits) == Some(k as i64));
                    assert(tb.skip(d + 2) =~= rest2);
                    lemma_truncated_elems(elems, mm);
                }
            },
        }
    }
}

/// Law: a run of encoded frames cut short anywhere fails to decode,
/// reporting missing data or a missing terminator.
pub proof fn lemma_truncated_elems(elems: Seq<RespVal>, mm: int)
    requires
        forall|i: int|
            0 <= i < elems.len() ==> wf_value(#[trigger] elems[i]) && decodable(elems[i]),
        0 <= mm < encode_list(elems).len(),
    ensures
        dec_elems(encode_list(elems).take(mm), elems.len() as int) == Err::<
            (Seq<RespVal>, int),
            ParseError,
        >(ParseError::TruncatedData) || dec_elems(encode_list(elems).take(mm), elems.len() as int)
            == Err::<(Seq<RespVal>, int), ParseError>(ParseError::MissingTerminator),
    decreases elems,
{
    if elems.len() == 0 {
        assert(encode_list(elems).len() == 0);
    } else {
        let e0 = elems[0];
        let tail_elems = elems.drop_first();
        let n0 = encode_spec(e0).len() as int;
        let s = encode_list(elems).take(mm);
        assert(encode_list(elems) == encode_spec(e0) + encode_list(tail_elems));
        if mm < n0 {
            assert(s =~= encode_spec(e0).take(mm));
            lemma_decode_truncated(e0, mm);
        } else {
            let rest2 = encode_list(tail_elems).take(mm - n0);
            assert(s =~= encode_spec(e0) + rest2);
            lemma_decode_encode(e0, rest2);
            assert(dec_frame(s) == Ok::<_, ParseError>((e0, n0)));
            assert(n0 >= 1);
            assert(s.skip(n0) =~= rest2);
            assert(forall|i: int|
                0 <= i < tail_elems.len() ==> wf_value(#[trigger] tail_elems[i]) && decodable(
                    tail_elems[i],
                ));
            lemma_truncated_elems(tail_elems, mm - n0);
            assert(tail_elems.len() as int == elems.len() as int - 1);
        }
    }
}

} // verus!
