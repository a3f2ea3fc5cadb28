use vstd::prelude::*;
use vstd::slice::{slice_subrange, slice_to_vec};
use crate::buffer::{buffered, contents, discard_front};
use crate::value::{
    all_digits, crlf_at, digits_value, in_i64, is_digit, lemma_array_model, models, number,
    RedisType, RespValue, CR, LF,
};

verus! {

/// Why a frame could not be decoded.
#[derive(Debug, Clone, Copy, PartialEq, Eq, Structural)]
pub enum ParserError {
    /// The first byte of the frame is not a known type marker.
    UnknownStartingByte,
    /// The buffer ends before the frame does: more bytes are needed.
    Eof,
    /// A numeric field is not a decimal integer, or a length is below -1.
    InvalidNumber,
    /// The payload of a bulk string is not followed by a line terminator.
    MissingCrlf,
}

/// What the decoder makes of the bytes at one position.
pub enum Decoded {
    /// A complete frame holding the value, ending just before the position.
    Done(RespValue, int),
    /// The frame is not complete yet.
    Partial,
    /// The frame is malformed.
    Invalid(ParserError),
}

pub open spec fn is_marker(b: u8) -> bool {
    b == 43u8 || b == 45u8 || b == 58u8 || b == 36u8 || b == 42u8
}

/// The first line terminator at or after `from`.
pub open spec fn line_end(s: Seq<u8>, from: int) -> Option<int>
    decreases s.len() - from,
{
    if from < 0 || from + 1 >= s.len() {
        None
    } else if crlf_at(s, from) {
        Some(from)
    } else {
        line_end(s, from + 1)
    }
}

/// `line_end` finds the first terminator, and finds none only where there is none.
pub proof fn lemma_line_end(s: Seq<u8>, from: int)
    requires
        0 <= from,
    ensures
        match line_end(s, from) {
            Some(e) => from <= e && crlf_at(s, e) && forall|i: int|
                from <= i < e ==> !crlf_at(s, i),
            None => forall|i: int| from <= i ==> !crlf_at(s, i),
        },
    decreases s.len() - from,
{
    if from + 1 < s.len() && !crlf_at(s, from) {
        lemma_line_end(s, from + 1);
    }
}

/// Decodes the frame that starts at `p`.
pub open spec fn decode_at(s: Seq<u8>, p: int) -> Decoded
    decreases s.len() - p, 0int,
{
    if p < 0 || p >= s.len() {
        Decoded::Partial
    } else if !is_marker(s[p]) {
        Decoded::Invalid(ParserError::UnknownStartingByte)
    } else {
        match line_end(s, p + 1) {
            None => Decoded::Partial,
            Some(e) => {
                proof {
                    lemma_line_end(s, p + 1);
                }
                let line = s.subrange(p + 1, e);
                let next = e + 2;
                if s[p] == 43u8 {
                    Decoded::Done(RespValue::Simple(line), next)
                } else if s[p] == 45u8 {
                    Decoded::Done(RespValue::Error(line), next)
                } else {
                    match number(line) {
                        None => Decoded::Invalid(ParserError::InvalidNumber),
                        Some(n) => if s[p] == 58u8 {
                            Decoded::Done(RespValue::Integer(n), next)
                        } else if n == -1 {
                            if s[p] == 36u8 {
                                Decoded::Done(RespValue::NullBulk, next)
                            } else {
                                Decoded::Done(RespValue::NullArray, next)
                            }
                        } else if n < -1 {
                            Decoded::Invalid(ParserError::InvalidNumber)
                        } else if s[p] == 36u8 {
                            if s.len() < next + n + 2 {
                                Decoded::Partial
                            } else if !crlf_at(s, next + n) {
                                Decoded::Invalid(ParserError::MissingCrlf)
                            } else {
                                Decoded::Done(RespValue::Bulk(s.subrange(next, next + n)), next + n + 2)
                            }
                        } else {
                            decode_items(s, next, n, Seq::empty())
                        },
                    }
                }
            },
        }
    }
}

/// Decodes `n` more elements of an array from `p`, after the elements `acc`.
pub open spec fn decode_items(s: Seq<u8>, p: int, n: int, acc: Seq<RespValue>) -> Decoded
    decreases s.len() - p, 1int,
{
    if n <= 0 {
        Decoded::Done(RespValue::Array(acc), p)
    } else if p < 0 || p > s.len() {
        Decoded::Partial
    } else {
        match decode_at(s, p) {
            // An element always ends after its start (`lemma_decode_end`); the
            // test only bounds the recursion.
            Decoded::Done(v, e) => if p < e <= s.len() {
                decode_items(s, e, n - 1, acc.push(v))
            } else {
                Decoded::Partial
            },
            other => other,
        }
    }
}

/// Decodes the frame at the start of `s`.
pub open spec fn decode(s: Seq<u8>) -> Decoded {
    decode_at(s, 0)
}

/// Relies on memchr::memchr: the index of the first occurrence of `needle`
/// in `haystack`, or `None` when it does not occur.
pub assume_specification[ memchr::memchr ](needle: u8, haystack: &[u8]) -> (r: Option<usize>)
    ensures
        match r {
            Some(i) => i < haystack@.len() && haystack@[i as int] == needle && forall|j: int|
                0 <= j < i ==> haystack@[j] != needle,
            None => forall|j: int| 0 <= j < haystack@.len() ==> haystack@[j] != needle,
        },
;

/// Positions from `a` up to `b` hold no terminator, so the search may start at `b`.
pub proof fn lemma_line_end_skip(s: Seq<u8>, a: int, b: int)
    requires
        0 <= a <= b,
        forall|i: int| a <= i < b ==> !crlf_at(s, i),
    ensures
        line_end(s, a) == line_end(s, b),
    decreases b - a,
{
    if a < b && a + 1 < s.len() {
        lemma_line_end_skip(s, a + 1, b);
    }
}

/// Finds the first line terminator at or after `from`.
fn find_line_end(s: &[u8], from: usize) -> (r: Option<usize>)
    ensures
        match r {
            Some(e) => line_end(s@, from as int) == Some(e as int),
            None => line_end(s@, from as int) is None,
        },
{
    let mut k = from;
    loop
        invariant
            from <= k,
            line_end(s@, from as int) == line_end(s@, k as int),
        decreases s@.len() - k,
    {
        proof {
            lemma_line_end(s@, k as int);
        }
        if k >= s.len() {
            return None;
        }
        let rest = slice_subrange(s, k, s.len());
        match memchr::memchr(CR, rest) {
            None => {
                assert forall|i: int| k <= i implies !crlf_at(s@, i) by {
                    if k <= i < s@.len() {
                        assert(rest@[i - k] == s@[i]);
                    }
                }
                return None;
            },
            Some(j) => {
                let i = k + j;
                assert forall|m: int| k <= m < i implies !crlf_at(s@, m) by {
                    assert(rest@[m - k] == s@[m]);
                }
                assert(rest@[j as int] == s@[i as int]);
                if i + 1 >= s.len() {
                    return None;
                }
                if s[i + 1] == LF {
                    assert(crlf_at(s@, i as int));
                    return Some(i);
                }
                proof {
                    lemma_line_end_skip(s@, k as int, i + 1);
                }
                k = i + 1;
            },
        }
    }
}

/// A string of digits is worth at least as much as any of its prefixes.
proof fn lemma_digits_value_prefix(d: Seq<u8>, k: int)
    requires
        0 <= k <= d.len(),
        forall|i: int| 0 <= i < d.len() ==> is_digit(#[trigger] d[i]),
    ensures
        0 <= digits_value(d.take(k)) <= digits_value(d),
    decreases d.len(),
{
    if k == d.len() {
        assert(d.take(k) =~= d);
        if d.len() > 0 {
            lemma_digits_value_prefix(d.drop_last(), 0);
        }
    } else {
        let e = d.drop_last();
        assert(e.take(k) =~= d.take(k));
        lemma_digits_value_prefix(e, k);
    }
}

/// Reads a numeric field.
fn parse_number(t: &[u8]) -> (r: Option<i64>)
    ensures
        match number(t@) {
            Some(n) => r == Some(n as i64),
            None => r is None,
        },
{
    let len = t.len();
    if len == 0 {
        return None;
    }
    let negative = t[0] == 45u8;
    let signed = negative || t[0] == 43u8;
    let start: usize = if signed { 1 } else { 0 };
    let ghost d = if signed { t@.skip(1) } else { t@ };
    assert(d =~= t@.subrange(start as int, len as int));
    let ghost v = if negative { -digits_value(d) } else { digits_value(d) };
    assert(number(t@) == if all_digits(d) && in_i64(v) { Some(v) } else { None::<int> });
    if start >= len {
        assert(d.len() == 0);
        return None;
    }
    let mut acc: u128 = 0;
    let mut i: usize = start;
    while i < len
        invariant
            start <= i <= len,
            len == t@.len(),
            d == t@.subrange(start as int, len as int),
            acc == digits_value(d.take(i - start)),
            acc <= 0x8000_0000_0000_0000,
            forall|m: int| 0 <= m < i - start ==> is_digit(#[trigger] d[m]),
            v == if negative { -digits_value(d) } else { digits_value(d) },
            number(t@) == if all_digits(d) && in_i64(v) { Some(v) } else { None::<int> },
        decreases len - i,
    {
        let b = t[i];
        if !(48u8 <= b && b <= 57u8) {
            assert(d[i - start] == b);
            assert(!all_digits(d));
            return None;
        }
        proof {
            assert(d.take(i - start + 1).drop_last() =~= d.take(i - start));
        }
        acc = acc * 10 + (b - 48u8) as u128;
        i = i + 1;
        if acc > 0x8000_0000_0000_0000 {
            proof {
                if all_digits(d) {
                    lemma_digits_value_prefix(d, i - start);
                }
            }
            return None;
        }
    }
    assert(d.take(i - start) =~= d);
    assert(all_digits(d));
    assert(acc == digits_value(d));
    if negative {
        if acc == 0x8000_0000_0000_0000 {
            Some(i64::MIN)
        } else {
            Some(-(acc as i64))
        }
    } else if acc > 0x7fff_ffff_ffff_ffff {
        None
    } else {
        Some(acc as i64)
    }
}

/// A complete frame ends after its start and within the bytes, and `Eof` is
/// never the verdict on a malformed frame.
pub proof fn lemma_decode_end(s: Seq<u8>, p: int)
    ensures
        decode_at(s, p) matches Decoded::Done(_, e) ==> p < e <= s.len(),
        decode_at(s, p) != Decoded::Invalid(ParserError::Eof),
    decreases s.len() - p, 0int,
{
    if 0 <= p < s.len() && is_marker(s[p]) {
        lemma_line_end(s, p + 1);
        if let Some(e) = line_end(s, p + 1) {
            if let Some(n) = number(s.subrange(p + 1, e)) {
                lemma_decode_items_end(s, e + 2, n, Seq::empty());
            }
        }
    }
}

/// The elements of an array end after their start and within the bytes,
/// and never report `Eof` as malformed.
proof fn lemma_decode_items_end(s: Seq<u8>, p: int, n: int, acc: Seq<RespValue>)
    ensures
        0 <= p <= s.len() ==> (decode_items(s, p, n, acc) matches Decoded::Done(_, e) ==> p <= e
            <= s.len()),
        decode_items(s, p, n, acc) != Decoded::Invalid(ParserError::Eof),
    decreases s.len() - p, 1int,
{
    if n > 0 && 0 <= p <= s.len() {
        lemma_decode_end(s, p);
        if let Decoded::Done(v, e) = decode_at(s, p) {
            if p < e <= s.len() {
                lemma_decode_items_end(s, e, n - 1, acc.push(v));
            }
        }
    }
}

/// Whether an executable result agrees with what the decoder specifies.
pub open spec fn outcome(r: Result<(RedisType, usize), ParserError>, d: Decoded) -> bool {
    match d {
        Decoded::Done(v, e) => r matches Ok((x, end)) && x.model() == v && end == e,
        Decoded::Partial => r == Err::<(RedisType, usize), ParserError>(ParserError::Eof),
        Decoded::Invalid(err) => r == Err::<(RedisType, usize), ParserError>(err),
    }
}

/// Decodes the frame that starts at `p` in `s`, and says where it ends.
pub fn decode_frame(s: &[u8], p: usize) -> (r: Result<(RedisType, usize), ParserError>)
    ensures
        outcome(r, decode_at(s@, p as int)),
    decreases s@.len() - p,
{
    if p >= s.len() {
        return Err(ParserError::Eof);
    }
    let marker = s[p];
    if !(marker == 43u8 || marker == 45u8 || marker == 58u8 || marker == 36u8 || marker == 42u8) {
        return Err(ParserError::UnknownStartingByte);
    }
    let e = match find_line_end(s, p + 1) {
        None => {
            return Err(ParserError::Eof);
        },
        Some(e) => e,
    };
    proof {
        lemma_line_end(s@, p + 1);
    }
    let next = e + 2;
    if marker == 43u8 {
        let line = slice_to_vec(slice_subrange(s, p + 1, e));
        return Ok((RedisType::SimpleString(line), next));
    }
    if marker == 45u8 {
        let line = slice_to_vec(slice_subrange(s, p + 1, e));
        return Ok((RedisType::Error(line), next));
    }
    let n = match parse_number(slice_subrange(s, p + 1, e)) {
        None => {
            return Err(ParserError::InvalidNumber);
        },
        Some(n) => n,
    };
    if marker == 58u8 {
        return Ok((RedisType::Integer(n), next));
    }
    if n == -1 {
        if marker == 36u8 {
            return Ok((RedisType::NullBulkString, next));
        } else {
            return Ok((RedisType::NullArray, next));
        }
    }
    if n < -1 {
        return Err(ParserError::InvalidNumber);
    }
    if marker == 36u8 {
        let avail = s.len() - next;
        if (n as u64) + 2 > (avail as u64) {
            return Err(ParserError::Eof);
        }
        let end = next + n as usize;
        if !(s[end] == CR && s[end + 1] == LF) {
            return Err(ParserError::MissingCrlf);
        }
        let payload = slice_to_vec(slice_subrange(s, next, end));
        return Ok((RedisType::BulkString(payload), end + 2));
    }
    let mut items: Vec<RedisType> = Vec::new();
    let mut cur = next;
    let mut remaining: i64 = n;
    assert(models(items@) =~= Seq::empty());
    while remaining > 0
        invariant
            p < next <= cur <= s@.len(),
            0 <= remaining <= n,
            decode_at(s@, p as int) == decode_items(s@, next as int, n as int, Seq::empty()),
            decode_items(s@, next as int, n as int, Seq::empty()) == decode_items(
                s@,
                cur as int,
                remaining as int,
                models(items@),
            ),
        decreases s@.len() - cur,
    {
        let ghost acc = models(items@);
        match decode_frame(s, cur) {
            Err(err) => {
                return Err(err);
            },
            Ok((v, end)) => {
                proof {
                    lemma_decode_end(s@, cur as int);
                    assert(models(items@.push(v)) =~= acc.push(v.model()));
                }
                items.push(v);
                cur = end;
                remaining = remaining - 1;
            },
        }
    }
    proof {
        lemma_array_model(items);
    }
    Ok((RedisType::Array(items), cur))
}

/// Decodes the frame at the start of `data` and removes its bytes from
/// `data`; an incomplete or malformed frame leaves `data` as it was.
pub fn parse(data: &mut bytes::BytesMut) -> (r: Result<RedisType, ParserError>)
    ensures
        match decode(buffered(*old(data))) {
            Decoded::Done(v, e) => r matches Ok(x) && x.model() == v && buffered(*final(data))
                == buffered(*old(data)).skip(e),
            Decoded::Partial => r == Err::<RedisType, ParserError>(ParserError::Eof)
                && buffered(*final(data)) == buffered(*old(data)),
            Decoded::Invalid(err) => r == Err::<RedisType, ParserError>(err) && buffered(
                *final(data),
            ) == buffered(*old(data)),
        },
{
    let decoded = decode_frame(contents(data), 0);
    match decoded {
        Ok((v, end)) => {
            proof {
                lemma_decode_end(buffered(*data), 0);
            }
            discard_front(data, end);
            Ok(v)
        },
        Err(e) => Err(e),
    }
}

} // verus!
