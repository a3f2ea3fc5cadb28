use vstd::prelude::*;
use vstd::seq_lib::lemma_flatten_concat;
use crate::parser::{decode, decode_at, decode_items, is_marker, lemma_line_end, lemma_line_end_skip, line_end, Decoded};
use crate::value::{
    all_digits, crlf, crlf_at, decimal, digits, digits_value, encoding, encoding_all, in_i64,
    is_digit, line_safe, number, well_formed, RespValue, CR,
};

verus! {

/// The digits of a number are digits, and read back as the number.
proof fn lemma_digits(n: nat)
    ensures
        all_digits(digits(n)),
        digits_value(digits(n)) == n,
    decreases n,
{
    let d = digits(n);
    if n >= 10 {
        lemma_digits(n / 10);
        assert(d.drop_last() =~= digits(n / 10));
        assert(d.last() == (48 + n % 10) as u8);
        assert((n / 10) * 10 + n % 10 == n) by (nonlinear_arith);
        assert(digits_value(d) == digits_value(d.drop_last()) * 10 + (d.last() - 48));
        assert forall|i: int| 0 <= i < d.len() implies is_digit(#[trigger] d[i]) by {
            if i < d.len() - 1 {
                assert(d[i] == digits(n / 10)[i]);
            }
        }
    } else {
        assert(d.drop_last() =~= Seq::<u8>::empty());
        assert(d.last() == (48 + n) as u8);
        assert(digits_value(d.drop_last()) == 0);
        assert(digits_value(d) == digits_value(d.drop_last()) * 10 + (d.last() - 48));
    }
}

/// The decimal text of an integer reads back as that integer.
proof fn lemma_number_decimal(n: int)
    requires
        in_i64(n),
    ensures
        number(decimal(n)) == Some(n),
        line_safe(decimal(n)),
        forall|i: int| 0 <= i < decimal(n).len() ==> #[trigger] decimal(n)[i] != CR,
{
    let t = decimal(n);
    if n < 0 {
        lemma_digits((-n) as nat);
        assert(t.skip(1) =~= digits((-n) as nat));
        assert forall|i: int| 0 <= i < t.len() implies #[trigger] t[i] != CR by {
            if i > 0 {
                assert(t[i] == digits((-n) as nat)[i - 1]);
            }
        }
    } else {
        lemma_digits(n as nat);
        assert(is_digit(t[0]));
    }
}

/// The first terminator after a header byte is the one that follows the field.
proof fn lemma_field_line(s: Seq<u8>, p: int, field: Seq<u8>)
    requires
        0 <= p,
        line_safe(field),
        p + field.len() + 3 <= s.len(),
        s.subrange(p + 1, p + 1 + field.len()) == field,
        crlf_at(s, p + 1 + field.len()),
    ensures
        line_end(s, p + 1) == Some(p + 1 + field.len()),
{
    let e = p + 1 + field.len();
    assert forall|i: int| p + 1 <= i < e implies !crlf_at(s, i) by {
        assert(s[i] == field[i - p - 1]);
        if i + 1 < e {
            assert(s[i + 1] == field[i - p]);
        }
    }
    lemma_line_end_skip(s, p + 1, e);
}

/// A header cut short of its terminator has no line end yet.
proof fn lemma_field_line_cut(s: Seq<u8>, p: int, field: Seq<u8>)
    requires
        0 <= p,
        line_safe(field),
        s.len() <= p + field.len() + 2,
        forall|i: int| p + 1 <= i < s.len() && i < p + 1 + field.len() ==> s[i] == field[i - p - 1],
        p + 1 + field.len() < s.len() ==> s[p + 1 + field.len()] == CR,
    ensures
        line_end(s, p + 1) is None,
{
    lemma_line_end(s, p + 1);
    let e = p + 1 + field.len();
    if let Some(x) = line_end(s, p + 1) {
        assert(crlf_at(s, x));
        if x + 1 < e {
            assert(s[x] == field[x - p - 1]);
            assert(s[x + 1] == field[x - p]);
        }
    }
}

/// Facts about a value's encoding that both directions of the proof use.
proof fn lemma_shape(v: RespValue)
    requires
        well_formed(v),
    ensures
        encoding(v).len() >= 1,
        is_marker(encoding(v)[0]),
{
    match v {
        RespValue::Array(items) => {},
        _ => {},
    }
}

/// `s` holds all of `e` from position `p`.
pub open spec fn holds_at(s: Seq<u8>, p: int, e: Seq<u8>) -> bool {
    0 <= p && p + e.len() <= s.len() && s.subrange(p, p + e.len()) == e
}

/// `s` holds from position `p` a proper prefix of `e`, and ends there.
pub open spec fn holds_prefix_at(s: Seq<u8>, p: int, e: Seq<u8>) -> bool {
    0 <= p <= s.len() < p + e.len() && s.subrange(p, s.len() as int) == e.take(s.len() - p)
}

/// The header field of a value's encoding: the line after the type marker.
pub open spec fn field_of(v: RespValue) -> Seq<u8> {
    match v {
        RespValue::Simple(s) => s,
        RespValue::Error(s) => s,
        RespValue::Integer(n) => decimal(n),
        RespValue::Bulk(s) => decimal(s.len() as int),
        RespValue::Array(items) => decimal(items.len() as int),
        _ => decimal(-1),
    }
}

/// What follows the header line of a value's encoding.
pub open spec fn body_of(v: RespValue) -> Seq<u8> {
    match v {
        RespValue::Bulk(s) => s + crlf(),
        RespValue::Array(items) => encoding_all(items),
        _ => Seq::empty(),
    }
}

/// An encoding is a marker, a header field, a terminator and a body, and a
/// numeric field reads back as the number it was written from.
proof fn lemma_layout(v: RespValue)
    requires
        well_formed(v),
    ensures
        encoding(v) == seq![encoding(v)[0]] + field_of(v) + crlf() + body_of(v),
        line_safe(field_of(v)),
        !(v is Simple) && !(v is Error) ==> number(field_of(v)) == Some(
            match v {
                RespValue::Integer(n) => n,
                RespValue::Bulk(s) => s.len() as int,
                RespValue::Array(items) => items.len() as int,
                _ => -1,
            },
        ),
{
    assert(decimal(-1) =~= seq![45u8, 49u8]);
    match v {
        RespValue::Simple(_) => {
            assert(encoding(v) =~= seq![encoding(v)[0]] + field_of(v) + crlf() + body_of(v));
        },
        RespValue::Error(_) => {
            assert(encoding(v) =~= seq![encoding(v)[0]] + field_of(v) + crlf() + body_of(v));
        },
        RespValue::Integer(n) => {
            lemma_number_decimal(n);
            assert(encoding(v) =~= seq![encoding(v)[0]] + field_of(v) + crlf() + body_of(v));
        },
        RespValue::Bulk(s) => {
            lemma_number_decimal(s.len() as int);
            assert(encoding(v) =~= seq![encoding(v)[0]] + field_of(v) + crlf() + body_of(v));
        },
        RespValue::Array(items) => {
            lemma_number_decimal(items.len() as int);
            assert(encoding(v) =~= seq![encoding(v)[0]] + field_of(v) + crlf() + body_of(v));
        },
        _ => {
            lemma_number_decimal(-1);
            assert(encoding(v) =~= seq![encoding(v)[0]] + field_of(v) + crlf() + body_of(v));
        },
    }
}

/// Reads the header of an encoding held at `p`, and locates its body.
proof fn lemma_split(s: Seq<u8>, p: int, m: u8, f: Seq<u8>, b: Seq<u8>)
    requires
        holds_at(s, p, seq![m] + f + crlf() + b),
    ensures
        s[p] == m,
        s.subrange(p + 1, p + 1 + f.len()) == f,
        crlf_at(s, p + 1 + f.len()),
        holds_at(s, p + 3 + f.len(), b),
{
    let fl: int = f.len() as int;
    let e = seq![m] + f + crlf() + b;
    let w = s.subrange(p, p + e.len());
    assert(s[p] == w[0]);
    assert(s.subrange(p + 1, p + 1 + fl) =~= w.subrange(1, 1 + fl));
    assert(e.subrange(1, 1 + fl) =~= f);
    assert(s[p + 1 + fl] == w[1 + fl]);
    assert(s[p + 2 + fl] == w[2 + fl]);
    assert(s.subrange(p + 3 + fl, p + e.len()) =~= w.subrange(3 + fl, e.len() as int));
    assert(e.subrange(3 + fl, e.len() as int) =~= b);
}

/// Reads what is there of the header of an encoding cut short at the end of `s`.
proof fn lemma_split_cut(s: Seq<u8>, p: int, m: u8, f: Seq<u8>, b: Seq<u8>)
    requires
        p < s.len(),
        holds_prefix_at(s, p, seq![m] + f + crlf() + b),
    ensures
        s[p] == m,
        forall|i: int| p + 1 <= i < s.len() && i < p + 1 + f.len() ==> s[i] == f[i - p - 1],
        p + 1 + f.len() < s.len() ==> s[p + 1 + f.len()] == CR,
        p + 3 + f.len() <= s.len() ==> {
            &&& s.subrange(p + 1, p + 1 + f.len()) == f
            &&& crlf_at(s, p + 1 + f.len())
            &&& holds_prefix_at(s, p + 3 + f.len(), b)
        },
{
    let fl: int = f.len() as int;
    let e = seq![m] + f + crlf() + b;
    let w = s.subrange(p, s.len() as int);
    assert forall|k: int| 0 <= k < s.len() - p implies s[p + k] == #[trigger] e[k] by {
        assert(w[k] == s[p + k]);
        assert(e.take(s.len() - p)[k] == e[k]);
    }
    assert(s[p] == e[0]);
    assert forall|i: int| p + 1 <= i < s.len() && i < p + 1 + fl implies s[i] == f[i - p - 1] by {
        assert(s[p + (i - p)] == e[i - p]);
    }
    if p + 1 + fl < s.len() {
        assert(s[p + (1 + fl)] == e[1 + fl]);
    }
    if p + 3 + fl <= s.len() {
        assert(s[p + (1 + fl)] == e[1 + fl]);
        assert(s[p + (2 + fl)] == e[2 + fl]);
        assert(s.subrange(p + 1, p + 1 + fl) =~= f);
        let q = p + 3 + fl;
        assert forall|k: int| 0 <= k < s.len() - q implies s.subrange(q, s.len() as int)[k] == b.take(
            s.len() - q,
        )[k] by {
            assert(s[p + (3 + fl + k)] == e[3 + fl + k]);
        }
        assert(s.subrange(q, s.len() as int) =~= b.take(s.len() - q));
    }
}

/// Where `s` holds a concatenation, it holds each part in turn.
proof fn lemma_cat(s: Seq<u8>, q: int, a: Seq<u8>, b: Seq<u8>)
    requires
        holds_at(s, q, a + b),
    ensures
        holds_at(s, q, a),
        holds_at(s, q + a.len(), b),
{
    let al: int = a.len() as int;
    let bl: int = b.len() as int;
    let w = s.subrange(q, q + al + bl);
    assert(s.subrange(q, q + al) =~= w.subrange(0, al));
    assert((a + b).subrange(0, al) =~= a);
    assert(s.subrange(q + al, q + al + bl) =~= w.subrange(
        al,
        al + bl,
    ));
    assert((a + b).subrange(al, al + bl) =~= b);
}

/// Where `s` holds a cut-short concatenation, it holds the first part, whole
/// or cut short, and then what is there of the second.
proof fn lemma_cat_cut(s: Seq<u8>, q: int, a: Seq<u8>, b: Seq<u8>)
    requires
        holds_prefix_at(s, q, a + b),
    ensures
        s.len() < q + a.len() ==> holds_prefix_at(s, q, a),
        s.len() >= q + a.len() ==> holds_at(s, q, a) && holds_prefix_at(s, q + a.len(), b),
{
    let al: int = a.len() as int;
    let w = s.subrange(q, s.len() as int);
    let n = s.len() - q;
    if s.len() < q + al {
        assert((a + b).take(n) =~= a.take(n));
    } else {
        assert(s.subrange(q, q + al) =~= w.subrange(0, al));
        assert((a + b).take(n).subrange(0, al) =~= a);
        assert(s.subrange(q + al, s.len() as int) =~= w.subrange(al, n));
        assert((a + b).take(n).subrange(al, n) =~= b.take(n - al));
    }
}

/// A well-formed value's encoding, wherever it stands in a buffer, decodes
/// to that value and ends where the encoding ends.
pub proof fn lemma_decode_encoded(s: Seq<u8>, p: int, v: RespValue)
    requires
        well_formed(v),
        holds_at(s, p, encoding(v)),
    ensures
        decode_at(s, p) == Decoded::Done(v, p + encoding(v).len()),
    decreases v,
{
    lemma_layout(v);
    let enc = encoding(v);
    let f = field_of(v);
    lemma_split(s, p, enc[0], f, body_of(v));
    lemma_field_line(s, p, f);
    let next = p + 3 + f.len();
    match v {
        RespValue::Bulk(pl) => {
            lemma_cat(s, next, pl, crlf());
            let w = s.subrange(next + pl.len(), next + pl.len() + 2);
            assert(s[next + pl.len()] == w[0]);
            assert(s[next + pl.len() + 1] == w[1]);
        },
        RespValue::Array(items) => {
            lemma_decode_items_encoded(s, next, items, Seq::empty());
            assert(Seq::<RespValue>::empty() + items =~= items);
        },
        _ => {},
    }
}

/// Encodings of values laid one after the other decode to those values.
proof fn lemma_decode_items_encoded(
    s: Seq<u8>,
    q: int,
    items: Seq<RespValue>,
    done: Seq<RespValue>,
)
    requires
        forall|i: int| 0 <= i < items.len() ==> well_formed(#[trigger] items[i]),
        holds_at(s, q, encoding_all(items)),
    ensures
        decode_items(s, q, items.len() as int, done) == Decoded::Done(
            RespValue::Array(done + items),
            q + encoding_all(items).len(),
        ),
    decreases items,
{
    if items.len() == 0 {
        assert(done + items =~= done);
    } else {
        let x = items[0];
        let rest = items.subrange(1, items.len() as int);
        lemma_cat(s, q, encoding(x), encoding_all(rest));
        lemma_shape(x);
        lemma_decode_encoded(s, q, x);
        lemma_decode_items_encoded(s, q + encoding(x).len(), rest, done.push(x));
        assert(done.push(x) + rest =~= done + items);
    }
}

/// An encoding cut short at the end of the buffer decodes as incomplete.
pub proof fn lemma_decode_cut(s: Seq<u8>, p: int, v: RespValue)
    requires
        well_formed(v),
        holds_prefix_at(s, p, encoding(v)),
    ensures
        decode_at(s, p) == Decoded::Partial,
    decreases v,
{
    if p < s.len() {
        lemma_layout(v);
        lemma_shape(v);
        let enc = encoding(v);
        let f = field_of(v);
        lemma_split_cut(s, p, enc[0], f, body_of(v));
        let next = p + 3 + f.len();
        if s.len() < next {
            lemma_field_line_cut(s, p, f);
        } else {
            lemma_field_line(s, p, f);
            match v {
                RespValue::Array(items) => {
                    lemma_items_cut(s, next, items, Seq::empty());
                },
                _ => {},
            }
        }
    }
}

/// Encodings laid one after the other and cut short decode as incomplete.
proof fn lemma_items_cut(s: Seq<u8>, q: int, items: Seq<RespValue>, done: Seq<RespValue>)
    requires
        forall|i: int| 0 <= i < items.len() ==> well_formed(#[trigger] items[i]),
        holds_prefix_at(s, q, encoding_all(items)),
    ensures
        decode_items(s, q, items.len() as int, done) == Decoded::Partial,
    decreases items,
{
    if items.len() > 0 {
        let x = items[0];
        let rest = items.subrange(1, items.len() as int);
        lemma_cat_cut(s, q, encoding(x), encoding_all(rest));
        lemma_shape(x);
        if s.len() < q + encoding(x).len() {
            lemma_decode_cut(s, q, x);
        } else {
            lemma_decode_encoded(s, q, x);
            lemma_items_cut(s, q + encoding(x).len(), rest, done.push(x));
        }
    }
}

/// Decoding the encoding of a well-formed value gives back that value and
/// consumes the whole encoding.
pub proof fn lemma_round_trip(v: RespValue)
    requires
        well_formed(v),
    ensures
        decode(encoding(v)) == Decoded::Done(v, encoding(v).len() as int),
{
    let s = encoding(v);
    assert(s.subrange(0, s.len() as int) =~= s);
    lemma_decode_encoded(s, 0, v);
}

/// Every proper prefix of a well-formed value's encoding decodes as
/// incomplete: a frame fed in pieces is reported incomplete until its last
/// byte has arrived, and is then decoded whole.
pub proof fn lemma_incremental(v: RespValue, k: int)
    requires
        well_formed(v),
        0 <= k < encoding(v).len(),
    ensures
        decode(encoding(v).take(k)) == Decoded::Partial,
{
    let s = encoding(v).take(k);
    assert(s.subrange(0, s.len() as int) =~= encoding(v).take(s.len() as int));
    lemma_decode_cut(s, 0, v);
}

/// Feeding the encoding of a well-formed value in non-empty chunks: the bytes
/// held after each chunk but the last decode as incomplete, and after the
/// last chunk they decode to the value, all of them consumed.
pub proof fn lemma_chunked_feed(v: RespValue, chunks: Seq<Seq<u8>>)
    requires
        well_formed(v),
        chunks.flatten() == encoding(v),
        forall|i: int| 0 <= i < chunks.len() ==> (#[trigger] chunks[i]).len() > 0,
    ensures
        forall|i: int|
            0 <= i < chunks.len() ==> decode(#[trigger] chunks.take(i).flatten()) == Decoded::Partial,
        decode(chunks.flatten()) == Decoded::Done(v, encoding(v).len() as int),
{
    lemma_round_trip(v);
    assert forall|i: int| 0 <= i < chunks.len() implies decode(
        #[trigger] chunks.take(i).flatten(),
    ) == Decoded::Partial by {
        let pre = chunks.take(i);
        let post = chunks.skip(i);
        assert(chunks =~= pre + post);
        lemma_flatten_concat(pre, post);
        assert(post[0] == chunks[i]);
        assert(post.flatten() == post.first() + post.drop_first().flatten());
        let k = pre.flatten().len() as int;
        assert(encoding(v).take(k) =~= pre.flatten());
        lemma_incremental(v, k);
    }
}

} // verus!
