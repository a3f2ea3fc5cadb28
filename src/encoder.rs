use vstd::prelude::*;
use crate::value::{
    crlf, decimal, digits, encoding, encoding_all, lemma_array_model, models, RedisType, RespValue,
    CR, LF,
};

verus! {

broadcast use vstd::std_specs::vec::axiom_vec_index_decreases;

/// Appending one more value appends its encoding.
pub proof fn lemma_encoding_all_push(items: Seq<RespValue>, x: RespValue)
    ensures
        encoding_all(items.push(x)) == encoding_all(items) + encoding(x),
    decreases items.len(),
{
    let whole = items.push(x);
    if items.len() == 0 {
        assert(whole.subrange(1, whole.len() as int) =~= Seq::<RespValue>::empty());
        assert(encoding_all(Seq::<RespValue>::empty()) =~= Seq::<u8>::empty());
        assert(encoding_all(whole) =~= encoding(x));
    } else {
        let rest = items.subrange(1, items.len() as int);
        assert(whole.subrange(1, whole.len() as int) =~= rest.push(x));
        lemma_encoding_all_push(rest, x);
        assert(encoding_all(whole) =~= encoding_all(items) + encoding(x));
    }
}

/// Appends the bytes of `b`.
fn push_bytes(out: &mut Vec<u8>, b: &[u8])
    ensures
        final(out)@ == old(out)@ + b@,
{
    let mut i: usize = 0;
    while i < b.len()
        invariant
            i <= b@.len(),
            out@ == old(out)@ + b@.take(i as int),
        decreases b@.len() - i,
    {
        out.push(b[i]);
        i = i + 1;
        assert(out@ =~= old(out)@ + b@.take(i as int));
    }
    assert(b@.take(i as int) =~= b@);
}

/// Appends a line terminator.
fn push_crlf(out: &mut Vec<u8>)
    ensures
        final(out)@ == old(out)@ + crlf(),
{
    out.push(CR);
    out.push(LF);
    assert(out@ =~= old(out)@ + crlf());
}

/// Appends the decimal digits of `n`.
pub(crate) fn push_digits(out: &mut Vec<u8>, n: u64)
    ensures
        final(out)@ == old(out)@ + digits(n as nat),
    decreases n,
{
    if n < 10 {
        out.push(48u8 + n as u8);
        assert(out@ =~= old(out)@ + digits(n as nat));
    } else {
        push_digits(out, n / 10);
        out.push(48u8 + (n % 10) as u8);
        assert(out@ =~= old(out)@ + digits(n as nat));
    }
}

/// Appends the decimal text of `n`.
fn push_decimal(out: &mut Vec<u8>, n: i64)
    ensures
        final(out)@ == old(out)@ + decimal(n as int),
{
    if n < 0 {
        out.push(45u8);
        let magnitude: u64 = if n == i64::MIN {
            0x8000_0000_0000_0000
        } else {
            (-n) as u64
        };
        push_digits(out, magnitude);
        assert(out@ =~= old(out)@ + decimal(n as int));
    } else {
        push_digits(out, n as u64);
    }
}

/// Appends the encoding of `v` to `out`.
pub fn encode_into(v: &RedisType, out: &mut Vec<u8>)
    ensures
        final(out)@ == old(out)@ + encoding(v.model()),
    decreases v,
{
    match v {
        RedisType::SimpleString(b) => {
            out.push(43u8);
            push_bytes(out, b.as_slice());
            push_crlf(out);
            assert(out@ =~= old(out)@ + encoding(v.model()));
        },
        RedisType::Error(b) => {
            out.push(45u8);
            push_bytes(out, b.as_slice());
            push_crlf(out);
            assert(out@ =~= old(out)@ + encoding(v.model()));
        },
        RedisType::Integer(n) => {
            out.push(58u8);
            push_decimal(out, *n);
            push_crlf(out);
            assert(out@ =~= old(out)@ + encoding(v.model()));
        },
        RedisType::BulkString(b) => {
            out.push(36u8);
            push_digits(out, b.len() as u64);
            push_crlf(out);
            push_bytes(out, b.as_slice());
            push_crlf(out);
            assert(out@ =~= old(out)@ + encoding(v.model()));
        },
        RedisType::Array(items) => {
            out.push(42u8);
            push_digits(out, items.len() as u64);
            push_crlf(out);
            let ghost header = out@;
            let ghost ms = models(items@);
            let mut i: usize = 0;
            assert(ms.take(0) =~= Seq::<RespValue>::empty());
            assert(encoding_all(Seq::<RespValue>::empty()) =~= Seq::<u8>::empty());
            assert(out@ =~= header + encoding_all(ms.take(0)));
            while i < items.len()
                invariant
                    i <= items@.len(),
                    *v == RedisType::Array(*items),
                    ms == models(items@),
                    out@ == header + encoding_all(ms.take(i as int)),
                decreases items@.len() - i,
            {
                proof {
                    assert(decreases_to!(*v => v->Array_0));
                    assert(decreases_to!(v->Array_0 => v->Array_0[i as int]));
                }
                encode_into(&items[i], out);
                proof {
                    assert(ms.take(i + 1) =~= ms.take(i as int).push(ms[i as int]));
                    lemma_encoding_all_push(ms.take(i as int), ms[i as int]);
                }
                i = i + 1;
                assert(out@ =~= header + encoding_all(ms.take(i as int)));
            }
            proof {
                assert(ms.take(i as int) =~= ms);
                lemma_array_model(*items);
            }
            assert(out@ =~= old(out)@ + encoding(v.model()));
        },
        RedisType::NullBulkString => {
            out.push(36u8);
            out.push(45u8);
            out.push(49u8);
            push_crlf(out);
            assert(out@ =~= old(out)@ + encoding(v.model()));
        },
        RedisType::NullArray => {
            out.push(42u8);
            out.push(45u8);
            out.push(49u8);
            push_crlf(out);
            assert(out@ =~= old(out)@ + encoding(v.model()));
        },
    }
}

/// The bytes that encode `v` on the wire.
pub fn encode(v: &RedisType) -> (r: Vec<u8>)
    ensures
        r@ == encoding(v.model()),
{
    let mut out: Vec<u8> = Vec::new();
    encode_into(v, &mut out);
    assert(out@ =~= encoding(v.model()));
    out
}

} // verus!
