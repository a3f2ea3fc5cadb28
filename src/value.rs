use vstd::prelude::*;

verus! {

broadcast use vstd::std_specs::vec::axiom_vec_index_decreases;

/// A value carried by the wire protocol, as the decoder produces it.
#[derive(Debug, PartialEq, Eq)]
pub enum RedisType {
    SimpleString(Vec<u8>),
    Error(Vec<u8>),
    Integer(i64),
    BulkString(Vec<u8>),
    Array(Vec<RedisType>),
    NullBulkString,
    NullArray,
}

/// Mathematical model of a protocol value.
pub enum RespValue {
    /// A one-line status string.
    Simple(Seq<u8>),
    /// A one-line error message.
    Error(Seq<u8>),
    Integer(int),
    /// A length-prefixed binary string.
    Bulk(Seq<u8>),
    Array(Seq<RespValue>),
    /// The bulk string of length -1.
    NullBulk,
    /// The array of length -1.
    NullArray,
}

impl RedisType {
    /// The mathematical value this value stands for.
    pub open spec fn model(self) -> RespValue
        decreases self,
    {
        match self {
            RedisType::SimpleString(b) => RespValue::Simple(b@),
            RedisType::Error(b) => RespValue::Error(b@),
            RedisType::Integer(n) => RespValue::Integer(n as int),
            RedisType::BulkString(b) => RespValue::Bulk(b@),
            RedisType::Array(items) => RespValue::Array(
                Seq::new(
                    items.len() as nat,
                    |i: int|
                        if 0 <= i < items.len() {
                            items[i].model()
                        } else {
                            RespValue::NullArray
                        },
                ),
            ),
            RedisType::NullBulkString => RespValue::NullBulk,
            RedisType::NullArray => RespValue::NullArray,
        }
    }
}

/// The models of a sequence of values, element by element.
pub open spec fn models(items: Seq<RedisType>) -> Seq<RespValue> {
    Seq::new(items.len(), |i: int| items[i].model())
}

/// The model of an array is the sequence of the models of its elements.
pub proof fn lemma_array_model(items: Vec<RedisType>)
    ensures
        RedisType::Array(items).model() == RespValue::Array(models(items@)),
{
    assert(RedisType::Array(items).model()->Array_0 =~= models(items@));
}

/// Carriage return.
pub const CR: u8 = 13;

/// Line feed.
pub const LF: u8 = 10;

/// The two bytes that end every line of the protocol.
pub open spec fn crlf() -> Seq<u8> {
    seq![CR, LF]
}

/// An ASCII decimal digit.
pub open spec fn is_digit(b: u8) -> bool {
    48 <= b <= 57
}

/// Decimal digits of `n`, most significant first, without leading zeros.
pub open spec fn digits(n: nat) -> Seq<u8>
    decreases n,
{
    if n < 10 {
        seq![(48 + n) as u8]
    } else {
        digits(n / 10).push((48 + n % 10) as u8)
    }
}

/// Decimal text of `n`, with a leading `-` when negative.
pub open spec fn decimal(n: int) -> Seq<u8> {
    if n < 0 {
        seq![45u8] + digits((-n) as nat)
    } else {
        digits(n as nat)
    }
}

/// The value of a string of decimal digits.
pub open spec fn digits_value(d: Seq<u8>) -> int
    decreases d.len(),
{
    if d.len() == 0 {
        0
    } else {
        digits_value(d.drop_last()) * 10 + (d.last() - 48)
    }
}

/// A non-empty string of decimal digits.
pub open spec fn all_digits(d: Seq<u8>) -> bool {
    d.len() > 0 && forall|i: int| 0 <= i < d.len() ==> is_digit(#[trigger] d[i])
}

/// Fits in 64 signed bits.
pub open spec fn in_i64(n: int) -> bool {
    i64::MIN <= n <= i64::MAX
}

/// The integer a numeric field denotes: an optional sign, then at least one
/// decimal digit, with a value that fits in 64 signed bits.
pub open spec fn number(t: Seq<u8>) -> Option<int> {
    let negative = t.len() > 0 && t[0] == 45u8;
    let signed = t.len() > 0 && (t[0] == 45u8 || t[0] == 43u8);
    let d = if signed { t.skip(1) } else { t };
    let n = if negative { -digits_value(d) } else { digits_value(d) };
    if all_digits(d) && in_i64(n) { Some(n) } else { None }
}

/// The bytes that encode `v` on the wire.
pub open spec fn encoding(v: RespValue) -> Seq<u8>
    decreases v,
{
    match v {
        RespValue::Simple(s) => seq![43u8] + s + crlf(),
        RespValue::Error(s) => seq![45u8] + s + crlf(),
        RespValue::Integer(n) => seq![58u8] + decimal(n) + crlf(),
        RespValue::Bulk(s) => seq![36u8] + decimal(s.len() as int) + crlf() + s + crlf(),
        RespValue::Array(items) => seq![42u8] + decimal(items.len() as int) + crlf()
            + encoding_all(items),
        RespValue::NullBulk => seq![36u8, 45u8, 49u8, CR, LF],
        RespValue::NullArray => seq![42u8, 45u8, 49u8, CR, LF],
    }
}

/// The encodings of `items`, one after the other.
pub open spec fn encoding_all(items: Seq<RespValue>) -> Seq<u8>
    decreases items,
{
    if items.len() == 0 {
        Seq::empty()
    } else {
        encoding(items[0]) + encoding_all(items.subrange(1, items.len() as int))
    }
}

/// A line terminator starts at `i`.
pub open spec fn crlf_at(s: Seq<u8>, i: int) -> bool {
    0 <= i && i + 1 < s.len() && s[i] == CR && s[i + 1] == LF
}

/// A payload of a line-based frame must not hold the line terminator.
pub open spec fn line_safe(s: Seq<u8>) -> bool {
    forall|i: int| #![trigger s[i]] 0 <= i && i + 1 < s.len() ==> !(s[i] == CR && s[i + 1] == LF)
}

/// A value that the encoder can write so that the decoder reads it back.
pub open spec fn well_formed(v: RespValue) -> bool
    decreases v,
{
    match v {
        RespValue::Simple(s) => line_safe(s),
        RespValue::Error(s) => line_safe(s),
        RespValue::Integer(n) => in_i64(n),
        RespValue::Bulk(s) => s.len() <= i64::MAX,
        RespValue::Array(items) => items.len() <= i64::MAX && forall|i: int|
            0 <= i < items.len() ==> well_formed(#[trigger] items[i]),
        _ => true,
    }
}

} // verus!
