use bytes::BytesMut;
use zangy::encoder::encode;
use zangy::parser::{parse, ParserError};
use zangy::reader::{ReadError, Reader};
use zangy::value::RedisType;

fn buf(b: &[u8]) -> BytesMut {
    BytesMut::from(b)
}

fn bulk(b: &[u8]) -> RedisType {
    RedisType::BulkString(b.to_vec())
}

#[test]
fn null_bulk_string() {
    let mut data = buf(b"$-1\r\n");
    assert_eq!(parse(&mut data), Ok(RedisType::NullBulkString));
    assert_eq!(data.len(), 0);
}

#[test]
fn null_array() {
    let mut data = buf(b"*-1\r\n");
    assert_eq!(parse(&mut data), Ok(RedisType::NullArray));
    assert_eq!(data.len(), 0);
}

#[test]
fn empty_array_is_not_null() {
    let mut data = buf(b"*0\r\n");
    let v = parse(&mut data).unwrap();
    assert_eq!(v, RedisType::Array(Vec::new()));
    assert_ne!(v, RedisType::NullArray);
    assert_ne!(v, RedisType::NullBulkString);
}

#[test]
fn error_frame() {
    let mut data = buf(b"-ERR bad\r\n");
    assert_eq!(parse(&mut data), Ok(RedisType::Error(b"ERR bad".to_vec())));
    assert_eq!(data.len(), 0);
}

#[test]
fn two_bulk_strings_end_to_end() {
    let mut reader = Reader::new();
    reader.feed(b"*2\r\n$3\r\nfoo\r\n$3\r\nbar\r\n");
    let v = reader.gets();
    assert_eq!(v, Ok(Some(RedisType::Array(vec![bulk(b"foo"), bulk(b"bar")]))));
    assert_eq!(reader.len(), 0);
    assert_eq!(reader.get_buffer(), Vec::<u8>::new());
}

#[test]
fn simple_string_and_rest_kept() {
    let mut data = buf(b"+OK\r\n:5\r\n");
    assert_eq!(parse(&mut data), Ok(RedisType::SimpleString(b"OK".to_vec())));
    assert_eq!(&data[..], b":5\r\n");
    assert_eq!(parse(&mut data), Ok(RedisType::Integer(5)));
    assert_eq!(data.len(), 0);
}

#[test]
fn integers() {
    assert_eq!(parse(&mut buf(b":0\r\n")), Ok(RedisType::Integer(0)));
    assert_eq!(parse(&mut buf(b":-1000\r\n")), Ok(RedisType::Integer(-1000)));
    assert_eq!(parse(&mut buf(b":+7\r\n")), Ok(RedisType::Integer(7)));
    assert_eq!(
        parse(&mut buf(b":9223372036854775807\r\n")),
        Ok(RedisType::Integer(i64::MAX))
    );
    assert_eq!(
        parse(&mut buf(b":-9223372036854775808\r\n")),
        Ok(RedisType::Integer(i64::MIN))
    );
}

#[test]
fn integer_out_of_range_is_invalid() {
    let mut data = buf(b":9223372036854775808\r\n");
    assert_eq!(parse(&mut data), Err(ParserError::InvalidNumber));
    assert_eq!(&data[..], b":9223372036854775808\r\n");
    let mut big = buf(b":123456789012345678901234567890\r\n");
    assert_eq!(parse(&mut big), Err(ParserError::InvalidNumber));
}

#[test]
fn non_numeric_lengths_are_invalid() {
    assert_eq!(parse(&mut buf(b"$abc\r\nabc\r\n")), Err(ParserError::InvalidNumber));
    assert_eq!(parse(&mut buf(b"*x\r\n")), Err(ParserError::InvalidNumber));
    assert_eq!(parse(&mut buf(b"$\r\n")), Err(ParserError::InvalidNumber));
    assert_eq!(parse(&mut buf(b":-\r\n")), Err(ParserError::InvalidNumber));
    assert_eq!(parse(&mut buf(b"$-2\r\n")), Err(ParserError::InvalidNumber));
    assert_eq!(parse(&mut buf(b"*-5\r\n")), Err(ParserError::InvalidNumber));
}

#[test]
fn unknown_starting_byte() {
    let mut data = buf(b"?what\r\n");
    assert_eq!(parse(&mut data), Err(ParserError::UnknownStartingByte));
    assert_eq!(&data[..], b"?what\r\n");
}

#[test]
fn bulk_without_terminator() {
    let mut data = buf(b"$3\r\nfooXY");
    assert_eq!(parse(&mut data), Err(ParserError::MissingCrlf));
    assert_eq!(data.len(), 9);
}

#[test]
fn bulk_holding_crlf() {
    let mut data = buf(b"$4\r\n\r\n\r\n\r\n");
    assert_eq!(parse(&mut data), Ok(bulk(b"\r\n\r\n")));
    assert_eq!(data.len(), 0);
}

#[test]
fn empty_buffer_is_incomplete() {
    let mut data = BytesMut::new();
    assert_eq!(parse(&mut data), Err(ParserError::Eof));
}

#[test]
fn bare_newline_is_not_a_terminator() {
    let mut data = buf(b"+OK\n");
    assert_eq!(parse(&mut data), Err(ParserError::Eof));
    assert_eq!(&data[..], b"+OK\n");
    let mut cr_inside = buf(b"+a\rb\r\n");
    assert_eq!(parse(&mut cr_inside), Ok(RedisType::SimpleString(b"a\rb".to_vec())));
}

#[test]
fn incomplete_array_consumes_nothing() {
    let mut data = buf(b"*2\r\n$3\r\nfoo\r\n$3\r\nba");
    assert_eq!(parse(&mut data), Err(ParserError::Eof));
    assert_eq!(data.len(), 19);
}

#[test]
fn nested_arrays() {
    let mut data = buf(b"*2\r\n*1\r\n:1\r\n*0\r\n");
    assert_eq!(
        parse(&mut data),
        Ok(RedisType::Array(vec![
            RedisType::Array(vec![RedisType::Integer(1)]),
            RedisType::Array(Vec::new()),
        ]))
    );
}

fn sample_values() -> Vec<RedisType> {
    vec![
        RedisType::SimpleString(b"OK".to_vec()),
        RedisType::SimpleString(Vec::new()),
        RedisType::Integer(0),
        RedisType::Integer(-42),
        RedisType::Integer(i64::MIN),
        RedisType::Integer(i64::MAX),
        bulk(b""),
        bulk(b"binary\r\n\x00data"),
        RedisType::NullBulkString,
        RedisType::NullArray,
        RedisType::Array(Vec::new()),
        RedisType::Array(vec![
            bulk(b"SET"),
            RedisType::Integer(12),
            RedisType::Array(vec![RedisType::NullBulkString, RedisType::SimpleString(b"x".to_vec())]),
        ]),
        RedisType::Error(b"ERR bad".to_vec()),
    ]
}

#[test]
fn encode_exact_bytes() {
    assert_eq!(encode(&RedisType::SimpleString(b"OK".to_vec())), b"+OK\r\n".to_vec());
    assert_eq!(encode(&RedisType::Error(b"ERR x".to_vec())), b"-ERR x\r\n".to_vec());
    assert_eq!(encode(&RedisType::Integer(-1000)), b":-1000\r\n".to_vec());
    assert_eq!(encode(&bulk(b"foobar")), b"$6\r\nfoobar\r\n".to_vec());
    assert_eq!(encode(&bulk(b"")), b"$0\r\n\r\n".to_vec());
    assert_eq!(encode(&RedisType::NullBulkString), b"$-1\r\n".to_vec());
    assert_eq!(encode(&RedisType::NullArray), b"*-1\r\n".to_vec());
    assert_eq!(
        encode(&RedisType::Array(vec![bulk(b"foo"), bulk(b"bar")])),
        b"*2\r\n$3\r\nfoo\r\n$3\r\nbar\r\n".to_vec()
    );
    assert_eq!(
        encode(&RedisType::Integer(i64::MIN)),
        b":-9223372036854775808\r\n".to_vec()
    );
}

#[test]
fn round_trip_samples() {
    for v in sample_values() {
        let bytes = encode(&v);
        let mut data = BytesMut::from(&bytes[..]);
        assert_eq!(parse(&mut data), Ok(v));
        assert_eq!(data.len(), 0);
    }
}

#[test]
fn incremental_feed_byte_by_byte() {
    for v in sample_values() {
        let bytes = encode(&v);
        let mut reader = Reader::new();
        for (i, b) in bytes.iter().enumerate() {
            reader.feed(&[*b]);
            let got = reader.gets();
            if i + 1 < bytes.len() {
                assert_eq!(got, Ok(None));
                assert_eq!(reader.len(), i + 1);
            } else {
                match v {
                    RedisType::Error(ref m) => assert_eq!(got, Err(ReadError::Redis(m.clone()))),
                    _ => assert_eq!(got, Ok(Some(v))),
                }
                assert_eq!(reader.len(), 0);
                break;
            }
        }
    }
}

#[test]
fn incremental_feed_in_chunks() {
    let frame = b"*2\r\n$3\r\nfoo\r\n$3\r\nbar\r\n";
    let mut reader = Reader::new();
    let chunks: [&[u8]; 4] = [&frame[..3], &frame[3..9], &frame[9..20], &frame[20..]];
    for chunk in &chunks[..3] {
        reader.feed(chunk);
        assert_eq!(reader.gets(), Ok(None));
    }
    reader.feed(chunks[3]);
    assert_eq!(
        reader.gets(),
        Ok(Some(RedisType::Array(vec![bulk(b"foo"), bulk(b"bar")])))
    );
}

#[test]
fn reader_reports_error_frames() {
    let mut reader = Reader::new();
    reader.feed(b"-ERR bad\r\n+OK\r\n");
    assert_eq!(reader.gets(), Err(ReadError::Redis(b"ERR bad".to_vec())));
    assert_eq!(reader.get_buffer(), b"+OK\r\n".to_vec());
    assert_eq!(reader.gets(), Ok(Some(RedisType::SimpleString(b"OK".to_vec()))));
}

#[test]
fn reader_reports_protocol_errors_and_keeps_bytes() {
    let mut reader = Reader::new();
    reader.feed(b"!oops\r\n");
    assert_eq!(reader.gets(), Err(ReadError::Protocol(ParserError::UnknownStartingByte)));
    assert_eq!(reader.get_buffer(), b"!oops\r\n".to_vec());
    assert_eq!(reader.len(), 7);
}

#[test]
fn reader_empty_is_incomplete() {
    let mut reader = Reader::new();
    assert_eq!(reader.len(), 0);
    assert_eq!(reader.gets(), Ok(None));
}
