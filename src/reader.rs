use vstd::prelude::*;
use vstd::slice::slice_to_vec;
use crate::buffer::{buffered, contents};
use crate::parser::{decode, parse, Decoded, ParserError};
use crate::value::{RedisType, RespValue};

verus! {

/// Why `Reader::gets` produced no value.
#[derive(Debug, PartialEq, Eq)]
pub enum ReadError {
    /// The buffered bytes do not start with a well-formed frame.
    Protocol(ParserError),
    /// The server answered with an error frame; this is its message.
    Redis(Vec<u8>),
}

/// Collects the bytes received so far and hands out complete frames.
pub struct Reader {
    buffer: bytes::BytesMut,
}

impl View for Reader {
    type V = Seq<u8>;

    closed spec fn view(&self) -> Seq<u8> {
        buffered(self.buffer)
    }
}

/// Bytes set aside for the buffer of a new reader.
pub const INITIAL_CAPACITY: usize = 16384;

impl Reader {
    /// A reader with an empty buffer.
    pub fn new() -> (r: Reader)
        ensures
            r@ == Seq::<u8>::empty(),
    {
        Reader { buffer: bytes::BytesMut::with_capacity(INITIAL_CAPACITY) }
    }

    /// Appends received bytes to the buffer; nothing is decoded.
    pub fn feed(&mut self, data: &[u8])
        requires
            old(self)@.len() + data@.len() <= isize::MAX,
        ensures
            final(self)@ == old(self)@ + data@,
    {
        self.buffer.extend_from_slice(data);
    }

    /// A copy of the bytes buffered and not yet decoded.
    pub fn get_buffer(&self) -> (r: Vec<u8>)
        ensures
            r@ == self@,
    {
        slice_to_vec(contents(&self.buffer))
    }

    /// The number of bytes buffered and not yet decoded.
    pub fn len(&self) -> (r: usize)
        ensures
            r == self@.len(),
    {
        contents(&self.buffer).len()
    }

    /// Decodes the frame at the start of the buffer. A complete frame leaves
    /// the buffer and is returned, or turned into `ReadError::Redis` when it
    /// is an error frame; an incomplete one gives `Ok(None)` and a malformed
    /// one `ReadError::Protocol`, and both leave the buffer as it was.
    pub fn gets(&mut self) -> (r: Result<Option<RedisType>, ReadError>)
        ensures
            decode(old(self)@) matches Decoded::Done(_, e) ==> final(self)@ == old(self)@.skip(e),
            decode(old(self)@) matches Decoded::Done(RespValue::Error(m), _) ==> (r matches Err(
                ReadError::Redis(x),
            ) && x@ == m),
            decode(old(self)@) matches Decoded::Done(v, _) ==> (!(v is Error) ==> (r matches Ok(
                Some(x),
            ) && x.model() == v)),
            decode(old(self)@) is Partial ==> (r matches Ok(None) && final(self)@ == old(self)@),
            decode(old(self)@) is Invalid ==> r == Err::<Option<RedisType>, ReadError>(
                ReadError::Protocol(decode(old(self)@)->Invalid_0),
            ) && final(self)@ == old(self)@,
    {
        proof {
            crate::parser::lemma_decode_end(self@, 0);
        }
        match parse(&mut self.buffer) {
            Ok(v) => {
                let ghost m = v.model();
                match v {
                    RedisType::Error(message) => {
                        assert(m == RespValue::Error(message@));
                        Err(ReadError::Redis(message))
                    },
                    other => Ok(Some(other)),
                }
            },
            Err(ParserError::Eof) => Ok(None),
            Err(e) => Err(ReadError::Protocol(e)),
        }
    }
}

} // verus!
