//! Client-side core for a RESP-style key-value wire protocol: an incremental
//! frame decoder and encoder with proved round trip, the rules of a
//! round-robin connection pool, dedicated subscription sessions, and the
//! settle-once state that hands results back to a waiting caller.
pub mod value;
pub mod buffer;
pub mod parser;
pub mod encoder;
pub mod roundtrip;
pub mod reader;
pub mod command;
pub mod pool;
pub mod pubsub;
pub mod bridge;

pub use parser::{parse, ParserError};
pub use pool::ConnectionPool;
pub use reader::Reader;
pub use value::RedisType;
