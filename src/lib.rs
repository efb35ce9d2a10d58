//! A codec for the RESP wire protocol: incremental decoding of one frame at
//! a time from a receive buffer, and encoding of frames to bytes.
pub mod buffer;
pub mod decode;
pub mod encode;
pub mod equality;
pub mod error;
pub mod frame;
pub mod grammar;
pub mod laws;
pub mod lemmas;
pub mod utils;

pub use decode::RespDecode;
pub use encode::RespEncode;
pub use error::{Kind, RespError};
pub use frame::{
    Array, BulkString, DoubleText, Null, NullArray, NullBulkString, RespFrame, RespMap, RespSet, SimpleError,
    SimpleString,
};
