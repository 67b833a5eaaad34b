//! A bencode decoder: turns one encoded value at the front of a byte buffer
//! into a value tree and hands back the bytes that follow it.

pub mod decode;
pub mod encoding;
pub mod grammar;
mod text;
pub mod value;

pub use decode::{bencode_decode, DecodeError, MAX_DEPTH};
pub use grammar::ErrorKind;
pub use value::BencodingValue;
